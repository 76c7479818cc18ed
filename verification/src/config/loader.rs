//! Loader descriptions such as `fabric`, `fabric@latest` or `fabric@0.19.3`.

use vstd::prelude::*;
use vstd::slice::slice_subrange;

use crate::text::{chars_equal, chars_of, find_char_from, lemma_find_char_from, lemma_find_char_from_skip,
    string_from_chars};

verus! {

broadcast use vstd::string::group_string_axioms;

/// The different kinds of loaders that are available.
#[derive(Debug, PartialEq, Eq)]
pub enum LoaderKind {
    Fabric,
}

/// The different types of versions that can be described.
#[derive(Debug, PartialEq, Eq)]
pub enum LoaderVersion {
    /// The latest version for the instance's Minecraft version should be used.
    Latest,
    /// An explicit version should be used.
    Explicit(String),
}

/// A definition of which loader and version to use.
#[derive(Debug, PartialEq, Eq)]
pub struct Loader {
    pub kind: LoaderKind,
    pub version: LoaderVersion,
}

/// Why a loader description was rejected.
#[derive(Debug, PartialEq, Eq)]
pub enum LoaderError {
    /// The text before the `@` (or the whole text) names no known loader.
    InvalidKind(String),
}

impl View for LoaderVersion {
    /// `None` for the latest version, `Some(text)` for an explicit one.
    type V = Option<Seq<char>>;

    open spec fn view(&self) -> Option<Seq<char>> {
        match self {
            LoaderVersion::Latest => None,
            LoaderVersion::Explicit(version) => Some(version@),
        }
    }
}

impl View for Loader {
    type V = (LoaderKind, Option<Seq<char>>);

    open spec fn view(&self) -> (LoaderKind, Option<Seq<char>>) {
        (self.kind, self.version@)
    }
}

impl View for LoaderError {
    /// The rejected loader kind.
    type V = Seq<char>;

    open spec fn view(&self) -> Seq<char> {
        match self {
            LoaderError::InvalidKind(kind) => kind@,
        }
    }
}

/// The kind and version text of a description: the text around the first `@`,
/// or the whole text and no version when there is no `@`.
pub open spec fn split_loader_text(text: Seq<char>) -> (Seq<char>, Option<Seq<char>>) {
    match find_char_from(text, '@', 0) {
        Some(at) => (text.take(at), Some(text.subrange(at + 1, text.len() as int))),
        None => (text, None),
    }
}

/// The loader that a description stands for, or the unknown kind it names.
///
/// A missing version, and the version `latest`, both mean the latest version.
pub open spec fn loader_from_text(text: Seq<char>) -> Result<(LoaderKind, Option<Seq<char>>), Seq<char>> {
    let (raw_kind, raw_version) = split_loader_text(text);
    let version = match raw_version {
        Some(v) => if v == "latest"@ {
            None
        } else {
            Some(v)
        },
        None => None,
    };
    if raw_kind == "fabric"@ {
        Ok((LoaderKind::Fabric, version))
    } else {
        Err(raw_kind)
    }
}

/// The message of a rejected loader kind.
pub open spec fn invalid_kind_message(kind: Seq<char>) -> Seq<char> {
    "invalid loader kind: '"@ + kind + "'"@
}

impl Loader {
    /// Parses a loader from its `kind@version` description, e.g. `fabric@latest`,
    /// `fabric@0.19.3`, or `fabric`.
    pub fn parse(text: &str) -> (loader: Result<Loader, LoaderError>)
        ensures
            match loader_from_text(text@) {
                Ok(l) => loader is Ok && loader->Ok_0@ == l,
                Err(kind) => loader is Err && loader->Err_0@ == kind,
            },
    {
        let chars = chars_of(text);
        let mut at: usize = 0;
        while at < chars.len() && chars[at] != '@'
            invariant
                chars@ == text@,
                at <= chars@.len(),
                forall|j: int| 0 <= j < at ==> chars@[j] != '@',
            decreases chars@.len() - at,
        {
            at = at + 1;
        }
        proof {
            lemma_find_char_from(text@, '@', 0);
        }
        let (raw_kind, version) = if at < chars.len() {
            let raw_kind = slice_subrange(chars.as_slice(), 0, at);
            let raw_version = slice_subrange(chars.as_slice(), at + 1, chars.len());
            assert(find_char_from(text@, '@', 0) == Some(at as int));
            let latest = chars_of("latest");
            let version = if chars_equal(raw_version, latest.as_slice()) {
                LoaderVersion::Latest
            } else {
                LoaderVersion::Explicit(string_from_chars(raw_version))
            };
            (raw_kind, version)
        } else {
            assert(find_char_from(text@, '@', 0) is None);
            (chars.as_slice(), LoaderVersion::Latest)
        };
        let fabric = chars_of("fabric");
        if chars_equal(raw_kind, fabric.as_slice()) {
            Ok(Loader { kind: LoaderKind::Fabric, version })
        } else {
            Err(LoaderError::InvalidKind(string_from_chars(raw_kind)))
        }
    }
}

impl LoaderError {
    /// The message describing this error.
    pub fn to_string(&self) -> (message: String)
        ensures
            message@ == invalid_kind_message(self@),
    {
        match self {
            LoaderError::InvalidKind(kind) => {
                let mut message = String::from_str("invalid loader kind: '");
                message.append(kind.as_str());
                message.append("'");
                message
            },
        }
    }
}

impl Clone for LoaderKind {
    fn clone(&self) -> (copy: Self)
        ensures
            copy == *self,
    {
        match self {
            LoaderKind::Fabric => LoaderKind::Fabric,
        }
    }
}

impl Clone for LoaderVersion {
    fn clone(&self) -> (copy: Self)
        ensures
            copy@ == self@,
    {
        match self {
            LoaderVersion::Latest => LoaderVersion::Latest,
            LoaderVersion::Explicit(version) => LoaderVersion::Explicit(version.clone()),
        }
    }
}

impl Clone for Loader {
    fn clone(&self) -> (copy: Self)
        ensures
            copy@ == self@,
    {
        Loader { kind: self.kind.clone(), version: self.version.clone() }
    }
}

/// The kind and the text after the first `@`, for a kind without `@`.
proof fn lemma_split_after_kind(kind: Seq<char>, version: Seq<char>)
    requires
        !kind.contains('@'),
    ensures
        split_loader_text(kind.push('@') + version) == (kind, Some(version)),
{
    let text = kind.push('@') + version;
    assert forall|j: int| 0 <= j < kind.len() && j < text.len() implies text[j] != '@' by {
        assert(text[j] == kind[j]);
    }
    lemma_find_char_from_skip(text, '@', 0, kind.len() as int);
    assert(text[kind.len() as int] == '@');
    assert(text.take(kind.len() as int) =~= kind);
    assert(text.subrange(kind.len() as int + 1, text.len() as int) =~= version);
}

/// Asking for the latest version explicitly is the same as giving no version.
pub proof fn lemma_explicit_latest_is_default(kind: Seq<char>)
    requires
        !kind.contains('@'),
    ensures
        loader_from_text(kind.push('@') + "latest"@) == loader_from_text(kind),
{
    lemma_split_after_kind(kind, "latest"@);
    lemma_find_char_from(kind, '@', 0);
    if let Some(i) = find_char_from(kind, '@', 0) {
        assert(kind[i] == '@');
    }
}

/// Every version given after `fabric@` is taken as it is, except `latest`.
pub proof fn lemma_fabric_version(version: Seq<char>)
    ensures
        loader_from_text("fabric@"@ + version) == Ok::<(LoaderKind, Option<Seq<char>>), Seq<char>>(
            (LoaderKind::Fabric, if version == "latest"@ {
                None
            } else {
                Some(version)
            }),
        ),
{
    reveal_strlit("fabric@");
    reveal_strlit("fabric");
    let kind = "fabric"@;
    assert("fabric@"@ =~= kind.push('@'));
    assert(!kind.contains('@')) by {
        if kind.contains('@') {
            let i = choose|i: int| 0 <= i < kind.len() && kind[i] == '@';
            assert(kind[i] != '@');
        }
    }
    lemma_split_after_kind(kind, version);
}

/// A description without `@` names a loader only when it is exactly
/// `fabric`, which then takes the latest version; any other text is rejected,
/// naming the whole text as the unknown kind.
pub proof fn lemma_parse_kind_alone(kind: Seq<char>)
    requires
        !kind.contains('@'),
    ensures
        loader_from_text(kind) == if kind == "fabric"@ {
            Ok::<(LoaderKind, Option<Seq<char>>), Seq<char>>((LoaderKind::Fabric, None))
        } else {
            Err::<(LoaderKind, Option<Seq<char>>), Seq<char>>(kind)
        },
{
    lemma_find_char_from(kind, '@', 0);
    if let Some(i) = find_char_from(kind, '@', 0) {
        assert(kind[i] == '@');
    }
}

/// A description `kind@version`, where `kind` holds no `@`, names a loader
/// only when `kind` is exactly `fabric`: the version is then the text after
/// the first `@`, taken as it is, except that `latest` means the latest
/// version. Any other kind is rejected, naming it.
pub proof fn lemma_parse_kind_and_version(kind: Seq<char>, version: Seq<char>)
    requires
        !kind.contains('@'),
    ensures
        loader_from_text(kind.push('@') + version) == if kind == "fabric"@ {
            Ok::<(LoaderKind, Option<Seq<char>>), Seq<char>>(
                (LoaderKind::Fabric, if version == "latest"@ {
                    None
                } else {
                    Some(version)
                }),
            )
        } else {
            Err::<(LoaderKind, Option<Seq<char>>), Seq<char>>(kind)
        },
{
    lemma_split_after_kind(kind, version);
}

} // verus!
