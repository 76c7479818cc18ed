//! The `instance.cfg` file of a Prism Launcher instance: an INI document that
//! is kept whole, so that keys this library does not know survive a rewrite.

use vstd::prelude::*;

use crate::error::ini::IniError;
use crate::error::location_offset;
use crate::text::{same_text, views};
use crate::sorted_map::{key_index, keys_of, lemma_key_index, lemma_lookup_push, lemma_lookup_update, lookup};

verus! {

broadcast use vstd::string::group_string_axioms;

/// The section that Prism Launcher stores instance settings under.
pub const GENERAL_SECTION: &'static str = "General";

// ---------------------------------------------------------------------------
// The model of an INI document
// ---------------------------------------------------------------------------

/// The properties of a section, in order, as (key, value) pairs.
pub type Properties = Seq<(Seq<char>, Seq<char>)>;

/// A section: its name (`None` for the general section) and its properties.
pub type Section = (Option<Seq<char>>, Properties);

/// The index of the first section at or after `from` named `name`.
pub open spec fn section_index_from(sections: Seq<Section>, name: Seq<char>, from: int) -> Option<int>
    decreases sections.len() - from,
{
    if from < 0 || from >= sections.len() {
        None
    } else if sections[from].0 == Some(name) {
        Some(from)
    } else {
        section_index_from(sections, name, from + 1)
    }
}

/// The index of the first section named `name`.
pub open spec fn section_index(sections: Seq<Section>, name: Seq<char>) -> Option<int> {
    section_index_from(sections, name, 0)
}

/// The value of the first property `key` in the first section named
/// `section`, if both exist.
pub open spec fn ini_get(sections: Seq<Section>, section: Seq<char>, key: Seq<char>) -> Option<Seq<char>> {
    match section_index(sections, section) {
        None => None,
        Some(i) => lookup(sections[i].1, key),
    }
}

/// The properties without any whose key is `key`.
pub open spec fn without_key(properties: Properties, key: Seq<char>) -> Properties {
    properties.filter(key_differs(key))
}

/// Whether a property's key is other than `key`.
pub open spec fn key_differs(key: Seq<char>) -> spec_fn((Seq<char>, Seq<char>)) -> bool {
    |p: (Seq<char>, Seq<char>)| p.0 != key
}

/// The document after setting `key` to `value` in section `section`: the first
/// property `key` of the first such section takes the value where it stands;
/// otherwise the property is appended to that section; and a missing section is
/// appended to the document, holding just the property.
pub open spec fn ini_set(sections: Seq<Section>, section: Seq<char>, key: Seq<char>, value: Seq<char>) -> Seq<
    Section,
> {
    match section_index(sections, section) {
        Some(i) => match key_index(sections[i].1, key) {
            Some(j) => sections.update(i, (sections[i].0, sections[i].1.update(j, (key, value)))),
            None => sections.update(i, (sections[i].0, sections[i].1.push((key, value)))),
        },
        None => sections.push((Some(section), seq![(key, value)])),
    }
}

/// The document after removing `key` from section `section`: every property
/// `key` of the first such section goes.
pub open spec fn ini_remove(sections: Seq<Section>, section: Seq<char>, key: Seq<char>) -> Seq<Section> {
    match section_index(sections, section) {
        Some(i) => sections.update(i, (sections[i].0, without_key(sections[i].1, key))),
        None => sections,
    }
}

/// The text of the properties, one `key=value` line each.
pub open spec fn render_properties(properties: Properties, separator: Seq<char>) -> Seq<char>
    decreases properties.len(),
{
    if properties.len() == 0 {
        Seq::empty()
    } else {
        render_properties(properties.drop_last(), separator) + properties.last().0 + "="@
            + properties.last().1 + separator
    }
}

/// Whether some section has properties.
pub open spec fn any_properties(sections: Seq<Section>) -> bool {
    exists|i: int| 0 <= i < sections.len() && #[trigger] sections[i].1.len() > 0
}

/// The text of an INI document, lines ending with `separator`: each section
/// gives a `[name]` line (the general section none) and its properties; a
/// section with properties is preceded by an empty line unless no earlier
/// section had any. Nothing is escaped.
pub open spec fn render_ini(sections: Seq<Section>, separator: Seq<char>) -> Seq<char>
    decreases sections.len(),
{
    if sections.len() == 0 {
        Seq::empty()
    } else {
        let (name, properties) = sections.last();
        let blank = if properties.len() > 0 && any_properties(sections.drop_last()) {
            separator
        } else {
            Seq::empty()
        };
        let header = match name {
            Some(n) => "["@ + n + "]"@ + separator,
            None => Seq::empty(),
        };
        render_ini(sections.drop_last(), separator) + blank + header + render_properties(properties, separator)
    }
}

// ---------------------------------------------------------------------------
// rust-ini
// ---------------------------------------------------------------------------

#[verifier::external_type_specification]
#[verifier::external_body]
pub struct ExIni(ini::Ini);

/// The sections of an INI document in their order, each with its properties in
/// their order.
pub uninterp spec fn ini_sections(ini: ini::Ini) -> Seq<Section>;

/// What rust-ini's `Ini::load_from_str_opt` gives for `text`, with quotes and
/// escapes read as ordinary characters: the sections, or the 1-based line and
/// column and the message of the failure.
pub uninterp spec fn ini_load(text: Seq<char>) -> Result<Seq<Section>, (usize, usize, Seq<char>)>;

/// Calls rust-ini's `Ini::load_from_str_opt` with quoting, escapes, indented
/// multi-line values and kept key indentation all switched off. What it
/// returns is named [`ini_load`]; the document's sections are given by
/// [`ini_sections`]. The parser is rust-ini's own and is not stated here.
#[verifier::external_body]
fn load_ini(text: &str) -> (result: Result<ini::Ini, (usize, usize, String)>)
    ensures
        match result {
            Ok(ini) => ini_load(text@) == Ok::<Seq<Section>, (usize, usize, Seq<char>)>(ini_sections(ini)),
            Err((line, column, message)) => ini_load(text@) == Err::<Seq<Section>, (usize, usize, Seq<char>)>(
                (line, column, message@),
            ),
        },
{
    let option = ini::ParseOption {
        enabled_quote: false,
        enabled_escape: false,
        enabled_indented_mutiline_value: false,
        enabled_preserve_key_leading_whitespace: false,
    };
    ini::Ini::load_from_str_opt(text, option).map_err(|e| (e.line, e.col, e.msg.into_owned()))
}

/// Calls rust-ini's `Ini::new`, which holds one empty general section.
#[verifier::external_body]
fn new_ini() -> (ini: ini::Ini)
    ensures
        ini_sections(ini) == seq![(None::<Seq<char>>, Seq::<(Seq<char>, Seq<char>)>::empty())],
{
    ini::Ini::new()
}

/// Calls rust-ini's `Ini::get_from`: the first value of `key` in the first
/// section named `section`.
#[verifier::external_body]
fn get_from<'a>(ini: &'a ini::Ini, section: &str, key: &str) -> (value: Option<&'a str>)
    ensures
        match value {
            Some(v) => ini_get(ini_sections(*ini), section@, key@) == Some(v@),
            None => ini_get(ini_sections(*ini), section@, key@) is None,
        },
{
    ini.get_from(Some(section), key)
}

/// Calls rust-ini's `Ini::section` and `Properties::iter`: the keys of the
/// properties of the first section named `section`, in order, or `None` when
/// there is no such section.
#[verifier::external_body]
fn section_keys(ini: &ini::Ini, section: &str) -> (keys: Option<Vec<String>>)
    ensures
        match section_index(ini_sections(*ini), section@) {
            Some(i) => keys matches Some(k) && views(k@) == keys_of(ini_sections(*ini)[i].1),
            None => keys is None,
        },
{
    ini.section(Some(section)).map(|properties| properties.iter().map(|(key, _)| key.to_string()).collect())
}

/// Calls rust-ini's `Ini::section_mut` and `Properties::iter_mut`, and writes
/// `value` into the property at position `index` of the first section named
/// `section`, where it stands.
#[verifier::external_body]
fn set_value_at(ini: &mut ini::Ini, section: &str, index: usize, value: String)
    requires
        section_index(ini_sections(*old(ini)), section@) is Some,
        index < ini_sections(*old(ini))[section_index(ini_sections(*old(ini)), section@)->Some_0].1.len(),
    ensures
        ({
            let sections = ini_sections(*old(ini));
            let i = section_index(sections, section@)->Some_0;
            ini_sections(*final(ini)) == sections.update(
                i,
                (sections[i].0, sections[i].1.update(index as int, (sections[i].1[index as int].0, value@))),
            )
        }),
{
    *ini.section_mut(Some(section)).unwrap().iter_mut().nth(index).unwrap().1 = value;
}

/// Calls rust-ini's `Ini::set_to`: in the first section named `section` (one
/// is appended if there is none), every property `key` goes and `(key, value)`
/// is appended.
#[verifier::external_body]
fn set_to(ini: &mut ini::Ini, section: &str, key: String, value: String)
    ensures
        ini_sections(*final(ini)) == match section_index(ini_sections(*old(ini)), section@) {
            Some(i) => ini_sections(*old(ini)).update(
                i,
                (
                    ini_sections(*old(ini))[i].0,
                    without_key(ini_sections(*old(ini))[i].1, key@).push((key@, value@)),
                ),
            ),
            None => ini_sections(*old(ini)).push((Some(section@), seq![(key@, value@)])),
        },
{
    ini.set_to(Some(section), key, value)
}

/// Calls rust-ini's `Ini::delete_from`: every property `key` of the first
/// section named `section` goes, and the first of their values is returned.
#[verifier::external_body]
fn delete_from(ini: &mut ini::Ini, section: &str, key: &str) -> (removed: Option<String>)
    ensures
        ini_sections(*final(ini)) == ini_remove(ini_sections(*old(ini)), section@, key@),
        match removed {
            Some(v) => ini_get(ini_sections(*old(ini)), section@, key@) == Some(v@),
            None => ini_get(ini_sections(*old(ini)), section@, key@) is None,
        },
{
    ini.delete_from(Some(section), key)
}

/// Calls rust-ini's `Ini::clone`, which copies every section and property in
/// its order.
#[verifier::external_body]
fn clone_ini(ini: &ini::Ini) -> (copy: ini::Ini)
    ensures
        ini_sections(copy) == ini_sections(*ini),
{
    ini.clone()
}

/// The line separator that a rendering uses.
#[derive(Debug, Clone, Copy, PartialEq, Eq)]
pub enum LineSeparator {
    /// `\n`, or `\r\n` on Windows: the separator of the system the program
    /// was built for.
    System,
    /// `\n`.
    Lf,
    /// `\r\n`.
    CrLf,
}

/// Whether `text` renders `sections` with `separator`.
pub open spec fn rendered_with(sections: Seq<Section>, separator: LineSeparator, text: Seq<char>) -> bool {
    match separator {
        LineSeparator::Lf => text == render_ini(sections, "\n"@),
        LineSeparator::CrLf => text == render_ini(sections, "\r\n"@),
        LineSeparator::System => text == render_ini(sections, "\n"@) || text == render_ini(sections, "\r\n"@),
    }
}

/// Calls rust-ini's `Ini::write_to_opt` into memory, escaping nothing,
/// separating key from value with `=`, and ending lines with `separator`
/// (rust-ini's `SystemDefault`, `CR` and `CRLF`, which are `\n` or `\r\n`
/// by platform, `\n`, and `\r\n`).
#[verifier::external_body]
fn render(ini: &ini::Ini, separator: LineSeparator) -> (text: String)
    ensures
        rendered_with(ini_sections(*ini), separator, text@),
{
    let line_separator = match separator {
        LineSeparator::System => ini::LineSeparator::SystemDefault,
        LineSeparator::Lf => ini::LineSeparator::CR,
        LineSeparator::CrLf => ini::LineSeparator::CRLF,
    };
    let option = ini::WriteOption { escape_policy: ini::EscapePolicy::Nothing, line_separator, kv_separator: "=" };
    let mut buffer: Vec<u8> = Vec::new();
    let _ = ini.write_to_opt(&mut buffer, option);
    String::from_utf8_lossy(&buffer).into_owned()
}

// ---------------------------------------------------------------------------
// The configuration
// ---------------------------------------------------------------------------

/// The configuration for a Prism Launcher instance, parsed from the
/// `instance.cfg` file within the instance directory.
///
/// Prism Launcher writes many more keys than we care about, so the whole INI
/// structure is retained instead of a fixed set of fields.
#[derive(Debug)]
pub struct InstanceConfiguration {
    /// The parsed file.
    ini: ini::Ini,
}

impl InstanceConfiguration {
    /// The sections of the document.
    pub closed spec fn sections(&self) -> Seq<Section> {
        ini_sections(self.ini)
    }

    /// An empty configuration: one empty general section.
    pub fn new() -> (configuration: Self)
        ensures
            configuration.sections() == seq![(None::<Seq<char>>, Seq::<(Seq<char>, Seq<char>)>::empty())],
    {
        InstanceConfiguration { ini: new_ini() }
    }

    /// Parses an [`InstanceConfiguration`] from the contents of an `instance.cfg`
    /// file. Backslashes and quotes are read as ordinary characters, since
    /// Prism Launcher applies its own escaping.
    ///
    /// If the contents are not valid INI, the error gives the parser's message
    /// and the location at which it stopped.
    pub fn from_str(string: &str) -> (result: Result<InstanceConfiguration, IniError>)
        ensures
            match ini_load(string@) {
                Ok(sections) => result is Ok && result->Ok_0.sections() == sections,
                Err((line, column, message)) => result is Err && result->Err_0.message@ == message
                    && result->Err_0.input@ == string@ && result->Err_0.offset == location_offset(
                    string@,
                    line,
                    column,
                ),
            },
    {
        match load_ini(string) {
            Ok(ini) => Ok(InstanceConfiguration { ini }),
            Err((line, column, message)) => Err(IniError::from(String::from_str(string), line, column, message)),
        }
    }

    /// Returns the value of a key in the provided section, if it is set.
    pub fn get(&self, section: &str, key: &str) -> (value: Option<&str>)
        ensures
            match value {
                Some(v) => ini_get(self.sections(), section@, key@) == Some(v@),
                None => ini_get(self.sections(), section@, key@) is None,
            },
    {
        get_from(&self.ini, section, key)
    }

    /// Sets a key in the provided section, replacing any value that it already
    /// had where it already sits (so that a file Prism wrote is not reordered).
    /// A missing key is appended to the section, and a missing section to the
    /// document.
    pub fn set(&mut self, section: &str, key: &str, value: &str)
        ensures
            final(self).sections() == ini_set(old(self).sections(), section@, key@, value@),
    {
        let ghost sections = ini_sections(self.ini);
        proof {
            lemma_section_index_from(sections, section@, 0);
        }
        if let Some(keys) = section_keys(&self.ini, section) {
            let ghost i = section_index(sections, section@)->Some_0;
            let ghost properties = sections[i].1;
            assert(keys@.len() == properties.len()) by {
                assert(views(keys@).len() == keys@.len());
            }
            let mut j: usize = 0;
            while j < keys.len() && !same_text(keys[j].as_str(), key)
                invariant
                    j <= keys@.len(),
                    keys@.len() == properties.len(),
                    views(keys@) == keys_of(properties),
                    forall|m: int| 0 <= m < j ==> properties[m].0 != key@,
                decreases keys@.len() - j,
            {
                assert(keys@[j as int]@ == views(keys@)[j as int]);
                assert(keys_of(properties)[j as int] == properties[j as int].0);
                j = j + 1;
            }
            proof {
                lemma_key_index(properties, key@);
            }
            if j < keys.len() {
                proof {
                    assert(keys@[j as int]@ == views(keys@)[j as int]);
                    assert(keys_of(properties)[j as int] == properties[j as int].0);
                    assert(properties[j as int].0 == key@);
                    if let Some(k) = key_index(properties, key@) {
                        assert(k == j);
                    }
                }
                set_value_at(&mut self.ini, section, j, String::from_str(value));
                return;
            }
            proof {
                lemma_without_absent_key(properties, key@);
            }
        }
        set_to(&mut self.ini, section, String::from_str(key), String::from_str(value));
    }

    /// Removes a key from the provided section, returning its value if it was set.
    pub fn remove(&mut self, section: &str, key: &str) -> (removed: Option<String>)
        ensures
            final(self).sections() == ini_remove(old(self).sections(), section@, key@),
            match removed {
                Some(v) => ini_get(old(self).sections(), section@, key@) == Some(v@),
                None => ini_get(old(self).sections(), section@, key@) is None,
            },
    {
        delete_from(&mut self.ini, section, key)
    }

    /// Renders the configuration back into the contents of an `instance.cfg`
    /// file, with the system's line separator.
    pub fn to_string(&self) -> (text: String)
        ensures
            rendered_with(self.sections(), LineSeparator::System, text@),
    {
        render(&self.ini, LineSeparator::System)
    }

    /// Renders the configuration back into the contents of an `instance.cfg`
    /// file, ending lines with `separator`.
    pub fn to_string_with(&self, separator: LineSeparator) -> (text: String)
        ensures
            rendered_with(self.sections(), separator, text@),
    {
        render(&self.ini, separator)
    }
}

impl Clone for InstanceConfiguration {
    /// A copy of the document, with the same sections and properties.
    fn clone(&self) -> (copy: Self)
        ensures
            copy.sections() == self.sections(),
    {
        InstanceConfiguration { ini: clone_ini(&self.ini) }
    }
}

impl Default for InstanceConfiguration {
    fn default() -> (configuration: Self)
        ensures
            configuration.sections() == seq![(None::<Seq<char>>, Seq::<(Seq<char>, Seq<char>)>::empty())],
    {
        InstanceConfiguration::new()
    }
}

/// Removing a key that no property has leaves the properties as they are.
pub proof fn lemma_without_absent_key(properties: Properties, key: Seq<char>)
    requires
        forall|j: int| 0 <= j < properties.len() ==> properties[j].0 != key,
    ensures
        without_key(properties, key) == properties,
    decreases properties.len(),
{
    if properties.len() > 0 {
        lemma_without_absent_key(properties.drop_last(), key);
        assert(properties.drop_last().push(properties.last()) =~= properties);
        properties.drop_last().lemma_filter_push(properties.last(), key_differs(key));
    } else {
        reveal(Seq::filter);
        assert(without_key(properties, key) =~= properties);
    }
}

// ---------------------------------------------------------------------------
// Laws
// ---------------------------------------------------------------------------

/// `section_index_from` depends only on the section names.
proof fn lemma_section_index_names(a: Seq<Section>, b: Seq<Section>, name: Seq<char>, from: int)
    requires
        a.len() == b.len(),
        forall|i: int| 0 <= i < a.len() ==> #[trigger] a[i].0 == b[i].0,
    ensures
        section_index_from(a, name, from) == section_index_from(b, name, from),
    decreases a.len() - from,
{
    if 0 <= from < a.len() {
        lemma_section_index_names(a, b, name, from + 1);
    }
}

/// What `section_index_from` finds.
proof fn lemma_section_index_from(sections: Seq<Section>, name: Seq<char>, from: int)
    requires
        0 <= from,
    ensures
        match section_index_from(sections, name, from) {
            Some(i) => from <= i < sections.len() && sections[i].0 == Some(name) && forall|j: int|
                from <= j < i ==> sections[j].0 != Some(name),
            None => forall|j: int| from <= j < sections.len() ==> sections[j].0 != Some(name),
        },
    decreases sections.len() - from,
{
    if from < sections.len() && sections[from].0 != Some(name) {
        lemma_section_index_from(sections, name, from + 1);
    }
}

/// Appending a section: an earlier section of the name still comes first.
proof fn lemma_section_index_push(sections: Seq<Section>, section: Section, name: Seq<char>, from: int)
    requires
        0 <= from <= sections.len(),
    ensures
        section_index_from(sections.push(section), name, from) == match section_index_from(sections, name, from) {
            Some(i) => Some(i),
            None => if section.0 == Some(name) {
                Some(sections.len() as int)
            } else {
                None
            },
        },
    decreases sections.len() - from,
{
    if from < sections.len() {
        assert(sections.push(section)[from] == sections[from]);
        lemma_section_index_push(sections, section, name, from + 1);
    } else {
        assert(sections.push(section)[from] == section);
        assert(section_index_from(sections.push(section), name, from + 1) is None);
    }
}

/// Replacing the properties of a section keeps the section indices.
proof fn lemma_section_index_update(sections: Seq<Section>, i: int, properties: Properties, name: Seq<char>)
    requires
        0 <= i < sections.len(),
    ensures
        section_index(sections.update(i, (sections[i].0, properties)), name) == section_index(sections, name),
{
    lemma_section_index_names(sections.update(i, (sections[i].0, properties)), sections, name, 0);
}

/// Looking up in properties without `key`.
proof fn lemma_lookup_without_key(properties: Properties, key: Seq<char>, other: Seq<char>)
    ensures
        lookup(without_key(properties, key), other) == if other == key {
            None
        } else {
            lookup(properties, other)
        },
    decreases properties.len(),
{
    if properties.len() == 0 {
        reveal(Seq::filter);
        assert(without_key(properties, key) =~= properties);
        lemma_key_index(properties, other);
    } else {
        let front = properties.drop_last();
        let last = properties.last();
        lemma_lookup_without_key(front, key, other);
        assert(front.push(last) =~= properties);
        front.lemma_filter_push(last, key_differs(key));
        lemma_lookup_push(front, last, other);
        if last.0 != key {
            lemma_lookup_push(without_key(front, key), last, other);
        }
    }
}

/// After a key is set, reading it gives the value that was set.
pub proof fn lemma_get_after_set(sections: Seq<Section>, section: Seq<char>, key: Seq<char>, value: Seq<char>)
    ensures
        ini_get(ini_set(sections, section, key, value), section, key) == Some(value),
{
    lemma_set_get(sections, section, key, value, section, key);
}

/// Setting a key leaves every other key, of every section, as it was.
pub proof fn lemma_set_keeps_others(
    sections: Seq<Section>,
    section: Seq<char>,
    key: Seq<char>,
    value: Seq<char>,
    other_section: Seq<char>,
    other_key: Seq<char>,
)
    requires
        other_section != section || other_key != key,
    ensures
        ini_get(ini_set(sections, section, key, value), other_section, other_key) == ini_get(
            sections,
            other_section,
            other_key,
        ),
{
    lemma_set_get(sections, section, key, value, other_section, other_key);
}

/// What any key reads after a key is set.
proof fn lemma_set_get(
    sections: Seq<Section>,
    section: Seq<char>,
    key: Seq<char>,
    value: Seq<char>,
    other_section: Seq<char>,
    other_key: Seq<char>,
)
    ensures
        ini_get(ini_set(sections, section, key, value), other_section, other_key) == if other_section == section
            && other_key == key {
            Some(value)
        } else {
            ini_get(sections, other_section, other_key)
        },
{
    let updated = ini_set(sections, section, key, value);
    lemma_section_index_from(sections, section, 0);
    lemma_section_index_from(sections, other_section, 0);
    match section_index(sections, section) {
        Some(i) => {
            let properties = sections[i].1;
            let new_properties = match key_index(properties, key) {
                Some(j) => properties.update(j, (key, value)),
                None => properties.push((key, value)),
            };
            assert(updated == sections.update(i, (sections[i].0, new_properties)));
            lemma_section_index_update(sections, i, new_properties, other_section);
            if other_section == section {
                assert(updated[i].1 == new_properties);
                match key_index(properties, key) {
                    Some(j) => {
                        lemma_lookup_update(properties, key, value, other_key);
                    },
                    None => {
                        lemma_lookup_push(properties, (key, value), other_key);
                        lemma_key_index(properties, key);
                        if other_key == key {
                        } else {
                        }
                        assert(lookup(properties, key) is None);
                    },
                }
            } else {
                match section_index(sections, other_section) {
                    Some(k) => {
                        assert(k != i);
                        assert(updated[k] == sections[k]);
                    },
                    None => {},
                }
            }
        },
        None => {
            let added: Section = (Some(section), seq![(key, value)]);
            assert(updated == sections.push(added));
            lemma_section_index_push(sections, added, other_section, 0);
            if other_section == section {
                assert(updated[sections.len() as int] == added);
                lemma_lookup_push(Seq::<(Seq<char>, Seq<char>)>::empty(), (key, value), other_key);
                assert(Seq::<(Seq<char>, Seq<char>)>::empty().push((key, value)) =~= seq![(key, value)]);
                lemma_key_index(Seq::<(Seq<char>, Seq<char>)>::empty(), other_key);
            } else {
                match section_index(sections, other_section) {
                    Some(k) => {
                        assert(updated[k] == sections[k]);
                    },
                    None => {},
                }
            }
        },
    }
}

/// What any key reads after a key is removed.
proof fn lemma_remove_get(
    sections: Seq<Section>,
    section: Seq<char>,
    key: Seq<char>,
    other_section: Seq<char>,
    other_key: Seq<char>,
)
    ensures
        ini_get(ini_remove(sections, section, key), other_section, other_key) == if other_section == section
            && other_key == key {
            None
        } else {
            ini_get(sections, other_section, other_key)
        },
{
    let updated = ini_remove(sections, section, key);
    lemma_section_index_from(sections, section, 0);
    lemma_section_index_from(sections, other_section, 0);
    match section_index(sections, section) {
        Some(i) => {
            let new_properties = without_key(sections[i].1, key);
            lemma_section_index_update(sections, i, new_properties, other_section);
            if other_section == section {
                lemma_lookup_without_key(sections[i].1, key, other_key);
            } else {
                match section_index(sections, other_section) {
                    Some(k) => {
                        assert(updated[k] == sections[k]);
                    },
                    None => {},
                }
            }
        },
        None => {},
    }
}

/// After a key is removed, reading it gives nothing.
pub proof fn lemma_get_after_remove(sections: Seq<Section>, section: Seq<char>, key: Seq<char>)
    ensures
        ini_get(ini_remove(sections, section, key), section, key) is None,
{
    lemma_remove_get(sections, section, key, section, key);
}

/// Removing a key leaves every other key, of every section, as it was.
pub proof fn lemma_remove_keeps_others(
    sections: Seq<Section>,
    section: Seq<char>,
    key: Seq<char>,
    other_section: Seq<char>,
    other_key: Seq<char>,
)
    requires
        other_section != section || other_key != key,
    ensures
        ini_get(ini_remove(sections, section, key), other_section, other_key) == ini_get(
            sections,
            other_section,
            other_key,
        ),
{
    lemma_remove_get(sections, section, key, other_section, other_key);
}

/// The section names and the keys of each section, in order.
pub open spec fn layout(sections: Seq<Section>) -> Seq<(Option<Seq<char>>, Seq<Seq<char>>)> {
    sections.map_values(|s: Section| (s.0, keys_of(s.1)))
}

/// Setting a key that is already set changes only its value: every section
/// and every key stays where it was.
pub proof fn lemma_set_existing_keeps_layout(sections: Seq<Section>, section: Seq<char>, key: Seq<char>, value: Seq<char>)
    requires
        ini_get(sections, section, key) is Some,
    ensures
        layout(ini_set(sections, section, key, value)) == layout(sections),
{
    let i = section_index(sections, section)->Some_0;
    lemma_section_index_from(sections, section, 0);
    lemma_key_index(sections[i].1, key);
    let j = key_index(sections[i].1, key)->Some_0;
    let updated = ini_set(sections, section, key, value);
    assert(keys_of(sections[i].1.update(j, (key, value))) =~= keys_of(sections[i].1));
    assert(layout(updated) =~= layout(sections));
}

/// Setting a key to a value a second time changes nothing more.
pub proof fn lemma_set_idempotent(sections: Seq<Section>, section: Seq<char>, key: Seq<char>, value: Seq<char>)
    ensures
        ini_set(ini_set(sections, section, key, value), section, key, value) == ini_set(
            sections,
            section,
            key,
            value,
        ),
{
    let once = ini_set(sections, section, key, value);
    lemma_section_index_from(sections, section, 0);
    match section_index(sections, section) {
        Some(i) => {
            let properties = sections[i].1;
            lemma_key_index(properties, key);
            let new_properties = match key_index(properties, key) {
                Some(j) => properties.update(j, (key, value)),
                None => properties.push((key, value)),
            };
            lemma_section_index_update(sections, i, new_properties, section);
            match key_index(properties, key) {
                Some(j) => {
                    assert(keys_of(new_properties) =~= keys_of(properties));
                    crate::sorted_map::lemma_key_index_from_keys(new_properties, properties, key, 0);
                    assert(new_properties.update(j, (key, value)) =~= new_properties);
                },
                None => {
                    crate::sorted_map::lemma_key_index_from_push(properties, (key, value), key, 0);
                    assert(new_properties.update(properties.len() as int, (key, value)) =~= new_properties);
                },
            }
            assert(once[i] == (sections[i].0, new_properties));
            assert(once.update(i, (once[i].0, new_properties)) =~= once);
        },
        None => {
            let added: Section = (Some(section), seq![(key, value)]);
            lemma_section_index_push(sections, added, section, 0);
            let n = sections.len() as int;
            assert(once[n] == added);
            lemma_single_key_index(key, value);
            assert(seq![(key, value)].update(0, (key, value)) =~= seq![(key, value)]);
            assert(once.update(n, (once[n].0, seq![(key, value)])) =~= once);
        },
    }
}

/// A one-property list finds its key at index 0.
proof fn lemma_single_key_index(key: Seq<char>, value: Seq<char>)
    ensures
        key_index(seq![(key, value)], key) == Some(0int),
{
}

/// Setting a key twice leaves what setting it once to the later value
/// leaves: the later value wins and the earlier leaves no trace.
pub proof fn lemma_later_set_wins(
    sections: Seq<Section>,
    section: Seq<char>,
    key: Seq<char>,
    first: Seq<char>,
    second: Seq<char>,
)
    ensures
        ini_set(ini_set(sections, section, key, first), section, key, second) == ini_set(
            sections,
            section,
            key,
            second,
        ),
{
    let once = ini_set(sections, section, key, first);
    lemma_section_index_from(sections, section, 0);
    match section_index(sections, section) {
        Some(i) => {
            let properties = sections[i].1;
            lemma_key_index(properties, key);
            let new_properties = match key_index(properties, key) {
                Some(j) => properties.update(j, (key, first)),
                None => properties.push((key, first)),
            };
            lemma_section_index_update(sections, i, new_properties, section);
            assert(once[i] == (sections[i].0, new_properties));
            match key_index(properties, key) {
                Some(j) => {
                    assert(keys_of(new_properties) =~= keys_of(properties));
                    crate::sorted_map::lemma_key_index_from_keys(new_properties, properties, key, 0);
                    assert(new_properties.update(j, (key, second)) =~= properties.update(j, (key, second)));
                },
                None => {
                    crate::sorted_map::lemma_key_index_from_push(properties, (key, first), key, 0);
                    assert(new_properties.update(properties.len() as int, (key, second)) =~= properties.push(
                        (key, second),
                    ));
                },
            }
            assert(once.update(i, (once[i].0, match key_index(properties, key) {
                Some(j) => properties.update(j, (key, second)),
                None => properties.push((key, second)),
            })) =~= ini_set(sections, section, key, second));
        },
        None => {
            let added: Section = (Some(section), seq![(key, first)]);
            lemma_section_index_push(sections, added, section, 0);
            let n = sections.len() as int;
            assert(once[n] == added);
            lemma_single_key_index(key, first);
            assert(seq![(key, first)].update(0, (key, second)) =~= seq![(key, second)]);
            assert(once.update(n, (once[n].0, seq![(key, second)])) =~= sections.push(
                (Some(section), seq![(key, second)]),
            ));
        },
    }
}

/// Removing a key that is not set leaves the document as it was.
pub proof fn lemma_remove_absent(sections: Seq<Section>, section: Seq<char>, key: Seq<char>)
    requires
        ini_get(sections, section, key) is None,
    ensures
        ini_remove(sections, section, key) == sections,
{
    lemma_section_index_from(sections, section, 0);
    match section_index(sections, section) {
        Some(i) => {
            lemma_key_index(sections[i].1, key);
            lemma_without_absent_key(sections[i].1, key);
            assert(sections.update(i, (sections[i].0, sections[i].1)) =~= sections);
        },
        None => {},
    }
}

/// Removing a key that was not set, after setting it, leaves the document as
/// it was, except that a section the setting created stays, empty.
pub proof fn lemma_remove_undoes_set(sections: Seq<Section>, section: Seq<char>, key: Seq<char>, value: Seq<char>)
    requires
        ini_get(sections, section, key) is None,
    ensures
        ini_remove(ini_set(sections, section, key, value), section, key) == if section_index(sections, section) is Some {
            sections
        } else {
            sections.push((Some(section), Seq::<(Seq<char>, Seq<char>)>::empty()))
        },
{
    let once = ini_set(sections, section, key, value);
    lemma_section_index_from(sections, section, 0);
    match section_index(sections, section) {
        Some(i) => {
            let properties = sections[i].1;
            lemma_key_index(properties, key);
            let new_properties = properties.push((key, value));
            lemma_section_index_update(sections, i, new_properties, section);
            properties.lemma_filter_push((key, value), key_differs(key));
            lemma_without_absent_key(properties, key);
            assert(once.update(i, (once[i].0, without_key(new_properties, key))) =~= sections);
        },
        None => {
            let added: Section = (Some(section), seq![(key, value)]);
            lemma_section_index_push(sections, added, section, 0);
            let n = sections.len() as int;
            assert(once[n] == added);
            let empty = Seq::<(Seq<char>, Seq<char>)>::empty();
            assert(seq![(key, value)] =~= empty.push((key, value)));
            empty.lemma_filter_push((key, value), key_differs(key));
            reveal(Seq::filter);
            assert(without_key(empty, key) =~= empty);
            assert(once.update(n, (once[n].0, without_key(seq![(key, value)], key))) =~= sections.push(
                (Some(section), empty),
            ));
        },
    }
}

} // verus!
