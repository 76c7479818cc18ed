//! Prism Launcher: where its data directory is, and the files of its instances.

use vstd::prelude::*;

use crate::text::views;

pub mod config;

verus! {

broadcast use vstd::string::group_string_axioms;

#[verifier::external_type_specification]
#[verifier::external_body]
pub struct ExPathBuf(std::path::PathBuf);

/// The directory at the path either does not exist, or is not a valid data
/// directory for Prism Launcher.
#[derive(Debug)]
pub struct PrismDataDirectoryError(pub std::path::PathBuf);

/// The message of a [`PrismDataDirectoryError`] for a path displayed as `shown`.
pub open spec fn data_directory_message(shown: Seq<char>) -> Seq<char> {
    "the directory at '"@ + shown + "' either does not exist, or is not a valid data directory for prism launcher"@
}

/// The text that std's `Path::display` gives for `path`.
pub uninterp spec fn path_display_text(path: std::path::PathBuf) -> Seq<char>;

/// Calls std's `Path::display` and renders it into a `String`; what it gives
/// is named [`path_display_text`] (the path's text as the operating system
/// encodes it, with invalid UTF-8 replaced).
#[verifier::external_body]
fn display_path(path: &std::path::PathBuf) -> (shown: String)
    ensures
        shown@ == path_display_text(*path),
{
    path.display().to_string()
}

impl PrismDataDirectoryError {
    /// The message describing this error: the path, as it displays, within a
    /// fixed sentence.
    pub fn to_string(&self) -> (message: String)
        ensures
            message@ == data_directory_message(path_display_text(self.0)),
    {
        let shown = display_path(&self.0);
        let mut message = String::from_str("the directory at '");
        message.append(shown.as_str());
        message.append("' either does not exist, or is not a valid data directory for prism launcher");
        message
    }
}

/// The operating systems that place Prism Launcher's data differently.
#[derive(Debug, Clone, Copy, PartialEq, Eq)]
pub enum Platform {
    Windows,
    MacOs,
    /// Any other system, where the Flatpak installation is used.
    Other,
}

/// Where Prism Launcher keeps its data on `platform`, as the directories to
/// descend into from the user's home directory.
pub open spec fn data_directory_path(platform: Platform) -> Seq<Seq<char>> {
    match platform {
        Platform::Windows => seq!["AppData"@, "Roaming"@, "PrismLauncher"@],
        Platform::MacOs => seq!["Library"@, "Application Support"@, "PrismLauncher"@],
        Platform::Other => seq![".var"@, "app"@, "org.prismlauncher.PrismLauncher"@, "data"@, "PrismLauncher"@],
    }
}

/// The directories to descend into from the user's home directory to reach
/// Prism Launcher's data on `platform`.
pub fn default_data_directory_components(platform: Platform) -> (components: Vec<String>)
    ensures
        views(components@) == data_directory_path(platform),
{
    let mut components: Vec<String> = Vec::new();
    match platform {
        Platform::Windows => {
            components.push(String::from_str("AppData"));
            components.push(String::from_str("Roaming"));
            components.push(String::from_str("PrismLauncher"));
        },
        Platform::MacOs => {
            components.push(String::from_str("Library"));
            components.push(String::from_str("Application Support"));
            components.push(String::from_str("PrismLauncher"));
        },
        Platform::Other => {
            // The Flatpak installation; the native `~/.local/share/PrismLauncher` is not looked for.
            components.push(String::from_str(".var"));
            components.push(String::from_str("app"));
            components.push(String::from_str("org.prismlauncher.PrismLauncher"));
            components.push(String::from_str("data"));
            components.push(String::from_str("PrismLauncher"));
        },
    }
    assert(views(components@) =~= data_directory_path(platform));
    components
}

/// Whether a path is a Prism Launcher data directory: it must be a directory
/// that holds a `prismlauncher.cfg` file.
pub fn is_valid_prism_data_directory(is_directory: bool, has_config_file: bool) -> (valid: bool)
    ensures
        valid == (is_directory && has_config_file),
{
    if !is_directory {
        return false;
    }
    has_config_file
}

/// Accepts `path` as the data directory when it is a valid one, and rejects it
/// otherwise.
pub fn check_prism_data_directory(path: std::path::PathBuf, is_directory: bool, has_config_file: bool) -> (result:
    Result<std::path::PathBuf, PrismDataDirectoryError>)
    ensures
        result is Ok <==> (is_directory && has_config_file),
        result matches Ok(p) ==> p == path,
        result matches Err(e) ==> e.0 == path,
{
    if !is_valid_prism_data_directory(is_directory, has_config_file) {
        return Err(PrismDataDirectoryError(path));
    }
    Ok(path)
}

} // verus!
