//! Editor settings, and where they are loaded from and saved to.
use vstd::prelude::*;
use crate::entry::{join, join_path};
use crate::error::EditorIoError;

verus! {

/// The editor's settings.
#[derive(Debug, Clone, Copy, PartialEq, Eq, Structural)]
pub struct EditorSettings {
    /// Whether the file tree shows hidden entries.
    pub show_hidden_elements: bool,
}

impl Default for EditorSettings {
    fn default() -> (r: EditorSettings)
        ensures
            !r.show_hidden_elements,
    {
        EditorSettings { show_hidden_elements: false }
    }
}

/// The settings that concern the file tree.
#[derive(Debug, Clone, Copy, PartialEq, Eq, Structural)]
pub struct FileTreeSettings {
    pub show_hidden_elements: bool,
}

impl From<EditorSettings> for FileTreeSettings {
    fn from(value: EditorSettings) -> (r: FileTreeSettings) {
        FileTreeSettings { show_hidden_elements: value.show_hidden_elements }
    }
}

impl vstd::std_specs::convert::FromSpecImpl<EditorSettings> for FileTreeSettings {
    open spec fn obeys_from_spec() -> bool {
        true
    }

    open spec fn from_spec(v: EditorSettings) -> FileTreeSettings {
        FileTreeSettings { show_hidden_elements: v.show_hidden_elements }
    }
}

/// The name of the settings file, which sits in the project's root directory.
pub open spec fn settings_file_name() -> Seq<char> {
    seq!['s', 'e', 't', 't', 'i', 'n', 'g', 's', '.', 'j', 's', 'o', 'n']
}

/// Where the settings of the project rooted at `root` are kept.
pub open spec fn settings_path(root: Seq<char>) -> Seq<char> {
    join_path(root, settings_file_name())
}

/// The path of the settings file of the project rooted at `root`.
pub fn get_settings_path(root: &String) -> (r: String)
    ensures
        r@ == settings_path(root@),
{
    proof {
        reveal_strlit("settings.json");
    }
    let name = String::from_str("settings.json");
    assert(name@ =~= settings_file_name());
    join(root, &name)
}

/// Where loaded settings come from.
#[derive(Debug)]
pub enum SettingsSource {
    /// No settings file exists: the defaults apply.
    Defaults(EditorSettings),
    /// The settings are read from the file at this path.
    File(String),
}

/// Decides where the settings of the project rooted at `root` come from, given
/// whether its settings file exists (or why that could not be told): the file
/// where it exists, the defaults where it does not, and the error otherwise.
pub fn load_settings(root: &String, exists: Result<bool, EditorIoError>) -> (r: Result<SettingsSource, EditorIoError>)
    ensures
        exists matches Err(e) ==> r == Err::<SettingsSource, EditorIoError>(e),
        exists == Ok::<bool, EditorIoError>(false) ==> (r matches Ok(SettingsSource::Defaults(d))
            && !d.show_hidden_elements),
        exists == Ok::<bool, EditorIoError>(true) ==> (r matches Ok(SettingsSource::File(p)) && p@
            == settings_path(root@)),
{
    match exists {
        Ok(found) => {
            if !found {
                Ok(SettingsSource::Defaults(EditorSettings::default()))
            } else {
                Ok(SettingsSource::File(get_settings_path(root)))
            }
        },
        Err(err) => Err(err),
    }
}

/// What saving settings writes, and where.
#[derive(Debug)]
pub struct SettingsWrite {
    pub path: String,
    pub settings: EditorSettings,
}

/// Prepares saving `settings` for the project rooted at `root`: they go to the
/// project's settings file.
pub fn save_settings(settings: &EditorSettings, root: &String) -> (r: SettingsWrite)
    ensures
        r.path@ == settings_path(root@),
        r.settings == *settings,
{
    SettingsWrite { path: get_settings_path(root), settings: *settings }
}

} // verus!
