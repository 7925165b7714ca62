//! Persisted preferences: the saved group list and the colour theme. The
//! surrounding application serializes these; the library only defines the
//! values and their defaults.
use vstd::prelude::*;

verus! {

/// One remembered group: its display name and the directory it lives in.
pub struct SavedGroup {
    pub name: String,
    pub directory: String,
}

/// The application's persisted settings.
pub struct AppSettings {
    pub saved_groups: Vec<SavedGroup>,
    pub theme: String,
}

impl Default for SavedGroup {
    /// An empty name in an empty directory.
    fn default() -> (r: SavedGroup)
        ensures
            r.name@.len() == 0,
            r.directory@.len() == 0,
    {
        SavedGroup { name: String::new(), directory: String::new() }
    }
}

impl Default for AppSettings {
    /// No saved groups and an unset theme.
    fn default() -> (r: AppSettings)
        ensures
            r.saved_groups@.len() == 0,
            r.theme@.len() == 0,
    {
        AppSettings { saved_groups: Vec::new(), theme: String::new() }
    }
}

} // verus!
