//! Application settings as plain data; reading and writing them to disk is
//! the surrounding layer's concern.

use vstd::prelude::*;

verus! {

/// The persisted settings: the archive last opened and the recent files.
#[derive(Debug, Clone)]
pub struct AppSettings {
    pub ggpk_path: Option<String>,
    pub recent_files: Vec<String>,
}

impl Default for AppSettings {
    /// No archive path and no recent files.
    fn default() -> (r: Self)
        ensures
            r.ggpk_path is None,
            r.recent_files@ == Seq::<String>::empty(),
    {
        AppSettings { ggpk_path: None, recent_files: Vec::new() }
    }
}

} // verus!
