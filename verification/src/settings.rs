//! What the front end remembers between runs, and the one question it asks
//! of the platform.

use vstd::prelude::*;

verus! {

/// The state that the front end keeps across runs.
#[derive(Clone, Debug, PartialEq, Eq)]
pub struct AppCache {
    pub last_selected_game: Option<usize>,
    pub last_win64_dir: String,
    pub last_installed_mods: Vec<String>,
    pub last_scanned_files: Vec<String>,
    pub last_debug_output: String,
}

impl AppCache {
    /// Nothing has been remembered yet.
    pub open spec fn is_blank(&self) -> bool {
        &&& self.last_selected_game is None
        &&& self.last_win64_dir@.len() == 0
        &&& self.last_installed_mods@.len() == 0
        &&& self.last_scanned_files@.len() == 0
        &&& self.last_debug_output@.len() == 0
    }
}

impl Default for AppCache {
    /// The cache of a first run: no game selected, every text and list empty.
    fn default() -> (cache: AppCache)
        ensures
            cache.is_blank(),
    {
        AppCache {
            last_selected_game: None,
            last_win64_dir: String::new(),
            last_installed_mods: Vec::new(),
            last_scanned_files: Vec::new(),
            last_debug_output: String::new(),
        }
    }
}

/// Whether the process may write below protected directories.
/// `admin_status` is the platform's answer to "is the user an
/// administrator", where zero means no, or `None` on a platform that has
/// no such question: there every process counts as elevated.
pub fn is_elevated(admin_status: Option<i32>) -> (elevated: bool)
    ensures
        elevated == (match admin_status {
            Some(status) => status != 0,
            None => true,
        }),
{
    match admin_status {
        Some(status) => status != 0,
        None => true,
    }
}

} // verus!
