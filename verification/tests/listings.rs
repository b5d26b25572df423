use unnie_mod_manager::listing::join_components;
use unnie_mod_manager::listing::list_all_files_and_dirs;
use unnie_mod_manager::listing::list_installed_mods;
use unnie_mod_manager::listing::DirChild;
use unnie_mod_manager::listing::TreeEntry;
use unnie_mod_manager::settings::is_elevated;
use unnie_mod_manager::settings::AppCache;

fn child(name: &str, is_dir: bool) -> DirChild {
    DirChild { name: Some(name.to_string()), is_dir }
}

fn walked(relative: &[&str], is_dir: bool) -> TreeEntry {
    TreeEntry { relative: relative.iter().map(|s| s.to_string()).collect(), is_dir }
}

#[test]
fn no_mods_folder_means_no_mods() {
    assert_eq!(list_installed_mods(None), Vec::<String>::new());
}

#[test]
fn empty_mods_folder_means_no_mods() {
    assert_eq!(list_installed_mods(Some(&Vec::new())), Vec::<String>::new());
}

#[test]
fn only_folders_are_mods() {
    let children = vec![
        child("ModA", true),
        child("mods.txt", false),
        child("ModB", true),
        child("loose.pak", false),
        DirChild { name: None, is_dir: true },
    ];
    assert_eq!(
        list_installed_mods(Some(&children)),
        vec!["ModA".to_string(), "ModB".to_string()]
    );
}

#[test]
fn missing_root_scans_to_nothing() {
    assert_eq!(list_all_files_and_dirs(None), Vec::<String>::new());
}

#[test]
fn scan_lists_nested_directories_only() {
    let walk = vec![
        walked(&[], true),
        walked(&["a"], true),
        walked(&["a", "b"], true),
        walked(&["a", "b", "file.txt"], false),
        walked(&["c"], true),
        walked(&["top.txt"], false),
    ];
    let mut dirs = list_all_files_and_dirs(Some(&walk));
    dirs.sort();
    assert_eq!(dirs, vec!["a".to_string(), "a/b".to_string(), "c".to_string()]);
}

#[test]
fn scan_of_bare_root_is_empty() {
    let walk = vec![walked(&[], true)];
    assert_eq!(list_all_files_and_dirs(Some(&walk)), Vec::<String>::new());
}

#[test]
fn components_are_joined_by_slash() {
    assert_eq!(join_components(&Vec::new()), String::new());
    assert_eq!(join_components(&vec!["a".to_string()]), "a".to_string());
    assert_eq!(
        join_components(&vec!["a".to_string(), "b".to_string(), "c".to_string()]),
        "a/b/c".to_string()
    );
}

#[test]
fn elevation_follows_admin_status() {
    assert!(is_elevated(None));
    assert!(is_elevated(Some(1)));
    assert!(is_elevated(Some(-1)));
    assert!(!is_elevated(Some(0)));
}

#[test]
fn default_cache_is_blank() {
    let cache = AppCache::default();
    assert_eq!(cache.last_selected_game, None);
    assert_eq!(cache.last_win64_dir, String::new());
    assert_eq!(cache.last_installed_mods, Vec::<String>::new());
    assert_eq!(cache.last_scanned_files, Vec::<String>::new());
    assert_eq!(cache.last_debug_output, String::new());
}
