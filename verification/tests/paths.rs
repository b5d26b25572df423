use unnie_mod_manager::path::contained_components;
use unnie_mod_manager::path::contains_nul;
use unnie_mod_manager::path::copy_bytes;
use unnie_mod_manager::path::resolve_components;
use unnie_mod_manager::path::split_components;
use unnie_mod_manager::plan::entry_destination;
use unnie_mod_manager::plan::loader_destination;
use unnie_mod_manager::plan::mod_destination;
use unnie_mod_manager::plan::mods_folder_name;
use unnie_mod_manager::plan::names_loader_root;
use unnie_mod_manager::plan::Rule;

fn parts(items: &[&str]) -> Vec<Vec<u8>> {
    items.iter().map(|s| s.as_bytes().to_vec()).collect()
}

fn name(s: &str) -> Vec<u8> {
    s.as_bytes().to_vec()
}

#[test]
fn split_keeps_empty_components() {
    assert_eq!(split_components(&name("a//b")), parts(&["a", "", "b"]));
    assert_eq!(split_components(&name("")), parts(&[""]));
    assert_eq!(split_components(&name("dir/")), parts(&["dir", ""]));
    assert_eq!(split_components(&name("/x")), parts(&["", "x"]));
    assert_eq!(split_components(&name("plain")), parts(&["plain"]));
}

#[test]
fn copy_bytes_copies() {
    assert_eq!(copy_bytes(&vec![1u8, 2, 3]), vec![1u8, 2, 3]);
    assert_eq!(copy_bytes(&Vec::new()), Vec::<u8>::new());
}

#[test]
fn nul_is_found() {
    assert!(contains_nul(&vec![97u8, 0, 98]));
    assert!(!contains_nul(&name("abc")));
    assert!(!contains_nul(&Vec::new()));
}

#[test]
fn resolve_drops_dots_and_pops_parents() {
    assert_eq!(resolve_components(&parts(&["a", ".", "b"])), Some(parts(&["a", "b"])));
    assert_eq!(resolve_components(&parts(&["a", "..", "b"])), Some(parts(&["b"])));
    assert_eq!(resolve_components(&parts(&["a", "", "b", ""])), Some(parts(&["a", "b"])));
    assert_eq!(resolve_components(&parts(&["a", "..", "..", "b"])), None);
    assert_eq!(resolve_components(&parts(&[".."])), None);
    assert_eq!(resolve_components(&parts(&[])), Some(parts(&[])));
    assert_eq!(resolve_components(&parts(&["..."])), Some(parts(&["..."])));
}

#[test]
fn contained_accepts_ordinary_names() {
    assert_eq!(contained_components(&name("a/b/c.txt")), Some(parts(&["a", "b", "c.txt"])));
    assert_eq!(contained_components(&name("dir/")), Some(parts(&["dir"])));
    assert_eq!(contained_components(&name("./a")), Some(parts(&["a"])));
    assert_eq!(contained_components(&name("foo/../bar")), Some(parts(&["bar"])));
    assert_eq!(contained_components(&name("")), Some(parts(&[])));
}

#[test]
fn contained_refuses_escapes() {
    assert_eq!(contained_components(&name("../../escape.txt")), None);
    assert_eq!(contained_components(&name("foo/../../bar")), None);
    assert_eq!(contained_components(&name("/etc/shadow")), None);
    assert_eq!(contained_components(&vec![97u8, 0, 98]), None);
    assert_eq!(contained_components(&name("..")), None);
}

#[test]
fn loader_root_in_any_case() {
    assert!(names_loader_root(&name("UE4SS")));
    assert!(names_loader_root(&name("ue4ss")));
    assert!(names_loader_root(&name("Ue4Ss")));
    assert!(!names_loader_root(&name("UE4SSX")));
    assert!(!names_loader_root(&name("UE4S")));
    assert!(!names_loader_root(&name("UE5SS")));
    assert!(!names_loader_root(&name("")));
    // '5' + 32 is no digit: only letters fold
    assert!(!names_loader_root(&vec![85u8, 69, 20, 83, 83]));
}

#[test]
fn mods_folder_is_named_mods() {
    assert_eq!(mods_folder_name(), name("Mods"));
}

#[test]
fn loader_destination_strips_root() {
    assert_eq!(loader_destination(&name("UE4SS/UE4SS.dll")), Some(parts(&["UE4SS.dll"])));
    assert_eq!(
        loader_destination(&name("ue4ss/Mods/mods.txt")),
        Some(parts(&["Mods", "mods.txt"]))
    );
    assert_eq!(loader_destination(&name("UE4SS/Mods/")), Some(parts(&["Mods"])));
}

#[test]
fn loader_destination_skips_the_rest() {
    assert_eq!(loader_destination(&name("UE4SS/")), None);
    assert_eq!(loader_destination(&name("UE4SS")), None);
    assert_eq!(loader_destination(&name("README.md")), None);
    assert_eq!(loader_destination(&name("docs/UE4SS/x")), None);
    assert_eq!(loader_destination(&name("UE4SS/../x")), None);
    assert_eq!(loader_destination(&name("../UE4SS/x")), None);
    assert_eq!(loader_destination(&name("/UE4SS/x")), None);
    assert_eq!(loader_destination(&name("")), None);
}

#[test]
fn mod_destination_goes_under_mods() {
    assert_eq!(
        mod_destination(&name("MyMod/Scripts/main.lua")),
        Some(parts(&["Mods", "MyMod", "Scripts", "main.lua"]))
    );
    assert_eq!(mod_destination(&name("MyMod/")), Some(parts(&["Mods", "MyMod"])));
    assert_eq!(mod_destination(&name("loose.pak")), Some(parts(&["Mods", "loose.pak"])));
    assert_eq!(mod_destination(&name("")), Some(parts(&["Mods"])));
}

#[test]
fn mod_destination_refuses_escapes() {
    assert_eq!(mod_destination(&name("../../escape.txt")), None);
    assert_eq!(mod_destination(&name("/abs/file")), None);
    assert_eq!(mod_destination(&name("a/../../b")), None);
}

#[test]
fn entry_destination_follows_rule() {
    let n = name("UE4SS/a.txt");
    assert_eq!(entry_destination(Rule::Loader, &n), Some(parts(&["a.txt"])));
    assert_eq!(entry_destination(Rule::Mods, &n), Some(parts(&["Mods", "UE4SS", "a.txt"])));
}

#[test]
fn loader_destination_tests_the_name_as_written() {
    assert_eq!(loader_destination(&name("a/../UE4SS/x")), None);
    assert_eq!(loader_destination(&name("./UE4SS/x")), None);
    assert_eq!(loader_destination(&name("UE4SS/x/../../UE4SS/y")), None);
    assert_eq!(loader_destination(&name("UE4SS/..")), None);
    assert_eq!(loader_destination(&name("UE4SS/.")), None);
    assert_eq!(loader_destination(&name("UE4SS//")), None);
    assert_eq!(loader_destination(&name("UE4SS/a/../b")), Some(parts(&["b"])));
    assert_eq!(loader_destination(&name("UE4SS/./a")), Some(parts(&["a"])));
    assert_eq!(loader_destination(&name("UE4SS//a")), Some(parts(&["a"])));
    assert_eq!(loader_destination(&vec![85u8, 69, 52, 83, 83, 47, 0, 97]), None);
}
