use std::collections::BTreeMap;
use unnie_mod_manager::model::ArchiveEntry;
use unnie_mod_manager::model::Step;
use unnie_mod_manager::plan::plan;
use unnie_mod_manager::plan::plan_loader;
use unnie_mod_manager::plan::plan_mod;
use unnie_mod_manager::plan::Rule;

fn path(items: &[&str]) -> Vec<Vec<u8>> {
    items.iter().map(|s| s.as_bytes().to_vec()).collect()
}

fn file(name: &str, data: &[u8]) -> ArchiveEntry {
    ArchiveEntry { name: name.as_bytes().to_vec(), is_dir: false, data: data.to_vec() }
}

fn dir(name: &str) -> ArchiveEntry {
    ArchiveEntry { name: name.as_bytes().to_vec(), is_dir: true, data: Vec::new() }
}

fn perform(tree: &mut BTreeMap<Vec<Vec<u8>>, Option<Vec<u8>>>, steps: &[Step]) {
    for step in steps {
        let (dest, content) = match step {
            Step::CreateDir { path } => (path.clone(), None),
            Step::WriteFile { path, data } => (path.clone(), Some(data.clone())),
        };
        for k in 1..dest.len() {
            tree.insert(dest[..k].to_vec(), None);
        }
        if !dest.is_empty() {
            tree.insert(dest, content);
        }
    }
}

#[test]
fn loader_plan_reproduces_structure_without_root() {
    let entries = vec![
        dir("UE4SS/"),
        file("UE4SS/UE4SS.dll", b"dll"),
        dir("ue4ss/Mods/"),
        file("Ue4ss/Mods/mods.txt", b"list"),
    ];
    let steps = plan_loader(&entries);
    assert_eq!(
        steps,
        vec![
            Step::WriteFile { path: path(&["UE4SS.dll"]), data: b"dll".to_vec() },
            Step::CreateDir { path: path(&["Mods"]) },
            Step::WriteFile { path: path(&["Mods", "mods.txt"]), data: b"list".to_vec() },
        ]
    );
}

#[test]
fn loader_plan_leaves_out_foreign_entries() {
    let entries = vec![
        file("README.md", b"read"),
        file("UE4SS/a.txt", b"a"),
        dir("docs/"),
        file("docs/UE4SS/b.txt", b"b"),
        file("LICENSE", b"l"),
    ];
    let steps = plan_loader(&entries);
    assert_eq!(steps, vec![Step::WriteFile { path: path(&["a.txt"]), data: b"a".to_vec() }]);
    let without = vec![file("UE4SS/a.txt", b"a")];
    assert_eq!(plan_loader(&without), steps);
}

#[test]
fn mod_plan_keeps_paths_under_mods() {
    let entries = vec![
        dir("MyMod/"),
        file("MyMod/enabled.txt", b""),
        file("MyMod/Scripts/main.lua", b"print(1)"),
    ];
    assert_eq!(
        plan_mod(&entries),
        vec![
            Step::CreateDir { path: path(&["Mods", "MyMod"]) },
            Step::WriteFile { path: path(&["Mods", "MyMod", "enabled.txt"]), data: Vec::new() },
            Step::WriteFile {
                path: path(&["Mods", "MyMod", "Scripts", "main.lua"]),
                data: b"print(1)".to_vec(),
            },
        ]
    );
}

#[test]
fn mod_plan_leaves_out_escaping_entries() {
    let entries = vec![
        file("../../escape.txt", b"x"),
        file("ok/a.txt", b"a"),
        file("/etc/passwd", b"p"),
        file("ok/../../b.txt", b"b"),
    ];
    let steps = plan_mod(&entries);
    assert_eq!(
        steps,
        vec![Step::WriteFile { path: path(&["Mods", "ok", "a.txt"]), data: b"a".to_vec() }]
    );
    for step in &steps {
        let dest = match step {
            Step::CreateDir { path } => path,
            Step::WriteFile { path, .. } => path,
        };
        assert_eq!(dest[0], b"Mods".to_vec());
        for c in dest {
            assert!(!c.is_empty());
            assert_ne!(c, &b"..".to_vec());
            assert_ne!(c, &b".".to_vec());
            assert!(!c.contains(&b'/'));
        }
    }
}

#[test]
fn plan_of_nothing_is_empty() {
    assert_eq!(plan(Rule::Loader, &Vec::new()), Vec::<Step>::new());
    assert_eq!(plan(Rule::Mods, &Vec::new()), Vec::<Step>::new());
}

#[test]
fn plan_follows_rule() {
    let entries = vec![file("UE4SS/a.txt", b"a")];
    assert_eq!(plan(Rule::Loader, &entries), plan_loader(&entries));
    assert_eq!(plan(Rule::Mods, &entries), plan_mod(&entries));
    assert_ne!(plan_loader(&entries), plan_mod(&entries));
}

#[test]
fn performing_a_plan_twice_changes_nothing() {
    let entries = vec![
        dir("MyMod/"),
        file("MyMod/a.txt", b"first"),
        file("MyMod/a.txt", b"second"),
        file("MyMod/sub/b.txt", b"b"),
    ];
    let steps = plan_mod(&entries);
    let mut once = BTreeMap::new();
    once.insert(path(&["Mods", "Old", "keep.txt"]), Some(b"old".to_vec()));
    once.insert(path(&["Mods", "MyMod", "a.txt"]), Some(b"stale".to_vec()));
    perform(&mut once, &steps);
    let mut twice = once.clone();
    perform(&mut twice, &steps);
    assert_eq!(once, twice);
    assert_eq!(once.get(&path(&["Mods", "MyMod", "a.txt"])), Some(&Some(b"second".to_vec())));
    assert_eq!(once.get(&path(&["Mods", "Old", "keep.txt"])), Some(&Some(b"old".to_vec())));
    assert_eq!(once.get(&path(&["Mods", "MyMod", "sub"])), Some(&None));
}

#[test]
fn loader_plan_skips_entries_that_only_resolve_below_root() {
    let entries = vec![
        file("a/../UE4SS/x", b"one"),
        file("./UE4SS/x", b"two"),
        dir("UE4SS/"),
        file("UE4SS/y", b"three"),
    ];
    assert_eq!(
        plan_loader(&entries),
        vec![Step::WriteFile { path: path(&["y"]), data: b"three".to_vec() }]
    );
}
