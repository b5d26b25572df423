use std::io::Cursor;
use std::io::Write;
use unnie_mod_manager::install::install_mod_from_zip;
use unnie_mod_manager::install::install_ue4ss;
use unnie_mod_manager::install::Fetched;
use unnie_mod_manager::model::InstallError;
use unnie_mod_manager::model::Step;
use unnie_mod_manager::plan::host_bytes;
use unnie_mod_manager::plan::place;
use unnie_mod_manager::plan::Host;
use unnie_mod_manager::plan::Placement;
use unnie_mod_manager::plan::Rule;
use zip::write::FileOptions;
use zip::ZipWriter;

fn path(items: &[&str]) -> Vec<Vec<u8>> {
    items.iter().map(|s| s.as_bytes().to_vec()).collect()
}

enum Item<'a> {
    Dir(&'a str),
    File(&'a str, &'a [u8]),
}

fn archive(items: &[Item]) -> Vec<u8> {
    let mut writer = ZipWriter::new(Cursor::new(Vec::new()));
    for item in items {
        match item {
            Item::Dir(name) => writer.add_directory(*name, FileOptions::default()).unwrap(),
            Item::File(name, data) => {
                writer.start_file(*name, FileOptions::default()).unwrap();
                writer.write_all(data).unwrap();
            }
        }
    }
    writer.finish().unwrap().into_inner()
}

fn mods_step() -> Step {
    Step::CreateDir { path: path(&["Mods"]) }
}

#[test]
fn loader_fetch_failure_is_reported() {
    let report = install_ue4ss(Host::Posix, Fetched::Unreachable);
    assert_eq!(report.steps, Vec::<Step>::new());
    assert_eq!(report.failure, Some(InstallError::Fetch));
}

#[test]
fn loader_bad_status_is_reported() {
    let body = archive(&[Item::File("UE4SS/a.txt", b"a")]);
    for code in [404u16, 500, 199, 300, 0] {
        let report = install_ue4ss(Host::Posix, Fetched::Response { status: code, body: body.clone() });
        assert_eq!(report.steps, Vec::<Step>::new());
        assert_eq!(report.failure, Some(InstallError::HttpStatus { code }));
    }
}

#[test]
fn loader_success_statuses_extract() {
    let body = archive(&[Item::File("UE4SS/a.txt", b"a")]);
    for code in [200u16, 204, 299] {
        let report = install_ue4ss(Host::Posix, Fetched::Response { status: code, body: body.clone() });
        assert_eq!(report.failure, None);
        assert_eq!(
            report.steps,
            vec![Step::WriteFile { path: path(&["a.txt"]), data: b"a".to_vec() }]
        );
    }
}

#[test]
fn loader_rejects_bytes_that_are_no_archive() {
    let report =
        install_ue4ss(Host::Posix, Fetched::Response { status: 200, body: b"this is no archive".to_vec() });
    assert_eq!(report.steps, Vec::<Step>::new());
    assert_eq!(report.failure, Some(InstallError::ArchiveFormat));
    let empty = install_ue4ss(Host::Posix, Fetched::Response { status: 200, body: Vec::new() });
    assert_eq!(empty.failure, Some(InstallError::ArchiveFormat));
}

#[test]
fn loader_installs_payload_without_root() {
    let text = b"a line of text that compresses, a line of text that compresses";
    let body = archive(&[
        Item::File("README.md", b"about"),
        Item::Dir("UE4SS/"),
        Item::File("UE4SS/UE4SS.dll", text),
        Item::Dir("UE4SS/Mods/"),
        Item::File("ue4ss/Mods/mods.txt", b"BPModLoaderMod : 1"),
        Item::File("LICENSE", b"mit"),
    ]);
    let report = install_ue4ss(Host::Posix, Fetched::Response { status: 200, body });
    assert_eq!(report.failure, None);
    assert_eq!(
        report.steps,
        vec![
            Step::WriteFile { path: path(&["UE4SS.dll"]), data: text.to_vec() },
            Step::CreateDir { path: path(&["Mods"]) },
            Step::WriteFile {
                path: path(&["Mods", "mods.txt"]),
                data: b"BPModLoaderMod : 1".to_vec(),
            },
        ]
    );
}

#[test]
fn loader_empty_archive_gives_no_steps() {
    let report = install_ue4ss(Host::Posix, Fetched::Response { status: 200, body: archive(&[]) });
    assert_eq!(report.failure, None);
    assert_eq!(report.steps, Vec::<Step>::new());
}

#[test]
fn mod_unreadable_archive_file_is_reported() {
    let report = install_mod_from_zip(Host::Posix, None);
    assert_eq!(report.steps, vec![mods_step()]);
    assert_eq!(report.failure, Some(InstallError::Io { path: Vec::new() }));
}

#[test]
fn mod_rejects_bytes_that_are_no_archive() {
    let report = install_mod_from_zip(Host::Posix, Some(b"PK but not really".to_vec()));
    assert_eq!(report.steps, vec![mods_step()]);
    assert_eq!(report.failure, Some(InstallError::ArchiveFormat));
}

#[test]
fn mod_installs_every_entry_under_mods() {
    let script = b"print('hello') print('hello') print('hello')";
    let bytes = archive(&[
        Item::Dir("MyMod/"),
        Item::File("MyMod/enabled.txt", b""),
        Item::File("MyMod/Scripts/main.lua", script),
        Item::File("UE4SS/kept.txt", b"k"),
    ]);
    let report = install_mod_from_zip(Host::Posix, Some(bytes));
    assert_eq!(report.failure, None);
    assert_eq!(
        report.steps,
        vec![
            mods_step(),
            Step::CreateDir { path: path(&["Mods", "MyMod"]) },
            Step::WriteFile { path: path(&["Mods", "MyMod", "enabled.txt"]), data: Vec::new() },
            Step::WriteFile {
                path: path(&["Mods", "MyMod", "Scripts", "main.lua"]),
                data: script.to_vec(),
            },
            Step::WriteFile { path: path(&["Mods", "UE4SS", "kept.txt"]), data: b"k".to_vec() },
        ]
    );
}

#[test]
fn mod_escape_entry_is_not_installed() {
    let bytes = archive(&[
        Item::File("../../escape.txt", b"gotcha"),
        Item::File("Safe/ok.txt", b"ok"),
        Item::File("/abs.txt", b"abs"),
    ]);
    let report = install_mod_from_zip(Host::Posix, Some(bytes));
    assert_eq!(report.failure, None);
    assert_eq!(
        report.steps,
        vec![
            mods_step(),
            Step::WriteFile { path: path(&["Mods", "Safe", "ok.txt"]), data: b"ok".to_vec() },
        ]
    );
}

#[test]
fn mod_install_is_repeatable() {
    let bytes = archive(&[Item::Dir("M/"), Item::File("M/a.txt", b"a")]);
    let first = install_mod_from_zip(Host::Posix, Some(bytes.clone()));
    let second = install_mod_from_zip(Host::Posix, Some(bytes));
    assert_eq!(first, second);
}

#[test]
fn entry_without_vetted_name_is_skipped() {
    assert_eq!(place(Rule::Mods, Host::Posix, None, false), Placement::Skip);
    assert_eq!(place(Rule::Loader, Host::Posix, None, true), Placement::Skip);
}

#[test]
fn placement_follows_rule_and_kind() {
    let name = b"UE4SS/x/y.txt".to_vec();
    assert_eq!(
        place(Rule::Loader, Host::Posix, Some(&name), false),
        Placement::File { path: path(&["x", "y.txt"]) }
    );
    assert_eq!(
        place(Rule::Mods, Host::Posix, Some(&name), false),
        Placement::File { path: path(&["Mods", "UE4SS", "x", "y.txt"]) }
    );
    let folder = b"UE4SS/x/".to_vec();
    assert_eq!(place(Rule::Loader, Host::Posix, Some(&folder), true), Placement::Dir { path: path(&["x"]) });
    let escaping = b"../x".to_vec();
    assert_eq!(place(Rule::Mods, Host::Posix, Some(&escaping), true), Placement::Skip);
    let foreign = b"a/../UE4SS/x".to_vec();
    assert_eq!(place(Rule::Loader, Host::Posix, Some(&foreign), false), Placement::Skip);
}

#[test]
fn loader_tests_the_first_component_as_written() {
    let body = archive(&[
        Item::File("a/../UE4SS/x", b"one"),
        Item::File("./UE4SS/x", b"two"),
        Item::File("UE4SS/x/../../UE4SS/y", b"three"),
        Item::File("UE4SS/../z", b"four"),
        Item::File("UE4SS/kept/../here.txt", b"five"),
    ]);
    let report = install_ue4ss(Host::Posix, Fetched::Response { status: 200, body });
    assert_eq!(report.failure, None);
    assert_eq!(
        report.steps,
        vec![Step::WriteFile { path: path(&["here.txt"]), data: b"five".to_vec() }]
    );
}

fn le16(out: &mut Vec<u8>, v: u16) {
    out.push((v & 0xff) as u8);
    out.push((v >> 8) as u8);
}

fn le32(out: &mut Vec<u8>, v: u32) {
    le16(out, (v & 0xffff) as u16);
    le16(out, (v >> 16) as u16);
}

fn crc32(data: &[u8]) -> u32 {
    let mut crc: u32 = 0xffff_ffff;
    for b in data {
        crc ^= *b as u32;
        for _ in 0..8 {
            crc = if crc & 1 == 1 { (crc >> 1) ^ 0xedb8_8320 } else { crc >> 1 };
        }
    }
    !crc
}

/// A stored archive written byte by byte; `extra` goes into the central
/// directory record of the entry.
fn raw_archive(items: &[(&str, &[u8], &[u8])]) -> Vec<u8> {
    let mut out = Vec::new();
    let mut central = Vec::new();
    for (name, data, extra) in items {
        let offset = out.len() as u32;
        le32(&mut out, 0x0403_4b50);
        le16(&mut out, 20);
        for v in [0u16, 0, 0, 0] {
            le16(&mut out, v);
        }
        le32(&mut out, crc32(data));
        le32(&mut out, data.len() as u32);
        le32(&mut out, data.len() as u32);
        le16(&mut out, name.len() as u16);
        le16(&mut out, 0);
        out.extend_from_slice(name.as_bytes());
        out.extend_from_slice(data);
        le32(&mut central, 0x0201_4b50);
        le16(&mut central, 20);
        le16(&mut central, 20);
        for v in [0u16, 0, 0, 0] {
            le16(&mut central, v);
        }
        le32(&mut central, crc32(data));
        le32(&mut central, data.len() as u32);
        le32(&mut central, data.len() as u32);
        le16(&mut central, name.len() as u16);
        le16(&mut central, extra.len() as u16);
        for v in [0u16, 0, 0] {
            le16(&mut central, v);
        }
        le32(&mut central, 0);
        le32(&mut central, offset);
        central.extend_from_slice(name.as_bytes());
        central.extend_from_slice(extra);
    }
    let start = out.len() as u32;
    out.extend_from_slice(&central);
    le32(&mut out, 0x0605_4b50);
    le16(&mut out, 0);
    le16(&mut out, 0);
    le16(&mut out, items.len() as u16);
    le16(&mut out, items.len() as u16);
    le32(&mut out, central.len() as u32);
    le32(&mut out, start);
    le16(&mut out, 0);
    out
}

#[test]
fn hand_written_archive_is_read() {
    let bytes = raw_archive(&[("M/a.txt", b"first file", b""), ("M/b.txt", b"second", b"")]);
    let report = install_mod_from_zip(Host::Posix, Some(bytes));
    assert_eq!(report.failure, None);
    assert_eq!(
        report.steps,
        vec![
            mods_step(),
            Step::WriteFile { path: path(&["Mods", "M", "a.txt"]), data: b"first file".to_vec() },
            Step::WriteFile { path: path(&["Mods", "M", "b.txt"]), data: b"second".to_vec() },
        ]
    );
}

#[test]
fn entry_with_aes_record_stops_the_installation() {
    let aes: [u8; 11] = [0x01, 0x99, 7, 0, 2, 0, 0x41, 0x45, 1, 0, 0];
    let bytes = raw_archive(&[("M/a.txt", b"first file", b""), ("M/b.txt", b"second", &aes)]);
    let report = install_mod_from_zip(Host::Posix, Some(bytes.clone()));
    assert_eq!(
        report.steps,
        vec![
            mods_step(),
            Step::WriteFile { path: path(&["Mods", "M", "a.txt"]), data: b"first file".to_vec() },
        ]
    );
    assert_eq!(report.failure, Some(InstallError::ArchiveFormat));
    let loader = install_ue4ss(Host::Posix, Fetched::Response { status: 200, body: bytes });
    assert_eq!(loader.steps, Vec::<Step>::new());
    assert_eq!(loader.failure, Some(InstallError::ArchiveFormat));
}

fn stored_archive(items: &[(&str, &[u8])]) -> Vec<u8> {
    let mut writer = ZipWriter::new(Cursor::new(Vec::new()));
    let options = FileOptions::default().compression_method(zip::CompressionMethod::Stored);
    for (name, data) in items {
        writer.start_file(*name, options).unwrap();
        writer.write_all(data).unwrap();
    }
    writer.finish().unwrap().into_inner()
}

fn position(haystack: &[u8], needle: &[u8], nth: usize) -> usize {
    let mut seen = 0;
    for at in 0..=(haystack.len() - needle.len()) {
        if &haystack[at..at + needle.len()] == needle {
            if seen == nth {
                return at;
            }
            seen += 1;
        }
    }
    panic!("needle not found");
}

#[test]
fn unreadable_file_stops_the_installation() {
    let mut bytes = stored_archive(&[
        ("M/a.txt", b"first file"),
        ("M/b.txt", b"second file"),
        ("M/c.txt", b"third file"),
    ]);
    let at = position(&bytes, b"second file", 0);
    bytes[at] = b'S';
    let report = install_mod_from_zip(Host::Posix, Some(bytes));
    assert_eq!(
        report.steps,
        vec![
            mods_step(),
            Step::WriteFile { path: path(&["Mods", "M", "a.txt"]), data: b"first file".to_vec() },
        ]
    );
    assert_eq!(report.failure, Some(InstallError::Io { path: path(&["Mods", "M", "b.txt"]) }));
}

#[test]
fn unreadable_file_outside_the_payload_is_never_read() {
    let mut bytes = stored_archive(&[("README.md", b"about this"), ("UE4SS/a.txt", b"payload")]);
    let at = position(&bytes, b"about this", 0);
    bytes[at] = b'A';
    let report = install_ue4ss(Host::Posix, Fetched::Response { status: 200, body: bytes });
    assert_eq!(report.failure, None);
    assert_eq!(
        report.steps,
        vec![Step::WriteFile { path: path(&["a.txt"]), data: b"payload".to_vec() }]
    );
}

#[test]
fn unlocatable_entry_stops_the_installation() {
    let mut bytes = stored_archive(&[("M/a.txt", b"first file"), ("M/b.txt", b"second file")]);
    let at = position(&bytes, b"PK\x03\x04", 1);
    bytes[at + 2] = 0x07;
    let report = install_mod_from_zip(Host::Posix, Some(bytes));
    assert_eq!(
        report.steps,
        vec![
            mods_step(),
            Step::WriteFile { path: path(&["Mods", "M", "a.txt"]), data: b"first file".to_vec() },
        ]
    );
    assert_eq!(report.failure, Some(InstallError::ArchiveFormat));
}

#[test]
fn host_decides_how_backslashes_are_read() {
    let name = b"UE4SS\\sub\\x.dll".to_vec();
    assert_eq!(host_bytes(Host::Posix, &name), name);
    assert_eq!(host_bytes(Host::Windows, &name), b"UE4SS/sub/x.dll".to_vec());
    assert_eq!(place(Rule::Loader, Host::Posix, Some(&name), false), Placement::Skip);
    assert_eq!(
        place(Rule::Loader, Host::Windows, Some(&name), false),
        Placement::File { path: path(&["sub", "x.dll"]) }
    );
    assert_eq!(
        place(Rule::Mods, Host::Posix, Some(&name), false),
        Placement::File { path: vec![b"Mods".to_vec(), name.clone()] }
    );
    let escaping = b"..\\..\\x".to_vec();
    assert_eq!(place(Rule::Mods, Host::Windows, Some(&escaping), false), Placement::Skip);
}

#[test]
fn windows_host_installs_backslash_names() {
    let bytes = archive(&[
        Item::File("M\\a.txt", b"a"),
        Item::File("M/b.txt", b"b"),
    ]);
    let report = install_mod_from_zip(Host::Windows, Some(bytes.clone()));
    assert_eq!(report.failure, None);
    assert_eq!(
        report.steps,
        vec![
            mods_step(),
            Step::WriteFile { path: path(&["Mods", "M", "a.txt"]), data: b"a".to_vec() },
            Step::WriteFile { path: path(&["Mods", "M", "b.txt"]), data: b"b".to_vec() },
        ]
    );
    let posix = install_mod_from_zip(Host::Posix, Some(bytes));
    assert_eq!(
        posix.steps,
        vec![
            mods_step(),
            Step::WriteFile { path: path(&["Mods", "M\\a.txt"]), data: b"a".to_vec() },
            Step::WriteFile { path: path(&["Mods", "M", "b.txt"]), data: b"b".to_vec() },
        ]
    );
}
