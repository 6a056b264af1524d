use std::io::Write;

use gec_uplink::delivery::{
    admit_entry, choose_toc, find_folder, folder_guess, installed_version, require_folder,
    uninstall, DirEntry, Unzip, UnzipAction,
};
use gec_uplink::paths::PathStyle;

fn archive(entries: &[(&str, &[u8])]) -> Vec<u8> {
    let mut w = zip::ZipWriter::new(std::io::Cursor::new(Vec::new()));
    let o = zip::write::SimpleFileOptions::default();
    for (name, data) in entries {
        if name.ends_with('/') {
            w.add_directory(name.to_string(), o).unwrap();
        } else {
            w.start_file(name.to_string(), o).unwrap();
            w.write_all(data).unwrap();
        }
    }
    w.finish().unwrap().into_inner()
}

#[test]
fn an_archive_is_unpacked_step_by_step() {
    let bytes = archive(&[
        ("SBF/", b""),
        ("SBF/SBF.toc", b"## Version: 1.0\n"),
        ("SBF/media/a.txt", b"abc"),
        ("Extra/x.lua", b""),
    ]);
    let mut u = Unzip::new(bytes).unwrap();
    let mut dirs = Vec::new();
    let mut files = Vec::new();
    while let Some(a) = u.next_action(PathStyle::Unix, "/wow/AddOns") {
        match a.unwrap() {
            UnzipAction::MakeDir(d) => dirs.push(d),
            UnzipAction::WriteFile(p, data) => files.push((p, data)),
        }
    }
    assert_eq!(dirs, vec!["/wow/AddOns/SBF/".to_string()]);
    assert_eq!(files.len(), 3);
    assert_eq!(files[0].0, "/wow/AddOns/SBF/SBF.toc");
    assert_eq!(files[0].1, b"## Version: 1.0\n".to_vec());
    assert_eq!(files[1].0, "/wow/AddOns/SBF/media/a.txt");
    assert_eq!(files[1].1, b"abc".to_vec());
    let out = u.finish().unwrap();
    assert_eq!(out.folders, vec!["SBF".to_string(), "Extra".to_string()]);
    assert_eq!(out.files, 3);
}

#[test]
fn an_entry_that_leaves_the_folder_is_refused() {
    let mut u = Unzip::new(archive(&[("../evil.lua", b"x")])).unwrap();
    let e = u.next_action(PathStyle::Unix, "/wow/AddOns").unwrap().err().unwrap();
    assert_eq!(e, "unsafe zip entry: ../evil.lua");
}

#[test]
fn entries_are_admitted_by_their_name() {
    let mut folders = Vec::new();
    assert_eq!(
        admit_entry(PathStyle::Unix, "SBF/a.lua", false, &mut folders),
        Ok(())
    );
    assert_eq!(
        admit_entry(PathStyle::Unix, "SBF/b.lua", false, &mut folders),
        Ok(())
    );
    assert_eq!(folders, vec!["SBF".to_string()]);
    for bad in ["/etc/x", "SBF/../../x"] {
        assert_eq!(
            admit_entry(PathStyle::Unix, bad, false, &mut folders),
            Err(format!("unsafe zip entry: {bad}"))
        );
    }
    assert_eq!(
        admit_entry(PathStyle::Windows, "C:\\x", false, &mut folders),
        Err("unsafe zip entry: C:\\x".to_string())
    );
    assert_eq!(
        admit_entry(PathStyle::Unix, "x\0y", false, &mut folders),
        Err("unsafe zip entry: x\0y".to_string())
    );
    assert_eq!(folders, vec!["SBF".to_string()]);
    // a file in no folder, and what lies in the folder at hand, note none
    for name in ["README.md", "./X/f"] {
        assert_eq!(admit_entry(PathStyle::Unix, name, false, &mut folders), Ok(()));
    }
    assert_eq!(folders, vec!["SBF".to_string()]);
    assert_eq!(admit_entry(PathStyle::Unix, "Haul/", true, &mut folders), Ok(()));
    assert_eq!(folders, vec!["SBF".to_string(), "Haul".to_string()]);
}

#[test]
fn files_that_are_no_archive_are_refused() {
    assert_eq!(
        Unzip::new(b"<html>".to_vec()).err().unwrap(),
        "downloaded file is not a zip archive"
    );
    assert_eq!(
        Unzip::new(b"PK".to_vec()).err().unwrap(),
        "downloaded file is not a zip archive"
    );
    assert!(Unzip::new(b"PK\x03\x04 nothing more".to_vec()).err().unwrap().starts_with("bad zip: "));
}

#[test]
fn an_archive_without_a_folder_is_refused() {
    let mut u = Unzip::new(archive(&[])).unwrap();
    assert!(u.next_action(PathStyle::Unix, "/d").is_none());
    assert_eq!(u.finish().err().unwrap(), "zip contained no addon folder");
    let mut u = Unzip::new(archive(&[("README.md", b"read me")])).unwrap();
    match u.next_action(PathStyle::Unix, "/d") {
        Some(Ok(UnzipAction::WriteFile(p, _))) => assert_eq!(p, "/d/README.md"),
        _ => panic!("the file is unpacked"),
    }
    assert!(u.next_action(PathStyle::Unix, "/d").is_none());
    assert_eq!(u.finish().err().unwrap(), "zip contained no addon folder");
}

#[test]
fn bytes_that_were_changed_are_an_error() {
    let mut bytes = archive(&[("SBF/a.txt", b"some text that is long enough to find again")]);
    let at = bytes.windows(4).position(|w| w == b"SBF/").unwrap() + "SBF/a.txt".len();
    bytes[at + 2] ^= 0xff;
    let mut u = Unzip::new(bytes).unwrap();
    assert!(u.next_action(PathStyle::Unix, "/d").unwrap().is_err());
    // the entry is still the next one
    assert!(u.next_action(PathStyle::Unix, "/d").unwrap().is_err());
}

#[test]
fn the_folder_must_be_there() {
    assert_eq!(require_folder("/x", true), Ok(()));
    assert_eq!(
        require_folder("/x", false),
        Err("AddOns folder not found (offline?): /x".to_string())
    );
}

fn dir(name: &str) -> DirEntry {
    DirEntry { name: name.to_string(), is_dir: true }
}

#[test]
fn folders_are_found_whatever_their_case() {
    let entries = vec![
        DirEntry { name: "SBF".to_string(), is_dir: false },
        dir("Haul"),
        dir("sbf"),
        dir("SBf"),
    ];
    assert_eq!(find_folder(&entries, "SBF"), Some(&"sbf".to_string()));
    assert_eq!(find_folder(&entries, "nope"), None);
    assert_eq!(uninstall(&entries, "SBF"), vec!["sbf".to_string(), "SBf".to_string()]);
    assert!(uninstall(&entries, "nope").is_empty());
}

#[test]
fn slugs_have_folders() {
    assert_eq!(folder_guess("sbf"), "SBF");
    assert_eq!(folder_guess("HAUL"), "Haul");
    assert_eq!(folder_guess("towncryer"), "Megaphone");
    assert_eq!(folder_guess("console"), "GEC-Console");
    assert_eq!(folder_guess("other"), "other");
}

#[test]
fn the_named_toc_is_preferred() {
    let files = vec!["readme.md".to_string(), "Other.TOC".to_string()];
    assert_eq!(choose_toc("SBF", true, &files).as_deref(), Some("SBF.toc"));
    assert_eq!(choose_toc("SBF", false, &files).as_deref(), Some("Other.TOC"));
    assert_eq!(choose_toc("SBF", false, &vec!["readme.md".to_string()]), None);
}

#[test]
fn versions_are_read_from_the_toc() {
    assert_eq!(
        installed_version("## Interface: 110005\r\n##  VERSION:  2026.07.05.5  \r\nmain.lua\n").as_deref(),
        Some("2026.07.05.5")
    );
    assert_eq!(installed_version("## Version:\n## Version: 2\n").as_deref(), Some("2"));
    assert_eq!(installed_version("Version: 1\n# Version: 2\n"), None);
    assert_eq!(installed_version(""), None);
}
