use gec_uplink::installs::{
    addons_candidates, candidate_roots, detect, enumerate_at, enumerate_picked, flavor_from_path,
    flavor_probes, flavor_token_from_path, flavors, machine_label, norm, os_hostname,
    resolve_addons_path, wow_root_from_picked, DetectedInstall, Platform,
};
use gec_uplink::paths::{file_name, join_path, parent, split_path, PathStyle};

const UNIX: PathStyle = PathStyle::Unix;
const WIN: PathStyle = PathStyle::Windows;

fn found(path: &str, flavor: &str, already_added: bool) -> DetectedInstall {
    DetectedInstall {
        path: path.to_string(),
        label: "PC".to_string(),
        flavor: flavor.to_string(),
        already_added,
    }
}

#[test]
fn flavors_are_named_by_their_folders() {
    assert_eq!(flavor_from_path("/wow/_retail_/Interface/AddOns"), "Retail");
    assert_eq!(flavor_from_path("/WOW/_CLASSIC_/Interface"), "Classic");
    assert_eq!(flavor_from_path("/wow/_classic_era_/Interface/AddOns"), "Classic Era");
    assert_eq!(flavor_from_path("C:\\wow\\_classic_era_ptr_\\Interface"), "Classic Era PTR");
    assert_eq!(flavor_from_path("/wow/_classic_ptr_"), "Classic PTR");
    assert_eq!(flavor_from_path("/wow/my_retail_copy"), "Unknown");
    assert_eq!(flavor_from_path("/wow/_xptr_"), "PTR");
    assert_eq!(flavor_from_path("/wow"), "Unknown");
    assert_eq!(flavors().len(), 8);
}

#[test]
fn flavor_tokens_pass_unknown_folders_on() {
    assert_eq!(flavor_token_from_path(UNIX, "/wow/_retail_/Interface/AddOns"), "retail");
    assert_eq!(flavor_token_from_path(UNIX, "/wow/_Classic_Wotlk_/x"), "classic_wotlk");
    assert_eq!(flavor_token_from_path(WIN, "C:\\wow\\_ptr_\\Interface"), "ptr");
    assert_eq!(flavor_token_from_path(UNIX, "/wow/Interface"), "");
    assert_eq!(flavor_token_from_path(UNIX, "/__/___/_a_"), "a");
    assert_eq!(
        flavor_token_from_path(UNIX, "/_abcdefghijklmnopqrstuvwxyz_/x"),
        "abcdefghijklmnopqrst"
    );
}

#[test]
fn the_label_prefers_the_host_name() {
    assert_eq!(os_hostname("steamdeck.local").as_deref(), Some("steamdeck"));
    assert_eq!(os_hostname("LOCALHOST"), None);
    assert_eq!(os_hostname(" "), None);
    let none = vec![None, None, None];
    assert_eq!(machine_label(Some("mac.lan"), &none, None), "mac");
    let vars = vec![None, Some("DESK.corp".to_string()), None];
    assert_eq!(machine_label(Some("localhost"), &vars, Some("zeph")), "DESK");
    assert_eq!(machine_label(None, &none, Some("zeph")), "zeph's PC");
    assert_eq!(machine_label(None, &none, Some("")), "This PC");
    assert_eq!(machine_label(None, &none, None), "This PC");
}

#[test]
fn each_platform_has_its_roots() {
    let mac = candidate_roots(Platform::MacOs, Some("/Users/z"), &vec!["/Volumes/Ext".to_string()]);
    assert_eq!(
        mac,
        vec![
            "/Applications/World of Warcraft".to_string(),
            "/Users/z/Applications/World of Warcraft".to_string(),
            "/Volumes/Ext/Applications/World of Warcraft".to_string(),
        ]
    );
    let win = candidate_roots(Platform::Windows, None, &vec![]);
    assert_eq!(win.len(), 11);
    assert_eq!(win[0], "C:\\Program Files (x86)\\World of Warcraft");
    assert_eq!(win[3], "D:\\World of Warcraft");
    let linux = candidate_roots(Platform::Linux, Some("/home/z"), &vec![]);
    assert_eq!(linux.len(), 3);
    assert_eq!(
        linux[1],
        "/home/z/.wine/drive_c/Program Files (x86)/World of Warcraft"
    );
    assert!(candidate_roots(Platform::Linux, None, &vec![]).is_empty());
}

#[test]
fn every_flavor_of_a_root_is_probed() {
    let p = flavor_probes(UNIX, "/wow");
    assert_eq!(p.len(), 8);
    assert_eq!(p[0], "/wow/_retail_/Interface/AddOns");
    assert_eq!(p[7], "/wow/_classic_era_ptr_/Interface/AddOns");
    let mut real: Vec<Option<String>> = vec![None; 8];
    real[0] = Some("/wow/_retail_/Interface/AddOns".to_string());
    real[4] = Some("/Real/_classic_/Interface/AddOns/".to_string());
    let known = vec![norm("/real/_classic_/interface/AddOns")];
    assert_eq!(
        enumerate_at(&real, &known, "PC"),
        vec![
            found("/wow/_retail_/Interface/AddOns", "Retail", false),
            found("/Real/_classic_/Interface/AddOns/", "Classic", true),
        ]
    );
}

#[test]
fn an_install_is_detected_once() {
    let all = vec![
        found("/a/_retail_/Interface/AddOns", "Retail", false),
        found("/A/_retail_/Interface/AddOns/", "Retail", false),
        found("/b/_retail_/Interface/AddOns", "Retail", true),
    ];
    let out = detect(all);
    assert_eq!(out.len(), 2);
    assert_eq!(out[0].path, "/a/_retail_/Interface/AddOns");
    assert_eq!(out[1].path, "/b/_retail_/Interface/AddOns");
}

#[test]
fn a_picked_folder_leads_to_the_root() {
    assert_eq!(wow_root_from_picked(UNIX, "/wow/_retail_/Interface/AddOns"), "/wow");
    assert_eq!(wow_root_from_picked(UNIX, "/wow/_Retail_"), "/wow");
    assert_eq!(wow_root_from_picked(UNIX, "/wow"), "/wow");
    assert_eq!(wow_root_from_picked(WIN, "C:\\wow\\_classic_\\Interface"), "C:\\wow");
    assert_eq!(wow_root_from_picked(UNIX, "./_retail_"), ".");
    assert_eq!(wow_root_from_picked(UNIX, "_retail_/Interface"), "");
}

#[test]
fn picks_in_one_install_lead_to_one_root() {
    for (style, root) in [(UNIX, "/games/wow"), (UNIX, "."), (WIN, "D:\\wow"), (WIN, "\\\\nas\\games")] {
        for (seg, _) in flavors() {
            let mut pick = join_path(style, root, &seg.to_uppercase());
            let plain = wow_root_from_picked(style, &pick);
            for next in ["Interface", "AddOns"] {
                pick = join_path(style, &pick, next);
                assert_eq!(wow_root_from_picked(style, &pick), plain);
            }
            assert_eq!(split_path(style, &plain).parts, split_path(style, root).parts);
        }
        assert_eq!(wow_root_from_picked(style, root), root);
    }
}

#[test]
fn a_leading_dot_is_a_part_but_no_name() {
    assert_eq!(split_path(UNIX, "./a/./b").parts, vec![".", "a", "b"]);
    assert_eq!(split_path(UNIX, "a/.").parts, vec!["a"]);
    assert_eq!(split_path(UNIX, "/./a").parts, vec!["a"]);
    assert_eq!(split_path(WIN, "C:.\\a").parts, vec![".", "a"]);
    assert_eq!(file_name(UNIX, "."), None);
    assert_eq!(parent(UNIX, "./a").as_deref(), Some("."));
}

#[test]
fn a_picked_folder_leads_to_its_addons() {
    let none = vec![false; 10];
    assert_eq!(resolve_addons_path(UNIX, "/x/addons", &none), Ok("/x/addons".to_string()));
    let c = addons_candidates(UNIX, "/wow/_retail_");
    assert_eq!(c.len(), 10);
    assert_eq!(c[1], "/wow/_retail_/Interface/AddOns");
    let mut second = none.clone();
    second[1] = true;
    assert_eq!(
        resolve_addons_path(UNIX, "/wow/_retail_", &second),
        Ok("/wow/_retail_/Interface/AddOns".to_string())
    );
    assert_eq!(
        resolve_addons_path(UNIX, "/wow/_retail_/Interface", &none),
        Ok("/wow/_retail_/Interface/AddOns".to_string())
    );
    let mut root = none.clone();
    root[2] = true;
    assert_eq!(
        resolve_addons_path(UNIX, "/wow", &root),
        Ok("/wow/_retail_/Interface/AddOns".to_string())
    );
    assert!(resolve_addons_path(UNIX, "/elsewhere", &none)
        .unwrap_err()
        .starts_with("That doesn't look like a WoW folder."));
}

#[test]
fn a_custom_folder_is_taken_where_no_flavor_is_found() {
    let known = vec![norm("/x/AddOns")];
    let one = vec![found("/wow/_retail_/Interface/AddOns", "Retail", false)];
    assert_eq!(enumerate_picked(one, Some("/x/AddOns"), &known, "PC").len(), 1);
    assert_eq!(
        enumerate_picked(vec![], Some("/x/AddOns"), &known, "PC"),
        vec![found("/x/AddOns", "Unknown", true)]
    );
    assert!(enumerate_picked(vec![], None, &known, "PC").is_empty());
}

#[test]
fn paths_are_taken_apart_and_put_together() {
    assert_eq!(parent(UNIX, "/a/b/").as_deref(), Some("/a"));
    assert_eq!(parent(UNIX, "/a").as_deref(), Some("/"));
    assert_eq!(parent(UNIX, "/"), None);
    assert_eq!(parent(WIN, "C:\\a\\b").as_deref(), Some("C:\\a"));
    assert_eq!(file_name(UNIX, "/a/b.lua").as_deref(), Some("b.lua"));
    assert_eq!(file_name(UNIX, "/a/.."), None);
    assert_eq!(join_path(UNIX, "/a", "b/c"), "/a/b/c");
    assert_eq!(join_path(UNIX, "/a/", "b"), "/a/b");
    assert_eq!(join_path(UNIX, "/a", "/b"), "/b");
    assert_eq!(join_path(WIN, "C:\\a", "b"), "C:\\a\\b");
    let p = split_path(WIN, "C:/x\\./y");
    assert_eq!(p.prefix, "C:");
    assert!(p.rooted);
    assert_eq!(p.parts, vec!["x".to_string(), "y".to_string()]);
}
