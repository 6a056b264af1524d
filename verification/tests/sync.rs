use gec_uplink::json::Json;
use gec_uplink::paths::PathStyle;
use gec_uplink::sync::{
    account_folders, build_manifest, count_after, decide_ack, discover_accounts, effective_accounts,
    effective_cursor, entry_seq, exports, flavor_token_matches, is_append_only, merge_stamp,
    slice_chunk, wow_running, wtf_account_dir, AckDecision, AckWarn, FolderEntry, StreamAck,
    LEARNED_ITEMS, SESSIONS,
};
use gec_uplink::textmap::TextMap;

fn obj(fields: Vec<(&str, Json)>) -> Json {
    let mut m: TextMap<Json> = TextMap::new();
    for (k, v) in fields {
        m.insert(k.to_string(), v);
    }
    Json::Obj(m)
}

fn num(n: i64) -> Json {
    Json::Int(n)
}

fn text(s: &str) -> Json {
    Json::Str(s.to_string())
}

fn at<'a>(v: &'a Json, k: &str) -> &'a Json {
    v.get(k).unwrap()
}

#[test]
fn wtf_dir_derives_from_addons_path() {
    let p = "/wow/_retail_/Interface/AddOns";
    assert_eq!(wtf_account_dir(PathStyle::Unix, p).unwrap(), "/wow/_retail_/WTF/Account");
}

#[test]
fn slice_sends_seq_after_cursor_no_i_annotation() {
    let entries = vec![
        obj(vec![("seq", num(1)), ("k", text("caught")), ("t", num(100)), ("name", text("A"))]),
        obj(vec![("seq", num(2)), ("k", text("action")), ("t", num(100)), ("spell", num(1706))]),
        obj(vec![("seq", num(3)), ("k", text("caught")), ("t", num(110)), ("name", text("B"))]),
    ];
    let (all, max) = slice_chunk(&entries, 0, 100);
    assert_eq!(max, 3);
    assert_eq!(all.len(), 3);
    assert_eq!(at(&all[0], "seq"), &num(1));
    assert_eq!(at(&all[2], "seq"), &num(3));
    assert!(all[0].get("i").is_none(), "no position is added");
    assert_eq!(at(&all[0], "name"), &text("A"));
    assert_eq!(at(&all[1], "spell"), &num(1706));
    assert_eq!(at(&all[0], "t"), at(&all[1], "t"));

    let (after, max) = slice_chunk(&entries, 1, 100);
    assert_eq!(after.len(), 2);
    assert_eq!(at(&after[0], "seq"), &num(2));
    assert_eq!(at(&after[1], "seq"), &num(3));
    assert_eq!(max, 3);

    let (none, max) = slice_chunk(&entries, 3, 100);
    assert!(none.is_empty());
    assert_eq!(max, 3);
}

#[test]
fn slice_skips_hole_and_purged_front_without_stalling() {
    let entries = vec![
        obj(vec![("seq", num(3)), ("k", text("a"))]),
        obj(vec![("seq", num(4)), ("k", text("b"))]),
        obj(vec![("seq", num(6)), ("k", text("c"))]),
        obj(vec![("seq", num(7)), ("k", text("d"))]),
    ];
    let (all, max) = slice_chunk(&entries, 0, 100);
    assert_eq!(all.len(), 4);
    assert_eq!(max, 7);
    let (rest, max) = slice_chunk(&entries, 4, 100);
    assert_eq!(rest.len(), 2);
    assert_eq!(at(&rest[0], "seq"), &num(6));
    assert_eq!(max, 7);
}

#[test]
fn slice_quarantines_record_missing_seq_without_stalling() {
    let entries = vec![
        obj(vec![("seq", num(1)), ("k", text("a"))]),
        obj(vec![("k", text("bad-no-seq"))]),
        obj(vec![("seq", num(2)), ("k", text("b"))]),
    ];
    let (out, max) = slice_chunk(&entries, 0, 100);
    assert_eq!(out.len(), 2);
    assert_eq!(at(&out[0], "seq"), &num(1));
    assert_eq!(at(&out[1], "seq"), &num(2));
    assert_eq!(max, 2);
}

#[test]
fn slice_chunk_paginates_by_seq() {
    let entries: Vec<Json> = (1..=10).map(|n| obj(vec![("seq", num(n)), ("k", text("x"))])).collect();
    let (c1, m1) = slice_chunk(&entries, 0, 4);
    assert_eq!(c1.len(), 4);
    assert_eq!(at(&c1[0], "seq"), &num(1));
    assert_eq!(at(&c1[3], "seq"), &num(4));
    assert_eq!(m1, 4);
    let (c2, m2) = slice_chunk(&entries, m1, 4);
    assert_eq!(at(&c2[0], "seq"), &num(5));
    assert_eq!(at(&c2[3], "seq"), &num(8));
    assert_eq!(m2, 8);
    let (c3, m3) = slice_chunk(&entries, m2, 4);
    assert_eq!(c3.len(), 2);
    assert_eq!(at(&c3[0], "seq"), &num(9));
    assert_eq!(at(&c3[1], "seq"), &num(10));
    assert_eq!(m3, 10);
    let (c4, m4) = slice_chunk(&entries, m3, 4);
    assert!(c4.is_empty());
    assert_eq!(m4, 10);
}

#[test]
fn effective_cursor_floors_at_base_minus_one() {
    assert_eq!(effective_cursor(0, 1), 0);
    assert_eq!(effective_cursor(42, 1), 42);
    assert_eq!(effective_cursor(100, 452), 451);
    assert_eq!(effective_cursor(500, 452), 500);
}

#[test]
fn count_after_counts_records_with_higher_seq() {
    let entries = vec![
        obj(vec![("seq", num(3)), ("k", text("a"))]),
        obj(vec![("seq", num(4)), ("k", text("b"))]),
        obj(vec![("seq", num(6)), ("k", text("c"))]),
        obj(vec![("k", text("bad"))]),
    ];
    assert_eq!(count_after(&entries, 0), 3);
    assert_eq!(count_after(&entries, 4), 1);
    assert_eq!(count_after(&entries, 6), 0);
}

fn v(xs: &[&str]) -> Vec<String> {
    xs.iter().map(|s| s.to_string()).collect()
}

#[test]
fn empty_selection_is_respected_no_single_account_reselect() {
    assert!(effective_accounts(&[], &v(&["ALICE"])).is_empty());
    assert!(effective_accounts(&[], &v(&["ALICE", "BOB"])).is_empty());
}

#[test]
fn selection_is_the_intersection_with_discovered() {
    assert_eq!(effective_accounts(&v(&["ALICE"]), &v(&["ALICE", "BOB"])), v(&["ALICE"]));
    assert_eq!(
        effective_accounts(&v(&["ALICE", "BOB"]), &v(&["ALICE", "BOB"])),
        v(&["ALICE", "BOB"])
    );
    assert_eq!(
        effective_accounts(&v(&["BOB", "ALICE"]), &v(&["ALICE", "BOB"])),
        v(&["ALICE", "BOB"])
    );
}

#[test]
fn stale_selections_are_dropped() {
    assert!(effective_accounts(&v(&["GONE"]), &v(&["ALICE", "BOB"])).is_empty());
    assert!(effective_accounts(&v(&["GONE"]), &v(&["ALICE"])).is_empty());
}

#[test]
fn merge_stamp_keeps_newest_ignores_none_and_empty() {
    let mut acc: Option<String> = None;
    merge_stamp(&mut acc, None);
    assert_eq!(acc, None);
    merge_stamp(&mut acc, Some("  "));
    assert_eq!(acc, None);
    merge_stamp(&mut acc, Some("2026-07-13T10:00:00Z"));
    assert_eq!(acc.as_deref(), Some("2026-07-13T10:00:00Z"));
    merge_stamp(&mut acc, Some("2026-07-13T09:00:00Z"));
    assert_eq!(acc.as_deref(), Some("2026-07-13T10:00:00Z"));
    merge_stamp(&mut acc, Some("2026-07-13T11:30:00Z"));
    assert_eq!(acc.as_deref(), Some("2026-07-13T11:30:00Z"));
    merge_stamp(&mut acc, None);
    assert_eq!(acc.as_deref(), Some("2026-07-13T11:30:00Z"));
}

#[test]
fn no_accounts_discovered_is_empty() {
    assert!(effective_accounts(&[], &[]).is_empty());
    assert!(effective_accounts(&v(&["ALICE"]), &[]).is_empty());
}

fn sa(cursor: Option<&str>, unknown: bool) -> StreamAck {
    StreamAck { cursor: cursor.map(|s| s.to_string()), unknown, ..Default::default() }
}

#[test]
fn decide_ack_drained_advances_and_warns() {
    assert_eq!(
        decide_ack(true, None, 5, 2),
        AckDecision { cursor: Some(5), unknown: false, warn: Some(AckWarn::Drained) }
    );
    assert_eq!(
        decide_ack(true, None, 3, 7),
        AckDecision { cursor: Some(7), unknown: false, warn: Some(AckWarn::Drained) }
    );
    assert_eq!(
        decide_ack(true, Some(&sa(Some("9"), false)), 5, 2),
        AckDecision { cursor: Some(5), unknown: false, warn: Some(AckWarn::Drained) }
    );
}

#[test]
fn decide_ack_present_advances_from_cursor_never_regressing() {
    assert_eq!(
        decide_ack(false, Some(&sa(Some("8"), false)), 5, 2),
        AckDecision { cursor: Some(8), unknown: false, warn: None }
    );
    assert_eq!(
        decide_ack(false, Some(&sa(Some("1"), false)), 5, 4),
        AckDecision { cursor: Some(5), unknown: false, warn: None }
    );
    assert_eq!(
        decide_ack(false, Some(&sa(None, false)), 5, 2),
        AckDecision { cursor: Some(5), unknown: false, warn: None }
    );
}

#[test]
fn decide_ack_unknown_stream_does_not_advance() {
    assert_eq!(
        decide_ack(false, Some(&sa(Some("9"), true)), 5, 2),
        AckDecision { cursor: None, unknown: true, warn: None }
    );
}

#[test]
fn decide_ack_missing_stream_holds_and_warns() {
    assert_eq!(
        decide_ack(false, None, 5, 2),
        AckDecision { cursor: None, unknown: false, warn: Some(AckWarn::MissingStream) }
    );
}

#[test]
fn a_chunk_without_room_is_empty() {
    let entries = vec![obj(vec![("seq", Json::Int(1))])];
    let (chunk, cursor) = slice_chunk(&entries, 0, 0);
    assert!(chunk.is_empty());
    assert_eq!(cursor, 0);
}

#[test]
fn flavor_token_cross_check() {
    assert_eq!(flavor_token_matches("retail", Some(1)), Some(true));
    assert_eq!(flavor_token_matches("retail", Some(2)), Some(false));
    assert_eq!(flavor_token_matches("classic", Some(2)), Some(true));
    assert_eq!(flavor_token_matches("classic_era", Some(11)), Some(true));
    assert_eq!(flavor_token_matches("classic", Some(1)), Some(false));
    assert_eq!(flavor_token_matches("ptr", Some(1)), None);
    assert_eq!(flavor_token_matches("weird_future", Some(2)), None);
    assert_eq!(flavor_token_matches("retail", None), None);
}

#[test]
fn a_cursor_that_is_no_number_falls_back_to_what_was_sent() {
    assert_eq!(
        decide_ack(false, Some(&sa(Some("nine"), false)), 5, 2),
        AckDecision { cursor: Some(5), unknown: false, warn: None }
    );
    // a cursor that repeats the current one is no progress either
    assert_eq!(
        decide_ack(false, Some(&sa(Some("2"), false)), 5, 2),
        AckDecision { cursor: Some(5), unknown: false, warn: None }
    );
}

#[test]
fn the_lowest_watermark_leaves_the_cursor() {
    assert_eq!(effective_cursor(0, i64::MIN), 0);
    assert_eq!(effective_cursor(i64::MIN, i64::MIN), i64::MIN);
}

#[test]
fn snapshots_are_not_append_only() {
    assert!(is_append_only("fishlog"));
    assert!(!is_append_only(SESSIONS));
    assert!(!is_append_only(LEARNED_ITEMS));
    assert!(!is_append_only("learned_spells"));
    assert!(!is_append_only("places"));
}

#[test]
fn a_number_of_a_record_is_an_integer() {
    assert_eq!(entry_seq(&obj(vec![("seq", num(7))])), Some(7));
    assert_eq!(entry_seq(&obj(vec![("seq", text("7"))])), None);
    assert_eq!(entry_seq(&text("7")), None);
}

#[test]
fn accounts_are_folders_with_saved_variables() {
    let e = |name: &str, is_dir: bool, sv: bool| FolderEntry {
        name: name.to_string(),
        is_dir,
        has_saved_variables: sv,
    };
    let found = account_folders(&vec![
        e("BOB", true, true),
        e("ALICE", true, true),
        e("NEW", true, false),
        e("notes.txt", false, false),
    ]);
    assert_eq!(found, v(&["ALICE", "BOB"]));
}

#[test]
fn the_game_is_told_by_its_process() {
    assert!(wow_running(false, Some("/Applications/World of Warcraft/_retail_/World of Warcraft.app\n")));
    assert!(wow_running(false, Some("C:\\wow\\Wow.exe")));
    assert!(!wow_running(false, Some("bash\nsshd")));
    assert!(wow_running(true, Some("WowClassic.exe   1234")));
    assert!(!wow_running(true, Some("explorer.exe")));
    assert!(!wow_running(true, None));
}

#[test]
fn the_manifest_lists_what_is_installed() {
    let e = exports();
    assert_eq!(e.len(), 2);
    assert_eq!((e[0].slug, e[0].addon, e[0].global), ("sbf", "SBF", "SBFData"));
    assert_eq!((e[1].slug, e[1].addon, e[1].global), ("haul", "Haul", "HaulData"));
    let m = build_manifest(&vec![None, Some("1.2".to_string())]);
    assert_eq!(m.len(), 1);
    assert_eq!(m[0].name, "Haul");
    assert_eq!(m[0].version, "1.2");
}

#[test]
fn the_account_folder_needs_two_parents() {
    assert_eq!(wtf_account_dir(PathStyle::Unix, "/"), None);
    assert_eq!(
        wtf_account_dir(PathStyle::Windows, "C:\\WoW\\_retail_\\Interface\\AddOns").unwrap(),
        "C:\\WoW\\_retail_\\WTF\\Account"
    );
}

#[test]
fn accounts_are_discovered_beside_the_addons() {
    let entries = vec![FolderEntry {
        name: "ALICE".to_string(),
        is_dir: true,
        has_saved_variables: true,
    }];
    assert_eq!(
        discover_accounts(PathStyle::Unix, "/wow/_retail_/Interface/AddOns", &entries),
        v(&["ALICE"])
    );
    assert!(discover_accounts(PathStyle::Unix, "/", &entries).is_empty());
}
