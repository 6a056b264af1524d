use gec_uplink::config::AppConfig;
use gec_uplink::json::Json;
use gec_uplink::paths::PathStyle;
use gec_uplink::svparse::{ParsedStream, StreamMeta, SvExport};
use gec_uplink::sync::{exports, AddonRef, IngestAck, IngestWarning, StreamAck};
use gec_uplink::textmap::TextMap;
use gec_uplink::upload::{
    flag_flavors, may_skip_file, split_sessions, start_account_sync, AccountSync, InstallSnap,
    Started, SyncTarget,
};

fn obj(fields: Vec<(&str, Json)>) -> Json {
    let mut m: TextMap<Json> = TextMap::new();
    for (k, v) in fields {
        m.insert(k.to_string(), v);
    }
    Json::Obj(m)
}

fn num(n: i64) -> Json {
    Json::Int(n)
}

fn text(s: &str) -> Json {
    Json::Str(s.to_string())
}

fn rec(seq: i64) -> Json {
    obj(vec![("seq", num(seq)), ("k", text("x"))])
}

fn snap() -> InstallSnap {
    InstallSnap {
        id: "i1".to_string(),
        label: "PC \u{b7} Retail".to_string(),
        addons_path: "/wow/_retail_/Interface/AddOns".to_string(),
        sync_accounts: vec!["ALICE".to_string()],
        sync_slugs: vec!["sbf".to_string()],
    }
}

fn export(seqs: &[i64], base: i64) -> SvExport {
    let mut x = SvExport::default();
    x.streams.insert(
        "events".to_string(),
        ParsedStream { schema: 1, entries: seqs.iter().map(|n| rec(*n)).collect() },
    );
    x.stream_meta.insert("events".to_string(), StreamMeta { seq: 99, base });
    x
}

fn start(cfg: &mut AppConfig, x: SvExport) -> AccountSync {
    let exps = exports();
    let manifest = vec![AddonRef { name: "SBF".to_string(), version: "1".to_string() }];
    match start_account_sync(
        cfg,
        PathStyle::Unix,
        &snap(),
        "ALICE",
        &exps[0],
        &manifest,
        Some(77),
        x,
    ) {
        Started::Ready(s) => s,
        Started::NoData(_) => panic!("there is data"),
    }
}

fn answer(streams: Vec<(&str, StreamAck)>) -> IngestAck {
    let mut m: TextMap<StreamAck> = TextMap::new();
    for (k, v) in streams {
        m.insert(k.to_string(), v);
    }
    IngestAck { streams: m, drained: false, resync_requested_at: None, warnings: vec![] }
}

fn acked(cursor: &str, accepted: u64) -> StreamAck {
    StreamAck {
        accepted,
        inserted: accepted,
        cursor: Some(cursor.to_string()),
        unknown: false,
        duplicate: false,
    }
}

#[test]
fn a_backlog_is_sent_in_chunks_and_then_done() {
    let mut cfg = AppConfig::default();
    let seqs: Vec<i64> = (1..=4005).collect();
    let mut s = start(&mut cfg, export(&seqs, 1));
    let c1 = s.next_chunk().unwrap();
    assert_eq!(c1.envelope.schema, "gec.ingest/2");
    assert_eq!(c1.envelope.addon, "SBF");
    assert_eq!(c1.envelope.account, "ALICE");
    assert_eq!(c1.envelope.flavor, "retail");
    assert_eq!(c1.envelope.addons_installed.len(), 1);
    let d = c1.envelope.datasets.get("events").unwrap();
    assert_eq!(d.entries.len(), 4000);
    assert_eq!(d.since.as_deref(), Some("0"));
    let meta = d.stream_meta.as_ref().unwrap();
    assert_eq!((meta.seq, meta.base), (99, 1));
    let mut stamp = None;
    s.apply_ack(&c1, &answer(vec![("events", acked("4000", 4000))]), &mut stamp);
    assert_eq!(stamp, None);
    let c2 = s.next_chunk().unwrap();
    let d = c2.envelope.datasets.get("events").unwrap();
    assert_eq!(d.entries.len(), 5);
    assert_eq!(d.since.as_deref(), Some("4000"));
    s.apply_ack(&c2, &answer(vec![("events", acked("4005", 5))]), &mut stamp);
    assert!(s.next_chunk().is_none());
    s.persist(&mut cfg, 1234);
    let st = &cfg.sync[0];
    assert_eq!(st.cursor, "4005");
    assert_eq!(st.queued, 0);
    assert_eq!(st.total, 4005);
    assert_eq!(st.last_accepted, 4005);
    assert_eq!(st.last_sync, Some(1234));
    assert_eq!(st.file_mtime, Some(77));
    assert!(!st.stuck);
    let rows = s.report();
    assert_eq!(rows.len(), 1);
    assert_eq!(rows[0].stream, "events");
    assert_eq!(rows[0].found, 4005);
    assert_eq!(rows[0].accepted, 4005);
    assert_eq!(rows[0].cursor, "4005");
    assert_eq!(rows[0].error, None);
}

#[test]
fn a_kept_cursor_is_where_the_next_sync_starts() {
    let mut cfg = AppConfig::default();
    cfg.stream_state_mut("i1", "ALICE", "sbf", "events").cursor = "2".to_string();
    let s = start(&mut cfg, export(&[1, 2, 3], 1));
    let c = s.next_chunk().unwrap();
    assert_eq!(c.envelope.datasets.get("events").unwrap().entries, vec![rec(3)]);
    // a purge that went further lifts the cursor
    let s = start(&mut cfg, export(&[8, 9], 8));
    let c = s.next_chunk().unwrap();
    let d = c.envelope.datasets.get("events").unwrap();
    assert_eq!(d.since.as_deref(), Some("7"));
    assert_eq!(d.entries.len(), 2);
}

#[test]
fn a_missing_stream_holds_and_is_told() {
    let mut cfg = AppConfig::default();
    let mut s = start(&mut cfg, export(&[1, 2], 1));
    let c = s.next_chunk().unwrap();
    let mut stamp = None;
    s.apply_ack(&c, &answer(vec![]), &mut stamp);
    assert_eq!(s.plans[0].cursor, 0);
    // the stream is held: it is not sent again, and the upload is over
    assert!(s.next_chunk().is_none());
    s.persist(&mut cfg, 1);
    assert_eq!(cfg.sync[0].cursor, "0");
    assert_eq!(cfg.sync[0].queued, 2);
    assert!(cfg.sync[0].stuck);
    let rows = s.report();
    assert_eq!(rows[0].error, None);
    assert_eq!(rows[1].stream, "\u{26a0} server");
    assert_eq!(
        rows[1].warning.as_deref(),
        Some("missing_stream: stream 'events' missing from a well-formed ack \u{2014} cursor held (not advanced)")
    );
}

#[test]
fn a_held_stream_does_not_hold_up_the_others() {
    let mut cfg = AppConfig::default();
    let mut x = export(&(1..=4001).collect::<Vec<i64>>(), 1);
    x.streams.insert("markers".to_string(), ParsedStream { schema: 1, entries: vec![rec(1)] });
    let mut s = start(&mut cfg, x);
    let mut stamp = None;
    let c = s.next_chunk().unwrap();
    assert_eq!(c.envelope.datasets.len(), 2);
    s.apply_ack(&c, &answer(vec![("events", acked("4000", 4000))]), &mut stamp);
    let c = s.next_chunk().unwrap();
    assert!(c.envelope.datasets.get("markers").is_none());
    assert_eq!(c.envelope.datasets.get("events").unwrap().entries, vec![rec(4001)]);
    s.apply_ack(&c, &answer(vec![("events", acked("4001", 1))]), &mut stamp);
    assert!(s.next_chunk().is_none());
}

#[test]
fn an_answer_that_repeats_the_cursor_moves_on() {
    let mut cfg = AppConfig::default();
    let mut s = start(&mut cfg, export(&[1, 2], 1));
    let c = s.next_chunk().unwrap();
    let mut stamp = None;
    s.apply_ack(&c, &answer(vec![("events", acked("0", 2))]), &mut stamp);
    assert_eq!(s.plans[0].cursor, 2);
    assert!(s.next_chunk().is_none());
}

#[test]
fn a_failed_upload_is_tried_again() {
    let mut cfg = AppConfig::default();
    let exps = exports();
    let target = SyncTarget::new(&snap(), "ALICE", &exps[0]);
    // the file was seen before with the same time
    cfg.stream_state_mut("i1", "ALICE", "sbf", "overrides").file_mtime = Some(77);
    cfg.stream_state_mut("i1", "BOB", "sbf", "events").file_mtime = Some(77);
    assert!(may_skip_file(&cfg, &target, Some(77), false));
    let mut s = start(&mut cfg, export(&[1, 2], 1));
    s.next_chunk().unwrap();
    s.fail("Uploads paused: later".to_string());
    assert!(s.next_chunk().is_none());
    s.persist(&mut cfg, 1);
    assert!(!may_skip_file(&cfg, &target, Some(77), false));
    assert_eq!(cfg.sync[1].file_mtime, Some(77));
    assert_eq!(cfg.sync[2].last_sync, None);
    assert!(!cfg.sync[2].stuck);
    assert_eq!(s.report()[0].error.as_deref(), Some("Uploads paused: later"));
    // the next sync sends what is left, and the time is kept then
    let mut s = start(&mut cfg, export(&[1, 2], 1));
    let c = s.next_chunk().unwrap();
    assert_eq!(c.envelope.datasets.get("events").unwrap().entries.len(), 2);
    let mut stamp = None;
    s.apply_ack(&c, &answer(vec![("events", acked("2", 2))]), &mut stamp);
    assert!(s.next_chunk().is_none());
    s.persist(&mut cfg, 2);
    assert_eq!(cfg.sync[2].file_mtime, Some(77));
}

#[test]
fn an_unknown_stream_is_not_fed_again_and_is_stuck() {
    let mut cfg = AppConfig::default();
    let mut s = start(&mut cfg, export(&[1, 2], 1));
    let c = s.next_chunk().unwrap();
    let mut stamp = None;
    let mut a = acked("2", 0);
    a.unknown = true;
    s.apply_ack(&c, &answer(vec![("events", a)]), &mut stamp);
    assert!(s.next_chunk().is_none());
    s.persist(&mut cfg, 5);
    assert!(cfg.sync[0].stuck);
    assert_eq!(cfg.sync[0].queued, 2);
    assert_eq!(cfg.sync[0].last_sync, None);
    assert!(s.report()[0].unknown);
}

#[test]
fn a_drained_batch_advances_with_one_note() {
    let mut cfg = AppConfig::default();
    let mut s = start(&mut cfg, export(&[1, 2], 1));
    let c = s.next_chunk().unwrap();
    let mut stamp = Some("2026-01-01".to_string());
    let ack = IngestAck {
        streams: TextMap::new(),
        drained: true,
        resync_requested_at: Some("2026-02-01".to_string()),
        warnings: vec![IngestWarning {
            code: "bad_build".to_string(),
            addon: None,
            message: "known bad".to_string(),
            sids: None,
            count: Some(3),
        }],
    };
    s.apply_ack(&c, &ack, &mut stamp);
    assert_eq!(stamp.as_deref(), Some("2026-02-01"));
    assert!(s.next_chunk().is_none());
    assert_eq!(s.plans[0].cursor, 2);
    let rows = s.report();
    assert_eq!(rows.len(), 3);
    assert_eq!(rows[1].warning.as_deref(), Some("bad_build: known bad (3)"));
    assert_eq!(rows[1].addon, "sbf");
    assert_eq!(
        rows[2].warning.as_deref(),
        Some("drained: batch quarantined by the legacy drain \u{2014} acked but NOT ingested")
    );
}

fn session(sid: &str, closed: bool, flavor: i64) -> Json {
    let mut f = vec![
        ("sid", text(sid)),
        ("gameEnv", obj(vec![("flavor", num(flavor))])),
    ];
    if closed {
        f.push(("closedAt", num(700)));
    }
    obj(f)
}

#[test]
fn only_closed_sessions_ride_and_only_once() {
    let mut cfg = AppConfig::default();
    let mut x = export(&[1], 1);
    x.sessions = vec![session("a", true, 1), session("b", false, 1)];
    x.db_items = vec![obj(vec![("id", num(5))])];
    let mut s = start(&mut cfg, x);
    let c = s.next_chunk().unwrap();
    assert!(c.include_sessions);
    assert!(c.include_learned);
    let d = c.envelope.datasets.get("sessions").unwrap();
    assert_eq!(d.entries, vec![session("a", true, 1)]);
    assert_eq!(d.since, None);
    assert!(d.stream_meta.is_none());
    assert_eq!(c.envelope.datasets.get("learned_items").unwrap().entries.len(), 1);
    let mut stamp = None;
    s.apply_ack(
        &c,
        &answer(vec![("events", acked("1", 1)), ("sessions", acked("", 1)), ("learned_items", acked("", 1))]),
        &mut stamp,
    );
    assert!(s.next_chunk().is_none());
    let rows = s.report();
    assert_eq!(rows.len(), 3);
    assert_eq!(rows[1].stream, "sessions");
    assert_eq!(rows[1].found, 1);
    assert_eq!(rows[1].accepted, 1);
    assert_eq!(rows[1].skipped.as_deref(), Some("withheld 1 open session(s)"));
    assert_eq!(rows[2].stream, "learned_items");
}

#[test]
fn sessions_are_split_by_their_close() {
    let null_close = obj(vec![("sid", text("n")), ("closedAt", Json::Null)]);
    let (closed, open) = split_sessions(vec![session("a", true, 1), session("b", false, 1), null_close]);
    assert_eq!(closed, vec![session("a", true, 1)]);
    assert_eq!(open, 2);
}

#[test]
fn a_flavor_that_does_not_fit_is_flagged() {
    let notes = flag_flavors(&vec![session("a", true, 1), session("b", true, 2)], "retail");
    assert_eq!(notes.len(), 1);
    assert_eq!(
        notes[0],
        "session b: directory flavor 'retail' \u{2260} recorded gameEnv.flavor 2 \u{2014} file may be attributed to the wrong install"
    );
    assert!(flag_flavors(&vec![session("b", true, 2)], "ptr").is_empty());
}

#[test]
fn a_file_with_nothing_to_send_is_remembered() {
    let mut cfg = AppConfig::default();
    let exps = exports();
    let r = start_account_sync(
        &mut cfg,
        PathStyle::Unix,
        &snap(),
        "ALICE",
        &exps[0],
        &vec![],
        Some(77),
        SvExport::default(),
    );
    match r {
        Started::NoData(row) => assert_eq!(row.skipped.as_deref(), Some("no exportable data")),
        Started::Ready(_) => panic!("there is nothing to send"),
    }
    let target = SyncTarget::new(&snap(), "ALICE", &exps[0]);
    assert!(may_skip_file(&cfg, &target, Some(77), false));
    assert!(!may_skip_file(&cfg, &target, Some(77), true));
    assert!(!may_skip_file(&cfg, &target, Some(78), false));
    assert!(!may_skip_file(&cfg, &target, None, false));
    assert_eq!(target.skipped_row("unchanged").skipped.as_deref(), Some("unchanged"));
    assert_eq!(target.failed_row("x".to_string()).error.as_deref(), Some("x"));
}

#[test]
fn streams_that_are_gone_are_stuck() {
    let mut cfg = AppConfig::default();
    let st = cfg.stream_state_mut("i1", "ALICE", "sbf", "fishlog");
    st.queued = 4;
    let mut s = start(&mut cfg, export(&[1], 1));
    let c = s.next_chunk().unwrap();
    let mut stamp = None;
    s.apply_ack(&c, &answer(vec![("events", acked("1", 1))]), &mut stamp);
    s.persist(&mut cfg, 1);
    assert!(cfg.sync[0].stuck);
    assert!(!cfg.sync[1].stuck);
}

#[test]
fn snapshot_streams_have_no_cursor() {
    let mut cfg = AppConfig::default();
    let mut x = export(&[1], 1);
    x.streams.insert("places".to_string(), ParsedStream { schema: 1, entries: vec![rec(1)] });
    let s = start(&mut cfg, x);
    assert_eq!(s.plans.len(), 1);
    assert_eq!(s.plans[0].name, "events");
}
