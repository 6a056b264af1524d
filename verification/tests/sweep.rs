use gec_uplink::config::{AppConfig, Install, InstalledAddon};
use gec_uplink::home::apply_home;
use gec_uplink::json::Json;
use gec_uplink::paths::PathStyle;
use gec_uplink::sweep::{
    begin_sync, next_step, poll_resync_signal, snapshot_installs, sweep_jobs, SyncStart, SyncStep,
};
use gec_uplink::textmap::TextMap;

fn obj(fields: Vec<(&str, Json)>) -> Json {
    let mut m: TextMap<Json> = TextMap::new();
    for (k, v) in fields {
        m.insert(k.to_string(), v);
    }
    Json::Obj(m)
}

fn text(s: &str) -> Json {
    Json::Str(s.to_string())
}

fn cfg() -> AppConfig {
    let mut sbf = InstalledAddon::new("sbf");
    sbf.enabled = true;
    let mut haul = InstalledAddon::new("haul");
    haul.enabled = true;
    haul.sync = false;
    let mut c = AppConfig::default();
    c.installs = vec![Install {
        id: "i1".to_string(),
        label: "PC".to_string(),
        path: "/wow/_retail_/Interface/AddOns".to_string(),
        flavor: "Retail".to_string(),
        channel: "public".to_string(),
        auto_update: true,
        sync_accounts: vec!["ALICE".to_string()],
        accounts_initialized: true,
        addons: vec![sbf, haul],
        online: false,
    }];
    c
}

#[test]
fn only_addons_that_sync_and_accounts_that_were_chosen_are_swept() {
    let snaps = snapshot_installs(&cfg(), &vec![true]);
    assert_eq!(snaps.len(), 1);
    assert_eq!(snaps[0].label, "PC \u{b7} Retail");
    assert_eq!(snaps[0].sync_slugs, vec!["sbf".to_string()]);
    assert!(snapshot_installs(&cfg(), &vec![false]).is_empty());
    let jobs = sweep_jobs(
        PathStyle::Unix,
        &snaps[0],
        &vec!["ALICE".to_string(), "BOB".to_string()],
    );
    assert_eq!(jobs.len(), 1);
    assert_eq!(jobs[0].account, "ALICE");
    assert_eq!(jobs[0].export.slug, "sbf");
    assert_eq!(jobs[0].file, "/wow/_retail_/WTF/Account/ALICE/SavedVariables/SBF.lua");
    assert!(sweep_jobs(PathStyle::Unix, &snaps[0], &vec!["BOB".to_string()]).is_empty());
}

#[test]
fn a_sync_needs_a_token_and_waits_for_the_game() {
    let c = cfg();
    match begin_sync(&c, false, true, false, &vec![true]) {
        SyncStart::NotPaired(e) => assert_eq!(e, "not paired \u{2014} pair this device first"),
        _ => panic!("there is no token"),
    }
    let mut waits = cfg();
    waits.sync_while_running = false;
    match begin_sync(&waits, true, false, true, &vec![true]) {
        SyncStart::GameRunning(row) => {
            assert_eq!(row.skipped.as_deref(), Some("WoW is running (sync-while-running off)"))
        }
        _ => panic!("the game runs"),
    }
    match begin_sync(&waits, true, true, true, &vec![true]) {
        SyncStart::Sweep(v) => assert_eq!(v.len(), 1),
        _ => panic!("the user asked for it"),
    }
}

#[test]
fn there_is_at_most_one_more_sweep() {
    assert_eq!(next_step(SyncStep::PollHome, true), Some(SyncStep::Sweep));
    assert_eq!(next_step(SyncStep::Sweep, false), Some(SyncStep::Finish));
    assert_eq!(next_step(SyncStep::Sweep, true), Some(SyncStep::Resweep));
    assert_eq!(next_step(SyncStep::Resweep, true), Some(SyncStep::Finish));
    assert_eq!(next_step(SyncStep::Finish, true), None);
}

#[test]
fn a_resync_request_at_home_rewinds() {
    let mut c = cfg();
    c.stream_state_mut("i1", "ALICE", "sbf", "events").cursor = "7".to_string();
    let me = obj(vec![("resync_requested_at", text("2026-07-13T10:00:00Z"))]);
    assert!(poll_resync_signal(&mut c, &me));
    assert_eq!(c.cursor_of("i1", "ALICE", "sbf", "events"), "");
    assert!(!poll_resync_signal(&mut c, &me));
    assert!(!poll_resync_signal(&mut c, &obj(vec![("resync_requested_at", Json::Null)])));
}

fn me() -> Json {
    obj(vec![
        ("handle", text("zeph")),
        ("role", text("tester")),
        ("channels", Json::Arr(vec![text("dev"), Json::Int(3), text("beta")])),
        ("device", obj(vec![("name", text("  Tower "))])),
        ("stamps", obj(vec![("catalog", text("abc"))])),
    ])
}

#[test]
fn the_home_answer_refreshes_a_paired_account() {
    let mut c = cfg();
    let ch = apply_home(&mut c, &me());
    assert!(ch.changed);
    assert!(ch.catalog_changed);
    // a device that is not paired stays so
    assert!(c.account.is_none());
    assert_eq!(c.device_name.as_deref(), Some("Tower"));
    assert_eq!(c.catalog_stamp.as_deref(), Some("abc"));

    c.account = Some(gec_uplink::config::Account {
        handle: "zeph".to_string(),
        tier: Some("gold".to_string()),
        role: "user".to_string(),
        channels: vec![],
    });
    let ch = apply_home(&mut c, &me());
    assert!(ch.changed);
    assert!(!ch.catalog_changed);
    let a = c.account.as_ref().unwrap();
    assert_eq!(a.tier, None);
    assert_eq!(a.role, "tester");
    assert_eq!(a.channels, vec!["dev".to_string(), "beta".to_string()]);

    // the same answer changes nothing the second time
    let ch = apply_home(&mut c, &me());
    assert!(!ch.changed);
    assert!(!ch.catalog_changed);
}

#[test]
fn a_home_answer_without_a_role_is_that_of_a_user() {
    let mut c = cfg();
    c.account = Some(gec_uplink::config::Account {
        handle: "old".to_string(),
        tier: None,
        role: "admin".to_string(),
        channels: vec![],
    });
    apply_home(&mut c, &obj(vec![("handle", text("new")), ("tier", text("t"))]));
    let a = c.account.as_ref().unwrap();
    assert_eq!(a.handle, "new");
    assert_eq!(a.role, "user");
    assert_eq!(a.tier.as_deref(), Some("t"));
    // an answer without a handle leaves the account, and a blank name the device
    let ch = apply_home(&mut c, &obj(vec![("device", obj(vec![("name", text("  "))]))]));
    assert!(!ch.changed);
    assert!(c.account.is_some());
}
