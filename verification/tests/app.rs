use gec_uplink::auth::{cleared, RemoveOutcome, TokenStore};
use gec_uplink::catalog::{CatalogAddon, ChannelLatest, ReleaseRow};
use gec_uplink::config::AppConfig;
use gec_uplink::installs::Platform;
use gec_uplink::json::Json;
use gec_uplink::launch::{
    app_config_dir, first_pass_day, hides_on_blur, hides_on_close, pass_runs, run_mode,
    shows_window, sync_pause, tray_click, RunMode, TrayAction,
};
use gec_uplink::paths::PathStyle;
use gec_uplink::schedule::{CalendarDay, TimeOfDay};
use gec_uplink::selfupdate::{
    after_fetch, after_probe, begin_check, dev_override_url, install_endpoint, manifest_url,
    pass_installs, updater_endpoint, CheckStart, Endpoint, FoundBuild, ProbeOutcome,
    SelfUpdateStatus,
};
use gec_uplink::summary::{kind_counts, registry_counts};
use gec_uplink::svparse::parse_export_str;
use gec_uplink::textmap::TextMap;

fn args(v: &[&str]) -> Vec<String> {
    v.iter().map(|s| s.to_string()).collect()
}

#[test]
fn a_token_is_cached_and_cleared() {
    let mut t = TokenStore::new();
    assert_eq!(t.token_path(), Err("token path not initialized".to_string()));
    assert_eq!(t.get_token(None, Some("lost")), None);
    t.init(PathStyle::Unix, "/cfg");
    assert_eq!(t.token_path(), Ok("/cfg/device-token".to_string()));
    // the place is set once
    t.init(PathStyle::Unix, "/other");
    assert_eq!(t.token_path(), Ok("/cfg/device-token".to_string()));
    assert!(!t.has_token(None, Some("  ")));
    assert!(!t.has_token(Some(""), None));
    assert_eq!(t.get_token(None, Some(" abc\n")).as_deref(), Some("abc"));
    // what was read once stays
    assert_eq!(t.get_token(Some("env"), None).as_deref(), Some("abc"));
    t.store_token("new");
    assert_eq!(t.get_token(None, None).as_deref(), Some("new"));
    assert_eq!(t.clear_token().as_deref(), Some("/cfg/device-token"));
    assert_eq!(t.get_token(Some("env"), Some("file")).as_deref(), Some("env"));
    assert_eq!(cleared(RemoveOutcome::Removed, ""), Ok(()));
    assert_eq!(cleared(RemoveOutcome::NotFound, "x"), Ok(()));
    assert_eq!(cleared(RemoveOutcome::Failed, "x"), Err("token clear failed: x".to_string()));
}

#[test]
fn releases_are_looked_up_by_channel() {
    let mut channels: TextMap<ChannelLatest> = TextMap::new();
    channels.insert(
        "public".to_string(),
        ChannelLatest { version: "1".to_string(), url: "u1".to_string() },
    );
    channels.insert(
        "dev".to_string(),
        ChannelLatest { version: "2".to_string(), url: "u2".to_string() },
    );
    let a = CatalogAddon {
        slug: "sbf".to_string(),
        name: "SBF".to_string(),
        short: String::new(),
        status: String::new(),
        blurb: String::new(),
        github_repo: None,
        channels,
        releases: vec![ReleaseRow {
            channel: "dev".to_string(),
            version: "1.9".to_string(),
            url: "u19".to_string(),
            published_at: String::new(),
        }],
        flavors: vec!["Retail".to_string()],
    };
    assert_eq!(a.latest_for("dev").unwrap().version, "2");
    assert_eq!(a.latest_for("beta").unwrap().version, "1");
    assert_eq!(a.release("dev", "1.9").unwrap().url, "u19");
    assert!(a.release("public", "1.9").is_none());
    assert!(a.supports_flavor("RETAIL"));
    assert!(!a.supports_flavor("Classic"));
    assert_eq!(a.target_for("dev", &None), Some(("2".to_string(), "u2".to_string())));
    assert_eq!(
        a.target_for("dev", &Some("1.9".to_string())),
        Some(("1.9".to_string(), "u19".to_string()))
    );
    assert_eq!(a.target_for("dev", &Some("0".to_string())), None);
}

#[test]
fn the_app_asks_the_server_for_its_updates() {
    assert_eq!(
        manifest_url("https://a.example//", "dev"),
        "https://a.example/api/uplink/latest.json?channel=dev"
    );
    assert_eq!(
        updater_endpoint("https://a.example", "dev"),
        "https://a.example/api/uplink/latest.json?channel=dev&target={{target}}"
    );
    let mut c = AppConfig::default();
    c.base_url = "https://a.example".to_string();
    c.self_update_channel = "dev".to_string();
    assert_eq!(dev_override_url(&c), None);
    assert_eq!(
        begin_check(&c),
        CheckStart::Probe {
            base: "https://a.example".to_string(),
            channel: "dev".to_string(),
            url: "https://a.example/api/uplink/latest.json?channel=dev".to_string(),
        }
    );
    assert!(install_endpoint(&c).attach_bearer);
    c.dev_update_url = Some(" http://localhost/x ".to_string());
    let direct = Endpoint { url: "http://localhost/x".to_string(), attach_bearer: false };
    assert_eq!(install_endpoint(&c), direct);
    assert_eq!(begin_check(&c), CheckStart::Direct(direct));
    c.dev_update_url = Some("  ".to_string());
    assert_eq!(dev_override_url(&c), None);
}

#[test]
fn a_refused_channel_goes_back_to_the_public_one() {
    let mut c = AppConfig::default();
    c.self_update_channel = "dev".to_string();
    assert_eq!(
        after_probe(&mut c, "https://a.example", "dev", 204),
        Ok(ProbeOutcome::Done(SelfUpdateStatus::UpToDate))
    );
    assert_eq!(
        after_probe(&mut c, "https://a.example", "dev", 200),
        Ok(ProbeOutcome::Fetch(Endpoint {
            url: "https://a.example/api/uplink/latest.json?channel=dev&target={{target}}".to_string(),
            attach_bearer: true,
        }))
    );
    assert_eq!(
        after_probe(&mut c, "https://a.example", "dev", 500),
        Err("update check failed (HTTP 500)".to_string())
    );
    assert_eq!(c.self_update_channel, "dev");
    assert_eq!(
        after_probe(&mut c, "https://a.example", "dev", 403),
        Ok(ProbeOutcome::Done(SelfUpdateStatus::ChannelRevoked { was: "dev".to_string() }))
    );
    assert_eq!(c.self_update_channel, "public");
}

#[test]
fn a_platform_without_a_build_is_up_to_date() {
    let found = FoundBuild { version: "2".to_string(), notes: Some("n".to_string()) };
    let available = SelfUpdateStatus::Available { version: "2".to_string(), notes: Some("n".to_string()) };
    assert_eq!(after_fetch(Ok(Some(found)), true), Ok(available));
    assert_eq!(after_fetch(Ok(None), true), Ok(SelfUpdateStatus::UpToDate));
    let missing = "None of the fallback PLATFORMS were found".to_string();
    assert_eq!(after_fetch(Err(missing.clone()), true), Ok(SelfUpdateStatus::UpToDate));
    assert_eq!(after_fetch(Err(missing.clone()), false), Err(missing));
    assert_eq!(after_fetch(Err("no route".to_string()), true), Err("no route".to_string()));
}

#[test]
fn a_flatpak_build_does_not_replace_itself() {
    let found = Ok(SelfUpdateStatus::Available { version: "2".to_string(), notes: None });
    assert_eq!(pass_installs(&found, false).as_deref(), Some("2"));
    assert_eq!(pass_installs(&found, true), None);
    assert_eq!(pass_installs(&Ok(SelfUpdateStatus::UpToDate), false), None);
    assert_eq!(pass_installs(&Err("x".to_string()), false), None);
}

#[test]
fn the_command_line_picks_what_runs() {
    assert_eq!(run_mode(&args(&["app"])), RunMode::App);
    assert_eq!(run_mode(&args(&["app", "--hidden"])), RunMode::App);
    assert_eq!(run_mode(&args(&["app", "reset-cursors", "sync-once"])), RunMode::SyncOnce);
    assert_eq!(run_mode(&args(&["app", "reset-cursors"])), RunMode::ResetCursors);
    assert_eq!(
        run_mode(&args(&["app", "parse-only", "f.lua", "HaulData"])),
        RunMode::ParseOnly { file: "f.lua".to_string(), global: "HaulData".to_string() }
    );
    assert_eq!(
        run_mode(&args(&["app", "parse-only"])),
        RunMode::ParseOnly { file: String::new(), global: "SBFData".to_string() }
    );
}

#[test]
fn the_configuration_has_its_place() {
    assert_eq!(
        app_config_dir(Platform::Linux, Some("/xdg"), Some("/home/z"), None),
        "/xdg/com.goblinengineering.uplink"
    );
    assert_eq!(
        app_config_dir(Platform::Linux, None, Some("/home/z"), None),
        "/home/z/.config/com.goblinengineering.uplink"
    );
    assert_eq!(
        app_config_dir(Platform::MacOs, None, Some("/Users/z"), None),
        "/Users/z/Library/Application Support/com.goblinengineering.uplink"
    );
    assert_eq!(
        app_config_dir(Platform::Windows, None, None, Some("C:\\Data")),
        "C:\\Data\\com.goblinengineering.uplink"
    );
    assert_eq!(app_config_dir(Platform::Windows, None, Some("/x"), None), ".");
}

#[test]
fn windows_show_and_hide() {
    let mut c = AppConfig::default();
    assert!(shows_window(&c, &args(&["app", "--hidden"])));
    c.onboarded = true;
    assert!(!shows_window(&c, &args(&["app"])));
    c.start_in_tray = false;
    assert!(shows_window(&c, &args(&["app"])));
    assert!(!shows_window(&c, &args(&["app", "--hidden"])));
    assert_eq!(tray_click(true, 1000, 0), TrayAction::Hide);
    assert_eq!(tray_click(false, 1000, 751), TrayAction::Nothing);
    assert_eq!(tray_click(false, 1000, 750), TrayAction::Show);
    assert!(hides_on_close("main") && hides_on_close("tray") && !hides_on_close("x"));
    assert!(hides_on_blur("tray") && !hides_on_blur("main"));
}

#[test]
fn background_work_has_its_pace() {
    let mut c = AppConfig::default();
    c.sync_interval_secs = 1;
    assert_eq!(sync_pause(&c), 30);
    c.sync_interval_secs = 900;
    assert_eq!(sync_pause(&c), 900);
    let today = CalendarDay { year: 2026, month: 7, day: 15 };
    assert_eq!(first_pass_day(true, today), Some(today));
    assert_eq!(first_pass_day(false, today), None);
    let noon = TimeOfDay { secs: 12 * 3600 };
    assert!(pass_runs(&c, noon, today, None));
    assert!(!pass_runs(&c, noon, today, Some(today)));
    c.auto_update_enabled = false;
    assert!(!pass_runs(&c, noon, today, None));
}

#[test]
fn a_file_is_summed_up() {
    let x = parse_export_str(
        br#"X = { _registry = { place = { items = { 1, 2 } }, char = { items = { 1 } }, odd = 3 },
            streams = { s = { { k = "b" }, { k = "a" }, { k = "b" }, {} } } }"#,
        "X",
    )
    .unwrap();
    assert_eq!(
        registry_counts(&x.registry),
        vec![("char".to_string(), 1), ("odd".to_string(), 0), ("place".to_string(), 2)]
    );
    let k = kind_counts(&x.streams.get("s").unwrap().entries);
    assert_eq!(k.len(), 3);
    assert_eq!(k.get("a"), Some(&1));
    assert_eq!(k.get("b"), Some(&2));
    assert_eq!(k.get("(none)"), Some(&1));
    assert_eq!(kind_counts(&vec![Json::Null]).get("(none)"), Some(&1));
}
