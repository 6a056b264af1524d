use gec_uplink::config::{
    default_base_url, is_flatpak, save_temp_name, Account, AppConfig, AppState, Install,
    InstalledAddon, DEFAULT_BASE_URL,
};

fn cfg_with_cursor() -> AppConfig {
    let mut cfg = AppConfig::default();
    let st = cfg.stream_state_mut("inst", "ACCT", "sbf", "fishlog");
    st.cursor = "42".to_string();
    st.total = 100;
    st.file_mtime = Some(1_700_000_000);
    cfg
}

fn install(id: &str, path: &str) -> Install {
    Install {
        id: id.to_string(),
        label: "PC".to_string(),
        path: path.to_string(),
        flavor: "Retail".to_string(),
        channel: "public".to_string(),
        auto_update: true,
        sync_accounts: vec![],
        accounts_initialized: false,
        addons: vec![],
        online: false,
    }
}

#[test]
fn resync_newer_stamp_triggers_and_records_honored() {
    let mut cfg = cfg_with_cursor();
    assert!(cfg.last_resync_honored.is_none());
    // the first stamp, with none honored before, triggers
    assert!(cfg.honor_resync_signal(Some("2026-07-13T10:00:00Z")));
    assert_eq!(cfg.last_resync_honored.as_deref(), Some("2026-07-13T10:00:00Z"));
    assert_eq!(cfg.cursor_of("inst", "ACCT", "sbf", "fishlog"), "");
    assert_eq!(cfg.sync[0].file_mtime, None);

    // a newer stamp triggers again
    cfg.stream_state_mut("inst", "ACCT", "sbf", "fishlog").cursor = "99".to_string();
    assert!(cfg.honor_resync_signal(Some("2026-07-13T12:30:00Z")));
    assert_eq!(cfg.last_resync_honored.as_deref(), Some("2026-07-13T12:30:00Z"));
    assert_eq!(cfg.cursor_of("inst", "ACCT", "sbf", "fishlog"), "");
}

#[test]
fn resync_equal_or_older_or_null_does_not_trigger() {
    let mut cfg = cfg_with_cursor();
    cfg.last_resync_honored = Some("2026-07-13T12:00:00Z".to_string());

    assert!(!cfg.honor_resync_signal(Some("2026-07-13T12:00:00Z")));
    assert_eq!(cfg.cursor_of("inst", "ACCT", "sbf", "fishlog"), "42");

    assert!(!cfg.honor_resync_signal(Some("2026-07-13T09:00:00Z")));
    assert_eq!(cfg.cursor_of("inst", "ACCT", "sbf", "fishlog"), "42");

    assert!(!cfg.honor_resync_signal(None));
    assert!(!cfg.honor_resync_signal(Some("")));
    assert!(!cfg.honor_resync_signal(Some("   ")));

    assert_eq!(cfg.last_resync_honored.as_deref(), Some("2026-07-13T12:00:00Z"));
    assert_eq!(cfg.cursor_of("inst", "ACCT", "sbf", "fishlog"), "42");
}

#[test]
fn zero_all_cursors_counts_and_clears() {
    let mut cfg = cfg_with_cursor();
    assert_eq!(cfg.zero_all_cursors(), 1);
    assert_eq!(cfg.cursor_of("inst", "ACCT", "sbf", "fishlog"), "");
    assert_eq!(cfg.sync[0].queued, cfg.sync[0].total);
    assert_eq!(cfg.zero_all_cursors(), 0);
}

#[test]
fn addon_new_defaults_sync_on_and_gate_needs_enabled_and_sync() {
    let a = InstalledAddon::new("sbf");
    assert!(a.sync);
    assert!(!a.enabled);
    let gate = |enabled: bool, sync: bool| {
        let mut x = InstalledAddon::new("sbf");
        x.enabled = enabled;
        x.sync = sync;
        assert_eq!(x.may_sync(), x.enabled && x.sync);
        x.enabled && x.sync
    };
    assert!(gate(true, true));
    assert!(!gate(true, false));
    assert!(!gate(false, true));
    assert!(!gate(false, false));
}

#[test]
fn purge_sync_state_drops_everything() {
    let mut cfg = cfg_with_cursor();
    assert_eq!(cfg.sync.len(), 1);
    assert_eq!(cfg.purge_sync_state(), 1);
    assert!(cfg.sync.is_empty());
    assert_eq!(cfg.purge_sync_state(), 0);
}

#[test]
fn a_new_configuration_has_the_defaults() {
    let cfg = AppConfig::default();
    assert_eq!(cfg.base_url, DEFAULT_BASE_URL);
    assert_eq!(cfg.self_update_channel, "public");
    assert!(cfg.auto_update_enabled);
    assert!(cfg.start_in_tray);
    assert_eq!(cfg.auto_update_time, "03:00");
    assert_eq!(cfg.theme, "workshop");
    assert_eq!(cfg.sync_interval_secs, 900);
    assert!(!cfg.onboarded);
    assert!(cfg.account.is_none());
}

#[test]
fn the_environment_can_replace_the_server() {
    assert_eq!(default_base_url(None), DEFAULT_BASE_URL);
    assert_eq!(default_base_url(Some("http://localhost:8787".to_string())), "http://localhost:8787");
    let cfg = AppConfig::with_env(Some("http://localhost:8787".to_string()));
    assert_eq!(cfg.base_url, "http://localhost:8787");
}

#[test]
fn a_resync_stamp_is_trimmed_before_it_is_kept() {
    let mut cfg = cfg_with_cursor();
    assert!(cfg.honor_resync_signal(Some(" 2026-07-13T10:00:00Z ")));
    assert_eq!(cfg.last_resync_honored.as_deref(), Some("2026-07-13T10:00:00Z"));
    // the same stamp does not trigger again
    assert!(!cfg.honor_resync_signal(Some("2026-07-13T10:00:00Z")));
}

#[test]
fn stream_states_are_found_by_all_four_names() {
    let mut cfg = AppConfig::default();
    cfg.stream_state_mut("i", "A", "sbf", "s").cursor = "1".to_string();
    cfg.stream_state_mut("i", "A", "sbf", "t").cursor = "2".to_string();
    cfg.stream_state_mut("i", "B", "sbf", "s").cursor = "3".to_string();
    assert_eq!(cfg.sync.len(), 3);
    assert_eq!(cfg.cursor_of("i", "A", "sbf", "s"), "1");
    assert_eq!(cfg.cursor_of("i", "A", "sbf", "t"), "2");
    assert_eq!(cfg.cursor_of("i", "B", "sbf", "s"), "3");
    assert_eq!(cfg.cursor_of("j", "A", "sbf", "s"), "");
    cfg.stream_state_mut("i", "A", "sbf", "s").cursor = "9".to_string();
    assert_eq!(cfg.sync.len(), 3);
    assert!(cfg.sync[0].matches("i", "A", "sbf", "s"));
    assert!(!cfg.sync[0].matches("i", "A", "sbf", "t"));
}

#[test]
fn addons_take_the_channel_of_their_install_unless_overridden() {
    let mut i = install("i1", "/x");
    i.channel = "beta".to_string();
    assert_eq!(i.channel_for("sbf"), "beta");
    i.addon_mut("sbf").channel_override = Some("dev".to_string());
    assert_eq!(i.channel_for("sbf"), "dev");
    assert_eq!(i.channel_for("haul"), "beta");
    assert_eq!(i.addons.len(), 1);
    // a second look finds the same record
    i.addon_mut("sbf").enabled = true;
    assert_eq!(i.addons.len(), 1);
}

#[test]
fn installs_are_found_by_id() {
    let mut cfg = AppConfig::default();
    cfg.installs = vec![install("a", "/x"), install("b", "/y")];
    assert_eq!(cfg.install_mut("b").unwrap().path, "/y");
    assert!(cfg.install_mut("c").is_none());
}

#[test]
fn a_snapshot_says_what_is_there_now() {
    let mut cfg = AppConfig::default();
    cfg.installs = vec![install("a", "/x"), install("b", "/y")];
    cfg.account = Some(Account {
        handle: "z".to_string(),
        tier: None,
        role: "user".to_string(),
        channels: vec!["dev".to_string()],
    });
    let state = AppState { config: cfg, config_path: "config.json".to_string() };
    let s = state.snapshot(true, false, &vec![true, false]);
    assert!(s.paired);
    assert!(!s.is_flatpak);
    assert!(s.installs[0].online);
    assert!(!s.installs[1].online);
    assert_eq!(s.account.unwrap().channels, vec!["dev".to_string()]);
    assert!(!state.config.paired);
}

#[test]
fn flatpak_is_told_by_either_sign() {
    assert!(is_flatpak(true, false));
    assert!(is_flatpak(false, true));
    assert!(!is_flatpak(false, false));
}

#[test]
fn temporary_files_have_names_of_their_own() {
    assert_eq!(save_temp_name(Some("config.json"), 12, 3), ".config.json.12.3.tmp");
    assert_ne!(save_temp_name(Some("config.json"), 12, 3), save_temp_name(Some("config.json"), 12, 4));
    assert_eq!(save_temp_name(None, 1, 0), ".config.json.1.0.tmp");
}
