use gec_uplink::catalog::{apply_pairing, pair_request, unpair, PairAccount, PairResponse};
use gec_uplink::commands::{
    add_install, add_install_as, addons_dir_of, dismiss_broadcast, failed_update, install_label,
    list_sync_accounts, mark_onboarded, record_install, record_uninstall, record_update,
    remove_install, reset_addons, set_account_alias, set_addon_auto_update, set_addon_selected,
    set_addon_sync, set_addon_version, set_auto_update, set_auto_update_time, set_base_url,
    set_install_auto_update_all, set_self_update_channel, set_start_in_tray, set_sync_accounts,
    set_sync_interval, set_sync_while_running, set_theme, uninstall_target, update_install,
    written_folder,
};
use gec_uplink::config::{AppConfig, DEFAULT_BASE_URL};

const ADDONS: &str = "/wow/_retail_/Interface/AddOns";

fn cfg() -> AppConfig {
    let mut c = AppConfig::default();
    add_install_as(&mut c, "i1".to_string(), ADDONS, "", "host", true);
    c
}

#[test]
fn preferences_are_set() {
    let mut c = AppConfig::default();
    set_theme(&mut c, "night".to_string());
    assert_eq!(c.theme, "night");
    set_base_url(&mut c, " https://x.example// ", None);
    assert_eq!(c.base_url, "https://x.example");
    set_base_url(&mut c, "  ", None);
    assert_eq!(c.base_url, DEFAULT_BASE_URL);
    set_base_url(&mut c, "", Some("http://dev".to_string()));
    assert_eq!(c.base_url, "http://dev");
    set_sync_while_running(&mut c, true);
    assert!(c.sync_while_running);
    set_sync_interval(&mut c, 0);
    assert_eq!(c.sync_interval_secs, 30);
    set_sync_interval(&mut c, 60);
    assert_eq!(c.sync_interval_secs, 60);
    set_self_update_channel(&mut c, " dev ");
    assert_eq!(c.self_update_channel, "dev");
    set_self_update_channel(&mut c, " ");
    assert_eq!(c.self_update_channel, "public");
    set_auto_update(&mut c, false);
    assert!(!c.auto_update_enabled);
    set_auto_update_time(&mut c, "04:30".to_string());
    assert_eq!(c.auto_update_time, "04:30");
    set_auto_update_time(&mut c, "late".to_string());
    assert_eq!(c.auto_update_time, "03:00");
    set_start_in_tray(&mut c, false);
    assert!(!c.start_in_tray);
    dismiss_broadcast(&mut c, 4);
    assert_eq!(c.dismissed_broadcast, Some(4));
    assert!(mark_onboarded(&mut c));
    assert!(c.onboarded);
    assert!(!mark_onboarded(&mut c));
}

#[test]
fn aliases_are_kept_until_they_are_emptied() {
    let mut c = AppConfig::default();
    assert_eq!(set_account_alias(&mut c, " ALICE ", " Main "), Ok(()));
    assert_eq!(c.account_aliases.get("ALICE").unwrap(), "Main");
    assert_eq!(set_account_alias(&mut c, "ALICE", " "), Ok(()));
    assert!(c.account_aliases.get("ALICE").is_none());
    assert_eq!(set_account_alias(&mut c, "  ", "x"), Err("empty account".to_string()));
}

#[test]
fn pairing_is_kept_and_undone() {
    let r = pair_request(" ab-cd ", "linux", "1.0");
    assert_eq!(r.code, "AB-CD");
    assert_eq!(r.name, "");
    assert_eq!(r.platform, "linux");
    assert_eq!(r.app, "gec-uplink");
    assert_eq!(r.app_version, "1.0");
    let mut c = AppConfig::default();
    let resp = PairResponse {
        token: "t".to_string(),
        device_id: 9,
        name: Some(" Tower ".to_string()),
        account: PairAccount {
            handle: "zeph".to_string(),
            tier: None,
            role: "user".to_string(),
            channels: vec!["dev".to_string()],
        },
    };
    let a = apply_pairing(&mut c, &resp);
    assert_eq!(a.handle, "zeph");
    assert_eq!(c.device_id, Some(9));
    assert_eq!(c.device_name.as_deref(), Some("Tower"));
    assert_eq!(c.account.as_ref().unwrap().channels, vec!["dev".to_string()]);
    unpair(&mut c);
    assert_eq!(c.device_id, None);
    assert!(c.account.is_none());
}

#[test]
fn installs_are_added_once() {
    let mut c = cfg();
    assert_eq!(c.installs[0].label, "host");
    assert_eq!(c.installs[0].flavor, "Retail");
    assert_eq!(c.installs[0].channel, "public");
    assert!(c.installs[0].auto_update);
    let again = add_install(&mut c, "/WOW/_retail_/Interface/AddOns/", "x", "host", true);
    assert_eq!(again.id, "i1");
    assert_eq!(c.installs.len(), 1);
    let other = add_install(&mut c, "/wow/_classic_/Interface/AddOns", " Mine ", "host", false);
    assert_eq!(other.label, "Mine");
    assert_eq!(other.flavor, "Classic");
    assert_eq!(other.id.len(), 36);
    assert!(!other.online);
    assert_ne!(other.id, add_install(&mut c, "/z", "", "host", false).id);
    assert_eq!(c.installs.len(), 3);
    remove_install(&mut c, "i1");
    assert_eq!(c.installs.len(), 2);
    c.device_name = Some("Tower".to_string());
    assert_eq!(install_label(&c, "host"), "Tower");
    c.device_name = Some("  ".to_string());
    assert_eq!(install_label(&c, "host"), "host");
}

#[test]
fn installs_are_changed_by_id() {
    let mut c = cfg();
    assert!(update_install(&mut c, "i1", " New ", "dev".to_string(), false).is_ok());
    assert_eq!(c.installs[0].label, "New");
    assert_eq!(c.installs[0].channel, "dev");
    assert!(!c.installs[0].auto_update);
    assert!(update_install(&mut c, "i1", " ", "public".to_string(), true).is_ok());
    assert_eq!(c.installs[0].label, "New");
    assert_eq!(
        update_install(&mut c, "i2", "", String::new(), true),
        Err("unknown install".to_string())
    );
}

#[test]
fn addons_are_changed_one_by_one() {
    let mut c = cfg();
    assert!(set_addon_selected(&mut c, "i1", "sbf", true).is_ok());
    assert!(c.installs[0].addons[0].enabled);
    assert!(c.installs[0].addons[0].auto_update);
    assert!(set_addon_auto_update(&mut c, "i1", "sbf", false).is_ok());
    assert!(!c.installs[0].addons[0].auto_update);
    // a known addon keeps its own switch
    assert!(set_addon_selected(&mut c, "i1", "sbf", true).is_ok());
    assert!(!c.installs[0].addons[0].auto_update);
    assert!(set_addon_sync(&mut c, "i1", "sbf", false).is_ok());
    assert!(!c.installs[0].addons[0].sync);
    assert!(set_addon_version(&mut c, "i1", "sbf", Some("1.0".to_string()), Some(String::new())).is_ok());
    assert_eq!(c.installs[0].addons[0].pinned_version.as_deref(), Some("1.0"));
    assert_eq!(c.installs[0].addons[0].channel_override, None);
    assert!(set_addon_version(&mut c, "i1", "sbf", None, Some("dev".to_string())).is_ok());
    assert_eq!(c.installs[0].addons[0].pinned_version, None);
    assert!(set_install_auto_update_all(&mut c, "i1", true).is_ok());
    assert!(c.installs[0].addons[0].auto_update);
    assert!(set_addon_auto_update(&mut c, "i1", "sbf", false).is_ok());
    assert!(reset_addons(&mut c, "i1").is_ok());
    assert!(c.installs[0].addons[0].auto_update);
    assert_eq!(c.installs[0].addons[0].channel_override, None);
    for r in [
        set_addon_selected(&mut c, "x", "sbf", true),
        set_addon_auto_update(&mut c, "x", "sbf", true),
        set_addon_sync(&mut c, "x", "sbf", true),
        set_addon_version(&mut c, "x", "sbf", None, None),
        set_install_auto_update_all(&mut c, "x", true),
        reset_addons(&mut c, "x"),
        record_uninstall(&mut c, "x", "sbf"),
        set_sync_accounts(&mut c, "x", &vec![]),
    ] {
        assert_eq!(r, Err("unknown install".to_string()));
    }
}

#[test]
fn what_was_installed_is_recorded() {
    let mut c = cfg();
    assert_eq!(addons_dir_of(&c, "i1"), Ok(ADDONS.to_string()));
    assert_eq!(addons_dir_of(&c, "x"), Err("unknown install".to_string()));
    assert_eq!(written_folder(&vec!["Haul".to_string()], "sbf"), "Haul");
    assert_eq!(written_folder(&vec![], "sbf"), "SBF");
    assert_eq!(
        record_install(&mut c, "i1", "sbf", "1.0", "SBF", 12),
        Ok("Installed SBF 1.0 (12 files)".to_string())
    );
    let a = &c.installs[0].addons[0];
    assert!(a.enabled);
    assert_eq!(a.installed_version.as_deref(), Some("1.0"));
    assert_eq!(a.folder.as_deref(), Some("SBF"));
    assert_eq!(record_update(&mut c, "i1", "sbf", "1.1", "SBF"), "SBF \u{2192} 1.1");
    assert_eq!(c.installs[0].addons[0].installed_version.as_deref(), Some("1.1"));
    assert_eq!(failed_update("sbf", "offline"), "sbf: FAILED (offline)");
    assert_eq!(uninstall_target(&c, "i1", "sbf"), Ok((ADDONS.to_string(), "SBF".to_string())));
    assert_eq!(uninstall_target(&c, "i1", "haul"), Ok((ADDONS.to_string(), "Haul".to_string())));
    assert!(uninstall_target(&c, "x", "sbf").is_err());
    assert_eq!(record_uninstall(&mut c, "i1", "sbf"), Ok(()));
    let a = &c.installs[0].addons[0];
    assert!(!a.enabled);
    assert_eq!(a.installed_version, None);
    assert_eq!(a.folder, None);
}

#[test]
fn a_new_install_syncs_all_accounts_until_the_user_chooses() {
    let mut c = cfg();
    let found = vec!["ALICE".to_string(), "BOB".to_string()];
    let v = list_sync_accounts(&mut c, "i1", &found).unwrap();
    assert!(v[0].selected && v[1].selected);
    assert!(c.installs[0].accounts_initialized);
    let chosen = vec!["BOB".to_string(), String::new(), "BOB".to_string()];
    assert!(set_sync_accounts(&mut c, "i1", &chosen).is_ok());
    assert_eq!(c.installs[0].sync_accounts, vec!["BOB".to_string()]);
    let v = list_sync_accounts(&mut c, "i1", &found).unwrap();
    assert_eq!(v[0].account, "ALICE");
    assert!(!v[0].selected && v[1].selected);
    // an emptied selection stays empty
    assert!(set_sync_accounts(&mut c, "i1", &vec![]).is_ok());
    let v = list_sync_accounts(&mut c, "i1", &found).unwrap();
    assert!(!v[0].selected && !v[1].selected);
    assert!(list_sync_accounts(&mut c, "x", &found).is_err());
}
