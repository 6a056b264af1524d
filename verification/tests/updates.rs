use gec_uplink::catalog::{Catalog, CatalogAddon, ChannelLatest, ReleaseRow};
use gec_uplink::config::{AppConfig, Install, InstalledAddon};
use gec_uplink::paths::PathStyle;
use gec_uplink::textmap::TextMap;
use gec_uplink::updates::{
    automatic_items, compute_orphans, compute_reconcile, compute_updates, download_of,
    installs_report, items_of_install, reconcile_installed, take_outcome, Download, UpdateItem,
};
use gec_uplink::version::{is_newer, version_compare};

fn addon_def(slug: &str) -> CatalogAddon {
    CatalogAddon {
        slug: slug.to_string(),
        name: slug.to_string(),
        short: String::new(),
        status: String::new(),
        blurb: String::new(),
        github_repo: None,
        channels: TextMap::new(),
        releases: vec![],
        flavors: vec![],
    }
}

fn cat(slugs: &[&str]) -> Catalog {
    Catalog {
        schema: String::new(),
        channel_defs: vec![],
        addons: slugs.iter().map(|s| addon_def(s)).collect(),
    }
}

fn addon(slug: &str, installed: Option<&str>, folder: Option<&str>) -> InstalledAddon {
    let mut a = InstalledAddon::new(slug);
    a.installed_version = installed.map(|s| s.to_string());
    a.folder = folder.map(|s| s.to_string());
    a
}

fn cfg_with(addons: Vec<InstalledAddon>) -> AppConfig {
    let mut c = AppConfig::default();
    c.installs = vec![Install {
        id: "i1".to_string(),
        label: "PC".to_string(),
        path: "/x".to_string(),
        flavor: "Retail".to_string(),
        channel: "public".to_string(),
        auto_update: true,
        sync_accounts: vec![],
        accounts_initialized: false,
        addons,
        online: false,
    }];
    c
}

#[test]
fn prunes_rename_orphan_with_no_folder() {
    let cfg = cfg_with(vec![
        addon("megaphone", Some("2026.07.16.1"), Some("Megaphone")),
        addon("towncryer", Some("0.1.3"), None),
    ]);
    assert_eq!(
        compute_orphans(&cfg, &cat(&["megaphone", "sbf"])),
        vec![("i1".to_string(), "towncryer".to_string())]
    );
}

#[test]
fn prunes_orphan_shadowing_a_live_folder() {
    let cfg = cfg_with(vec![
        addon("gec-console", Some("2026.07.18.4"), Some("GEC-Console")),
        addon("console", Some("2026.07.18.4"), Some("GEC-Console")),
    ]);
    assert_eq!(
        compute_orphans(&cfg, &cat(&["gec-console"])),
        vec![("i1".to_string(), "console".to_string())]
    );
}

#[test]
fn keeps_installed_addon_absent_from_catalog() {
    let cfg = cfg_with(vec![addon("foo", Some("1.2.3"), Some("Foo"))]);
    assert!(compute_orphans(&cfg, &cat(&["sbf", "haul"])).is_empty());
}

#[test]
fn empty_catalog_prunes_nothing() {
    let cfg = cfg_with(vec![addon("towncryer", None, None)]);
    assert!(compute_orphans(&cfg, &cat(&[])).is_empty());
}

#[test]
fn in_catalog_addon_never_pruned() {
    let cfg = cfg_with(vec![addon("sbf", Some("2026.07.25.2"), Some("SBF"))]);
    assert!(compute_orphans(&cfg, &cat(&["sbf"])).is_empty());
}

#[test]
fn numeric_not_string() {
    assert!(is_newer("2026.07.10.2", "2026.07.9.1"));
    assert!(!is_newer("2026.07.05.5", "2026.07.05.5"));
    assert!(is_newer("2026.07.12.1", "2026.07.10.2"));
}

#[test]
fn versions_of_different_lengths_are_filled_with_zeros() {
    assert_eq!(version_compare("1.2", "1.2.0"), std::cmp::Ordering::Equal);
    assert_eq!(version_compare("1.2", "1.2.1"), std::cmp::Ordering::Less);
    assert_eq!(version_compare("1.3", "1.2.9"), std::cmp::Ordering::Greater);
    assert_eq!(version_compare("1.x", "1.0"), std::cmp::Ordering::Equal);
}

fn catalog_with_releases() -> Catalog {
    let mut def = addon_def("sbf");
    def.flavors = vec!["Retail".to_string()];
    def.channels.insert(
        "public".to_string(),
        ChannelLatest { version: "2.0".to_string(), url: "https://s/2.0".to_string() },
    );
    def.releases = vec![ReleaseRow {
        channel: "public".to_string(),
        version: "1.5".to_string(),
        url: "https://s/1.5".to_string(),
        published_at: String::new(),
    }];
    Catalog { schema: String::new(), channel_defs: vec![], addons: vec![def] }
}

fn on(mut a: InstalledAddon) -> InstalledAddon {
    a.enabled = true;
    a
}

#[test]
fn an_addon_that_is_behind_is_offered_its_channel() {
    let cat = catalog_with_releases();
    let cfg = cfg_with(vec![on(addon("sbf", Some("1.0"), None))]);
    let items = compute_updates(&cfg, &cat, &vec![true]);
    assert_eq!(
        items,
        vec![UpdateItem {
            install_id: "i1".to_string(),
            slug: "sbf".to_string(),
            installed: Some("1.0".to_string()),
            latest: "2.0".to_string(),
            url: "https://s/2.0".to_string(),
            channel: "public".to_string(),
        }]
    );
    // an install that is not there is offered nothing
    assert!(compute_updates(&cfg, &cat, &vec![false]).is_empty());
    // nor is one with another flavor
    let mut other = cfg_with(vec![on(addon("sbf", Some("1.0"), None))]);
    other.installs[0].flavor = "Classic".to_string();
    assert!(compute_updates(&other, &cat, &vec![true]).is_empty());
    // nor an addon that is switched off, or not installed
    assert!(compute_updates(&cfg_with(vec![addon("sbf", Some("1.0"), None)]), &cat, &vec![true]).is_empty());
    assert!(compute_updates(&cfg_with(vec![on(addon("sbf", None, None))]), &cat, &vec![true]).is_empty());
}

#[test]
fn a_pinned_addon_is_switched_back_but_never_updated_back() {
    let cat = catalog_with_releases();
    let mut a = on(addon("sbf", Some("2.0"), None));
    a.pinned_version = Some("1.5".to_string());
    let cfg = cfg_with(vec![a]);
    assert!(compute_updates(&cfg, &cat, &vec![true]).is_empty());
    let items = compute_reconcile(&cfg, &cat, "i1", true);
    assert_eq!(items.len(), 1);
    assert_eq!(items[0].latest, "1.5");
    assert_eq!(items[0].url, "https://s/1.5");
    assert!(compute_reconcile(&cfg, &cat, "i1", false).is_empty());
    assert!(compute_reconcile(&cfg, &cat, "i2", true).is_empty());
    // a pin that the channel does not have leaves the addon alone
    let mut b = on(addon("sbf", Some("2.0"), None));
    b.pinned_version = Some("1.4".to_string());
    assert!(compute_reconcile(&cfg_with(vec![b]), &cat, "i1", true).is_empty());
}

#[test]
fn items_are_kept_by_install_and_by_automatic_updates() {
    let cat = catalog_with_releases();
    let mut cfg = cfg_with(vec![on(addon("sbf", Some("1.0"), None))]);
    assert_eq!(items_of_install(compute_updates(&cfg, &cat, &vec![true]), "i1").len(), 1);
    assert!(items_of_install(compute_updates(&cfg, &cat, &vec![true]), "i2").is_empty());
    cfg.installs[0].addons[0].auto_update = true;
    cfg.auto_update_enabled = true;
    assert_eq!(automatic_items(&cfg, compute_updates(&cfg, &cat, &vec![true])).len(), 1);
    cfg.auto_update_enabled = false;
    assert!(automatic_items(&cfg, compute_updates(&cfg, &cat, &vec![true])).is_empty());
    cfg.auto_update_enabled = true;
    cfg.installs[0].addons[0].auto_update = false;
    assert!(automatic_items(&cfg, compute_updates(&cfg, &cat, &vec![true])).is_empty());
}

#[test]
fn records_follow_the_disk() {
    let mut cfg = cfg_with(vec![
        addon("haul", Some("1.0"), Some("Haul")),
        addon("towncryer", Some("0.1"), None),
    ]);
    reconcile_installed(
        &mut cfg,
        &cat(&["sbf", "haul"]),
        &vec![Some(vec![Some("3.1".to_string()), None])],
    );
    let a = &cfg.installs[0].addons;
    assert_eq!(a.len(), 2);
    assert_eq!(a[0].slug, "haul");
    assert_eq!(a[0].installed_version, None);
    assert_eq!(a[1].slug, "sbf");
    assert_eq!(a[1].installed_version.as_deref(), Some("3.1"));
    assert!(a[1].enabled);
}

#[test]
fn installs_that_are_not_there_keep_their_versions() {
    let mut cfg = cfg_with(vec![addon("haul", Some("1.0"), Some("Haul"))]);
    reconcile_installed(&mut cfg, &cat(&["haul"]), &vec![None]);
    assert_eq!(cfg.installs[0].addons[0].installed_version.as_deref(), Some("1.0"));
}

#[test]
fn only_installs_that_are_there_are_reported() {
    let cfg = cfg_with(vec![addon("sbf", Some("1.0"), None), addon("haul", None, None)]);
    assert!(installs_report(PathStyle::Unix, &cfg, false, &vec![true]).is_none());
    assert!(installs_report(PathStyle::Unix, &cfg, true, &vec![false]).is_none());
    let r = installs_report(PathStyle::Unix, &cfg, true, &vec![true]).unwrap();
    assert_eq!(r.schema, "gec.installs/1");
    assert_eq!(r.installs.len(), 1);
    assert_eq!(r.installs[0].install, "PC \u{b7} Retail");
    assert_eq!(r.installs[0].addons.len(), 1);
    assert_eq!(r.installs[0].addons[0].name, "sbf");
    assert_eq!(r.installs[0].addons[0].version, "1.0");
    assert_eq!(r.installs[0].addons[0].channel, "public");
}

#[test]
fn an_update_is_fetched_and_recorded() {
    let cat = catalog_with_releases();
    let mut cfg = cfg_with(vec![on(addon("sbf", Some("1.0"), None))]);
    let mut items = compute_updates(&cfg, &cat, &vec![true]);
    items[0].url = "https://old.example/api/download/sbf".to_string();
    assert_eq!(
        download_of(&cfg, &items[0], "https://a.example"),
        Some(Download {
            url: "https://a.example/api/download/sbf".to_string(),
            dir: "/x".to_string(),
        })
    );
    assert_eq!(
        take_outcome(&mut cfg, &items[0], &Err("offline".to_string())),
        "sbf: FAILED (offline)"
    );
    assert_eq!(cfg.installs[0].addons[0].installed_version.as_deref(), Some("1.0"));
    assert_eq!(take_outcome(&mut cfg, &items[0], &Ok(vec![])), "SBF \u{2192} 2.0");
    assert_eq!(cfg.installs[0].addons[0].installed_version.as_deref(), Some("2.0"));
    assert_eq!(cfg.installs[0].addons[0].folder.as_deref(), Some("SBF"));
    cfg.installs.clear();
    assert_eq!(download_of(&cfg, &items[0], "https://a.example"), None);
}
