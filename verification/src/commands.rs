//! What the user can change: preferences, installs, and the addons and accounts of an
//! install.
use vstd::prelude::*;

use crate::config::{
    addon_position,
    addon_row_at,
    addon_rows,
    default_base_url,
    install_ids,
    lemma_row_slugs,
    pause_of,
    same_install,
    slugs,
    with_addon_row,
    AddonView,
    AppConfig,
    Install,
    InstalledAddon,
    DEFAULT_BASE_URL,
};
use crate::delivery::{folder_guess, guessed_folder};
use crate::installs::{flavor_from_path, flavor_in, norm, norm_of};
use crate::number::{dec_of, dec_u64, number_of, u32_of};
use crate::schedule::{hhmm_of, law_due_from_the_target_on, parse_hhmm, CalendarDay, TimeOfDay};
use crate::seqs::{clone_texts, contains, first_at, lemma_first_at, opt_text};
use crate::sync::{effective_accounts, kept};
use crate::text::{
    is_space,
    join3,
    join4,
    join5,
    law_strip_takes_off_the_ends,
    law_trim_takes_off_outer_space,
    lowercase_of,
    same_text,
    strip_end,
    strip_end_of,
    texts,
    trim,
    trim_of,
};

verus! {

// ---------------------------------------------------------------------------
// Preferences
// ---------------------------------------------------------------------------

/// Sets the theme.
pub fn set_theme(cfg: &mut AppConfig, theme: String)
    ensures
        *final(cfg) == (AppConfig { theme, ..*old(cfg) }),
{
    cfg.theme = theme;
}

/// Sets the server: without white space around it and slashes at its end. A blank one
/// brings back the default.
pub fn set_base_url(cfg: &mut AppConfig, url: &str, env_override: Option<String>)
    ensures
        final(cfg).base_url@ == base_url_of(url@, opt_text(env_override)),
        *final(cfg) == (AppConfig { base_url: final(cfg).base_url, ..*old(cfg) }),
{
    let clean = strip_end(trim(url).as_str(), '/', '/');
    cfg.base_url =
    if clean.as_str().is_empty() {
        default_base_url(env_override)
    } else {
        clean
    };
}

/// Sets whether a background sync may run while the game does.
pub fn set_sync_while_running(cfg: &mut AppConfig, value: bool)
    ensures
        *final(cfg) == (AppConfig { sync_while_running: value, ..*old(cfg) }),
{
    cfg.sync_while_running = value;
}

/// Sets the seconds between two background syncs: 30 at least.
pub fn set_sync_interval(cfg: &mut AppConfig, secs: u64)
    ensures
        final(cfg).sync_interval_secs == pause_of(secs),
        *final(cfg) == (AppConfig {
            sync_interval_secs: final(cfg).sync_interval_secs,
            ..*old(cfg)
        }),
{
    cfg.sync_interval_secs =
    if secs < 30 {
        30
    } else {
        secs
    };
}

/// Sets the channel that the app itself is updated from: the public one if it is blank.
pub fn set_self_update_channel(cfg: &mut AppConfig, channel: &str)
    ensures
        final(cfg).self_update_channel@ == channel_chosen(channel@),
        *final(cfg) == (AppConfig {
            self_update_channel: final(cfg).self_update_channel,
            ..*old(cfg)
        }),
{
    let c = trim(channel);
    cfg.self_update_channel =
    if c.as_str().is_empty() {
        "public".to_string()
    } else {
        c
    };
}

/// Sets whether the daily update pass runs.
pub fn set_auto_update(cfg: &mut AppConfig, enabled: bool)
    ensures
        *final(cfg) == (AppConfig { auto_update_enabled: enabled, ..*old(cfg) }),
{
    cfg.auto_update_enabled = enabled;
}

/// Sets the time of the daily update pass: what is no time of day becomes `03:00`.
pub fn set_auto_update_time(cfg: &mut AppConfig, time: String)
    ensures
        final(cfg).auto_update_time@ == time_chosen(time@),
        *final(cfg) == (AppConfig { auto_update_time: final(cfg).auto_update_time, ..*old(cfg) }),
{
    cfg.auto_update_time =
    if parse_hhmm(time.as_str()).is_some() {
        time
    } else {
        "03:00".to_string()
    };
}

/// Sets whether to start without a window.
pub fn set_start_in_tray(cfg: &mut AppConfig, enabled: bool)
    ensures
        *final(cfg) == (AppConfig { start_in_tray: enabled, ..*old(cfg) }),
{
    cfg.start_in_tray = enabled;
}

/// Notes that the first run is over. Returns whether it was only now, in which case the
/// app is to be launched at login from here on.
pub fn mark_onboarded(cfg: &mut AppConfig) -> (first: bool)
    ensures
        first == !old(cfg).onboarded,
        *final(cfg) == (AppConfig { onboarded: true, ..*old(cfg) }),
{
    let first: bool = !cfg.onboarded;
    cfg.onboarded = true;
    first
}

/// Notes that a broadcast was dismissed.
pub fn dismiss_broadcast(cfg: &mut AppConfig, id: i64)
    ensures
        *final(cfg) == (AppConfig { dismissed_broadcast: Some(id), ..*old(cfg) }),
{
    cfg.dismissed_broadcast = Some(id);
}

/// Gives an account folder a display name; a blank one takes it away. Nothing else
/// changes.
pub fn set_account_alias(cfg: &mut AppConfig, account: &str, alias: &str) -> (r: Result<(), String>)
    ensures
        match r {
            Err(e) => trim_of(account@).len() == 0 && e@ == "empty account"@ && *final(cfg) == *old(
                cfg,
            ),
            Ok(_) => {
                &&& trim_of(account@).len() > 0
                &&& aliases_said(final(cfg).account_aliases@) == aliases_after(
                    aliases_said(old(cfg).account_aliases@),
                    account@,
                    alias@,
                )
                &&& if trim_of(alias@).len() == 0 {
                    final(cfg).account_aliases@ == old(cfg).account_aliases@.remove(
                        trim_of(account@),
                    )
                } else {
                    &&& final(cfg).account_aliases@.contains_key(trim_of(account@))
                    &&& final(cfg).account_aliases@[trim_of(account@)]@ == trim_of(alias@)
                    &&& final(cfg).account_aliases@ == old(cfg).account_aliases@.insert(
                        trim_of(account@),
                        final(cfg).account_aliases@[trim_of(account@)],
                    )
                }
                &&& *final(cfg) == (AppConfig {
                    account_aliases: final(cfg).account_aliases,
                    ..*old(cfg)
                })
            },
        },
{
    let name = trim(account);
    if name.as_str().is_empty() {
        return Err("empty account".to_string());
    }
    let label = trim(alias);
    if label.as_str().is_empty() {
        cfg.account_aliases.remove(name.as_str());
    } else {
        cfg.account_aliases.insert(name, label);
    }
    Ok(())
}

// ---------------------------------------------------------------------------
// Installs
// ---------------------------------------------------------------------------

/// The label of new installs: the name of the device unless it is blank, else that of the
/// machine.
pub open spec fn default_label(device_name: Option<Seq<char>>, machine: Seq<char>) -> Seq<char> {
    if device_name is Some && trim_of(device_name->0).len() > 0 {
        device_name->0
    } else {
        machine
    }
}

/// The label of new installs.
pub fn install_label(cfg: &AppConfig, machine: &str) -> (label: String)
    ensures
        label@ == default_label(opt_text(cfg.device_name), machine@),
{
    if let Some(n) = &cfg.device_name {
        if !trim(n.as_str()).as_str().is_empty() {
            return n.clone();
        }
    }
    machine.to_string()
}

/// What the paths of the installs are compared by.
pub open spec fn install_keys(installs: Seq<Install>) -> Seq<Seq<char>> {
    Seq::new(installs.len(), |i: int| norm_of(installs[i].path@))
}

/// What a new install holds.
pub open spec fn is_new_install(
    i: Install,
    id: Seq<char>,
    path: Seq<char>,
    label: Seq<char>,
    online: bool,
) -> bool {
    &&& i.id@ == id
    &&& i.label@ == label
    &&& i.path@ == path
    &&& i.flavor@ == flavor_in(lowercase_of(path), 0)
    &&& i.channel@ == "public"@
    &&& i.auto_update
    &&& i.sync_accounts@.len() == 0
    &&& !i.accounts_initialized
    &&& i.addons@.len() == 0
    &&& i.online == online
}

/// Whether `c` is a hexadecimal digit in lower case.
pub open spec fn is_hex_digit(c: char) -> bool {
    '0' <= c && c <= '9' || 'a' <= c && c <= 'f'
}

/// Whether `s` is a random id (UUID version 4) in lower case with hyphens.
pub open spec fn is_random_id(s: Seq<char>) -> bool {
    &&& s.len() == 36
    &&& forall|i: int|
        0 <= i < 36 ==> if i == 8 || i == 13 || i == 18 || i == 23 {
            #[trigger] s[i] == '-'
        } else {
            is_hex_digit(s[i])
        }
    &&& s[14] == '4'
    &&& s[19] == '8' || s[19] == '9' || s[19] == 'a' || s[19] == 'b'
}

/// Calls `uuid::Uuid::new_v4` and writes the id out with hyphens. Its digits are chosen at
/// random, but for those that state its version and variant.
#[verifier::external_body]
fn random_id() -> (id: String)
    ensures
        is_random_id(id@),
{
    uuid::Uuid::new_v4().to_string()
}

fn known_install(cfg: &AppConfig, key: &str) -> (p: usize)
    ensures
        p == first_at(install_keys(cfg.installs@), key@),
        p <= cfg.installs@.len(),
{
    let ghost keys = install_keys(cfg.installs@);
    proof {
        lemma_first_at(keys, key@);
    }
    let mut i: usize = 0;
    while i < cfg.installs.len()
        invariant
            keys == install_keys(cfg.installs@),
            i <= first_at(keys, key@) <= cfg.installs@.len(),
            first_at(keys, key@) < cfg.installs@.len() ==> keys[first_at(keys, key@)] == key@,
            forall|j: int| 0 <= j < first_at(keys, key@) ==> keys[j] != key@,
        decreases cfg.installs@.len() - i,
    {
        let n = norm(cfg.installs[i].path.as_str());
        proof {
            assert(keys[i as int] == n@);
        }
        if same_text(n.as_str(), key) {
            return i;
        }
        i = i + 1;
    }
    i
}

/// Adds the install at the real path `path` under the id `id`, unless there is one with
/// that path, which is returned then. A blank label becomes the default one.
pub fn add_install_as(
    cfg: &mut AppConfig,
    id: String,
    path: &str,
    label: &str,
    machine: &str,
    online: bool,
) -> (inst: Install)
    ensures
        ({
            let p = first_at(install_keys(old(cfg).installs@), norm_of(path@));
            if p < old(cfg).installs@.len() {
                &&& same_install(inst, old(cfg).installs@[p])
                &&& inst.online == old(cfg).installs@[p].online
                &&& *final(cfg) == *old(cfg)
            } else {
                &&& is_new_install(
                    inst,
                    id@,
                    path@,
                    label_given(
                        label@,
                        default_label(opt_text(old(cfg).device_name), machine@),
                    ),
                    online,
                )
                &&& final(cfg).installs@.len() == old(cfg).installs@.len() + 1
                &&& final(cfg).installs@.drop_last() == old(cfg).installs@
                &&& same_install(final(cfg).installs@.last(), inst)
                &&& final(cfg).installs@.last().online == online
                &&& *final(cfg) == (AppConfig { installs: final(cfg).installs, ..*old(cfg) })
            }
        }),
{
    let p: usize = known_install(cfg, norm(path).as_str());
    if p < cfg.installs.len() {
        return cfg.installs[p].clone();
    }
    let trimmed = trim(label);
    let label: String = if trimmed.as_str().is_empty() {
        install_label(cfg, machine)
    } else {
        trimmed
    };
    let inst = Install {
        id,
        label,
        path: path.to_string(),
        flavor: flavor_from_path(path),
        channel: "public".to_string(),
        auto_update: true,
        sync_accounts: Vec::new(),
        accounts_initialized: false,
        addons: Vec::new(),
        online,
    };
    let ghost before = cfg.installs@;
    let copy = inst.clone();
    cfg.installs.push(copy);
    proof {
        assert(cfg.installs@.drop_last() =~= before);
    }
    inst
}

/// Adds the install at the real path `path` under a new id, unless there is one with that
/// path.
pub fn add_install(
    cfg: &mut AppConfig,
    path: &str,
    label: &str,
    machine: &str,
    online: bool,
) -> (inst: Install)
    ensures
        ({
            let p = first_at(install_keys(old(cfg).installs@), norm_of(path@));
            if p < old(cfg).installs@.len() {
                &&& same_install(inst, old(cfg).installs@[p])
                &&& inst.online == old(cfg).installs@[p].online
                &&& *final(cfg) == *old(cfg)
            } else {
                &&& is_random_id(inst.id@)
                &&& is_new_install(
                    inst,
                    inst.id@,
                    path@,
                    label_given(
                        label@,
                        default_label(opt_text(old(cfg).device_name), machine@),
                    ),
                    online,
                )
                &&& final(cfg).installs@.len() == old(cfg).installs@.len() + 1
                &&& final(cfg).installs@.drop_last() == old(cfg).installs@
                &&& same_install(final(cfg).installs@.last(), inst)
                &&& final(cfg).installs@.last().online == online
                &&& *final(cfg) == (AppConfig { installs: final(cfg).installs, ..*old(cfg) })
            }
        }),
{
    add_install_as(cfg, random_id(), path, label, machine, online)
}

/// An install is added once: when it is there, its path is known.
pub proof fn law_install_is_added_once(installs: Seq<Install>, inst: Install)
    ensures
        first_at(install_keys(installs.push(inst)), norm_of(inst.path@)) < installs.len() + 1,
{
    let keys = install_keys(installs.push(inst));
    lemma_first_at(keys, norm_of(inst.path@));
    assert(keys[installs.len() as int] == norm_of(inst.path@));
}

/// The first `n` installs without those with the id `id`.
pub open spec fn installs_without(installs: Seq<Install>, id: Seq<char>, n: int) -> Seq<Install>
    decreases n,
{
    if n <= 0 {
        Seq::empty()
    } else {
        let before = installs_without(installs, id, n - 1);
        if installs[n - 1].id@ == id {
            before
        } else {
            before.push(installs[n - 1])
        }
    }
}

/// An install that says nothing: it holds the place of one that is moved out of a list.
fn blank_install() -> (i: Install)
    ensures
        i.id@ == Seq::<char>::empty(),
        i.label@ == Seq::<char>::empty(),
        i.path@ == Seq::<char>::empty(),
        i.flavor@ == Seq::<char>::empty(),
        i.channel@ == Seq::<char>::empty(),
        !i.auto_update,
        i.sync_accounts@ == Seq::<String>::empty(),
        !i.accounts_initialized,
        i.addons@ == Seq::<InstalledAddon>::empty(),
        !i.online,
{
    Install {
        id: String::new(),
        label: String::new(),
        path: String::new(),
        flavor: String::new(),
        channel: String::new(),
        auto_update: false,
        sync_accounts: Vec::new(),
        accounts_initialized: false,
        addons: Vec::new(),
        online: false,
    }
}

/// Removes the install `id`.
pub fn remove_install(cfg: &mut AppConfig, id: &str)
    ensures
        final(cfg).installs@ == installs_without(
            old(cfg).installs@,
            id@,
            old(cfg).installs@.len() as int,
        ),
        *final(cfg) == (AppConfig { installs: final(cfg).installs, ..*old(cfg) }),
{
    let ghost all = cfg.installs@;
    let mut rest: Vec<Install> = Vec::new();
    std::mem::swap(&mut rest, &mut cfg.installs);
    let mut kept: Vec<Install> = Vec::new();
    let n: usize = rest.len();
    let mut i: usize = 0;
    while i < n
        invariant
            i <= n == all.len(),
            rest@.len() == n,
            forall|j: int| i <= j < n ==> rest@[j] == all[j],
            kept@ == installs_without(all, id@, i as int),
        decreases n - i,
    {
        let mut inst = blank_install();
        std::mem::swap(&mut inst, &mut rest[i]);
        if !same_text(inst.id.as_str(), id) {
            kept.push(inst);
        }
        i = i + 1;
    }
    cfg.installs = kept;
}

/// What is said of an install that is not there.
pub open spec fn unknown_install() -> Seq<char> {
    "unknown install"@
}

/// Whether nothing changed but the install at `p`.
pub open spec fn only_install(before: AppConfig, after: AppConfig, p: int) -> bool {
    &&& 0 <= p < before.installs@.len()
    &&& after.installs@ == before.installs@.update(p, after.installs@[p])
    &&& after == (AppConfig { installs: after.installs, ..before })
}

/// Where the install `id` stands.
pub open spec fn install_at(cfg: AppConfig, id: Seq<char>) -> int {
    first_at(install_ids(cfg.installs@), id)
}

/// Whether the call failed because there is no install `id`, and nothing changed.
pub open spec fn no_install(before: AppConfig, after: AppConfig, id: Seq<char>, e: Seq<char>) -> bool {
    install_at(before, id) == before.installs@.len() && e == unknown_install() && after == before
}

/// Sets the label (unless it is blank), the channel and the update default of an install.
pub fn update_install(
    cfg: &mut AppConfig,
    id: &str,
    label: &str,
    channel: String,
    auto_update: bool,
) -> (r: Result<(), String>)
    ensures
        match r {
            Err(e) => no_install(*old(cfg), *final(cfg), id@, e@),
            Ok(_) => {
                let p = install_at(*old(cfg), id@);
                &&& only_install(*old(cfg), *final(cfg), p)
                &&& final(cfg).installs@[p].label@ == label_given(
                    label@,
                    old(cfg).installs@[p].label@,
                )
                &&& final(cfg).installs@[p] == (Install {
                    label: final(cfg).installs@[p].label,
                    channel,
                    auto_update,
                    ..old(cfg).installs@[p]
                })
            },
        },
{
    match cfg.install_mut(id) {
        Some(inst) => {
            let l = trim(label);
            if !l.as_str().is_empty() {
                inst.label = l;
            }
            inst.channel = channel;
            inst.auto_update = auto_update;
            Ok(())
        },
        None => Err("unknown install".to_string()),
    }
}

// ---------------------------------------------------------------------------
// Addons of an install
// ---------------------------------------------------------------------------

/// Whether nothing changed but the record of the addon `slug` of the install at `p`, which
/// says `row` now.
pub open spec fn only_addon(
    before: AppConfig,
    after: AppConfig,
    p: int,
    slug: Seq<char>,
    row: AddonView,
) -> bool {
    &&& only_install(before, after, p)
    &&& after.installs@[p] == (Install {
        addons: after.installs@[p].addons,
        ..before.installs@[p]
    })
    &&& addon_rows(after.installs@[p].addons@) == with_addon_row(
        addon_rows(before.installs@[p].addons@),
        slug,
        row,
    )
}

/// What the record of the addon `slug` of the install at `p` says.
pub open spec fn addon_row_of(cfg: AppConfig, p: int, slug: Seq<char>) -> AddonView {
    addon_row_at(addon_rows(cfg.installs@[p].addons@), slug)
}

/// Edits the record of an addon: hands out a reference to it.
fn edit_addon<'a>(cfg: &'a mut AppConfig, install_id: &str, slug: &str) -> (r: Option<
    &'a mut InstalledAddon,
>)
    ensures
        ({
            let p = install_at(*old(cfg), install_id@);
            match r {
                None => p == old(cfg).installs@.len() && *final(cfg) == *old(cfg),
                Some(a) => {
                    &&& 0 <= p < old(cfg).installs@.len()
                    &&& a@ == addon_row_of(*old(cfg), p, slug@)
                    &&& only_addon(*old(cfg), *final(cfg), p, slug@, final(a)@)
                },
            }
        }),
{
    let p: usize = cfg.install_position(install_id);
    if p == cfg.installs.len() {
        return None;
    }
    let ghost before = *cfg;
    let ghost addons = cfg.installs@[p as int].addons@;
    proof {
        lemma_row_slugs(addons);
        lemma_first_at(slugs(addons), slug@);
    }
    let inst = &mut cfg.installs[p];
    let a = inst.addon_mut(slug);
    let ghost k = first_at(slugs(addons), slug@);
    proof {
        let rows = addon_rows(addons);
        if k < addons.len() {
            assert(addon_rows(addons.update(k, *final(a))) =~= rows.update(k, final(a)@));
        } else {
            assert(addon_rows(addons.push(*final(a))) =~= rows.push(final(a)@));
        }
    }
    Some(a)
}

/// Enables or disables an addon of an install. A record that is new when it is enabled
/// takes the update default of the install.
pub fn set_addon_selected(
    cfg: &mut AppConfig,
    install_id: &str,
    slug: &str,
    enabled: bool,
) -> (r: Result<(), String>)
    ensures
        ({
            let p = install_at(*old(cfg), install_id@);
            match r {
                Err(e) => no_install(*old(cfg), *final(cfg), install_id@, e@),
                Ok(_) => {
                    let inst = old(cfg).installs@[p];
                    let start = addon_row_of(*old(cfg), p, slug@);
                    let is_new = !slugs(inst.addons@).contains(slug@);
                    only_addon(
                        *old(cfg),
                        *final(cfg),
                        p,
                        slug@,
                        selected_row(start, enabled, is_new, inst.auto_update),
                    )
                },
            }
        }),
{
    let p: usize = cfg.install_position(install_id);
    if p == cfg.installs.len() {
        return Err("unknown install".to_string());
    }
    let default_auto: bool = cfg.installs[p].auto_update;
    let is_new: bool = addon_position(&cfg.installs[p].addons, slug) == cfg.installs[p].addons.len();
    proof {
        lemma_first_at(slugs(cfg.installs@[p as int].addons@), slug@);
    }
    match edit_addon(cfg, install_id, slug) {
        Some(a) => {
            a.enabled = enabled;
            if enabled && is_new {
                a.auto_update = default_auto;
            }
            Ok(())
        },
        None => Err("unknown install".to_string()),
    }
}

/// Sets whether the daily pass updates an addon.
pub fn set_addon_auto_update(
    cfg: &mut AppConfig,
    install_id: &str,
    slug: &str,
    enabled: bool,
) -> (r: Result<(), String>)
    ensures
        ({
            let p = install_at(*old(cfg), install_id@);
            match r {
                Err(e) => no_install(*old(cfg), *final(cfg), install_id@, e@),
                Ok(_) => only_addon(
                    *old(cfg),
                    *final(cfg),
                    p,
                    slug@,
                    AddonView { auto_update: enabled, ..addon_row_of(*old(cfg), p, slug@) },
                ),
            }
        }),
{
    match edit_addon(cfg, install_id, slug) {
        Some(a) => {
            a.auto_update = enabled;
            Ok(())
        },
        None => Err("unknown install".to_string()),
    }
}

/// Sets whether the data of an addon is swept.
pub fn set_addon_sync(cfg: &mut AppConfig, install_id: &str, slug: &str, on: bool) -> (r: Result<
    (),
    String,
>)
    ensures
        ({
            let p = install_at(*old(cfg), install_id@);
            match r {
                Err(e) => no_install(*old(cfg), *final(cfg), install_id@, e@),
                Ok(_) => only_addon(
                    *old(cfg),
                    *final(cfg),
                    p,
                    slug@,
                    AddonView { sync: on, ..addon_row_of(*old(cfg), p, slug@) },
                ),
            }
        }),
{
    match edit_addon(cfg, install_id, slug) {
        Some(a) => {
            a.sync = on;
            Ok(())
        },
        None => Err("unknown install".to_string()),
    }
}

/// The text unless it is empty.
pub open spec fn unless_empty(s: Option<Seq<char>>) -> Option<Seq<char>> {
    if s is Some && s->0.len() > 0 {
        s
    } else {
        None
    }
}

fn drop_empty(s: Option<String>) -> (t: Option<String>)
    ensures
        opt_text(t) == unless_empty(opt_text(s)),
{
    match s {
        Some(x) => if x.as_str().is_empty() {
            None
        } else {
            Some(x)
        },
        None => None,
    }
}

/// Sets the version that an addon is held at and the channel that it is delivered from;
/// empty texts mean none.
pub fn set_addon_version(
    cfg: &mut AppConfig,
    install_id: &str,
    slug: &str,
    pinned_version: Option<String>,
    channel_override: Option<String>,
) -> (r: Result<(), String>)
    ensures
        ({
            let p = install_at(*old(cfg), install_id@);
            match r {
                Err(e) => no_install(*old(cfg), *final(cfg), install_id@, e@),
                Ok(_) => only_addon(
                    *old(cfg),
                    *final(cfg),
                    p,
                    slug@,
                    pinned_row(
                        addon_row_of(*old(cfg), p, slug@),
                        opt_text(pinned_version),
                        opt_text(channel_override),
                    ),
                ),
            }
        }),
{
    match edit_addon(cfg, install_id, slug) {
        Some(a) => {
            a.pinned_version = drop_empty(pinned_version);
            a.channel_override = drop_empty(channel_override);
            Ok(())
        },
        None => Err("unknown install".to_string()),
    }
}

/// What the records say when each has the update switch `auto_update`, and with `reset`
/// no channel of its own.
pub open spec fn all_switched(
    rows: Seq<AddonView>,
    auto_update: bool,
    reset: bool,
) -> Seq<AddonView> {
    Seq::new(
        rows.len(),
        |i: int|
            AddonView {
                auto_update,
                channel_override: if reset {
                    None
                } else {
                    rows[i].channel_override
                },
                ..rows[i]
            },
    )
}

fn switch_all(addons: &mut Vec<InstalledAddon>, auto_update: bool, reset: bool)
    ensures
        addon_rows(final(addons)@) == all_switched(addon_rows(old(addons)@), auto_update, reset),
{
    let ghost before = addon_rows(addons@);
    let ghost after = all_switched(before, auto_update, reset);
    let mut i: usize = 0;
    while i < addons.len()
        invariant
            before == addon_rows(old(addons)@),
            after == all_switched(before, auto_update, reset),
            addons@.len() == before.len(),
            i <= before.len(),
            forall|j: int| 0 <= j < i ==> (#[trigger] addons@[j])@ == after[j],
            forall|j: int| i <= j < before.len() ==> (#[trigger] addons@[j])@ == before[j],
        decreases before.len() - i,
    {
        proof {
            assert(addons@[i as int]@ == before[i as int]);
        }
        addons[i].auto_update = auto_update;
        if reset {
            addons[i].channel_override = None;
        }
        i = i + 1;
    }
    proof {
        assert(addon_rows(addons@) =~= after);
    }
}

/// Sets the update default of an install, and the switch of each of its addons with it.
pub fn set_install_auto_update_all(cfg: &mut AppConfig, install_id: &str, enabled: bool) -> (r:
    Result<(), String>)
    ensures
        ({
            let p = install_at(*old(cfg), install_id@);
            match r {
                Err(e) => no_install(*old(cfg), *final(cfg), install_id@, e@),
                Ok(_) => {
                    &&& only_install(*old(cfg), *final(cfg), p)
                    &&& final(cfg).installs@[p] == (Install {
                        auto_update: enabled,
                        addons: final(cfg).installs@[p].addons,
                        ..old(cfg).installs@[p]
                    })
                    &&& addon_rows(final(cfg).installs@[p].addons@) == all_switched(
                        addon_rows(old(cfg).installs@[p].addons@),
                        enabled,
                        false,
                    )
                },
            }
        }),
{
    match cfg.install_mut(install_id) {
        Some(inst) => {
            inst.auto_update = enabled;
            switch_all(&mut inst.addons, enabled, false);
            Ok(())
        },
        None => Err("unknown install".to_string()),
    }
}

/// Takes the addons of an install back to its defaults: its update default, and no channel
/// of their own.
pub fn reset_addons(cfg: &mut AppConfig, install_id: &str) -> (r: Result<(), String>)
    ensures
        ({
            let p = install_at(*old(cfg), install_id@);
            match r {
                Err(e) => no_install(*old(cfg), *final(cfg), install_id@, e@),
                Ok(_) => {
                    &&& only_install(*old(cfg), *final(cfg), p)
                    &&& final(cfg).installs@[p] == (Install {
                        addons: final(cfg).installs@[p].addons,
                        ..old(cfg).installs@[p]
                    })
                    &&& addon_rows(final(cfg).installs@[p].addons@) == all_switched(
                        addon_rows(old(cfg).installs@[p].addons@),
                        old(cfg).installs@[p].auto_update,
                        true,
                    )
                },
            }
        }),
{
    match cfg.install_mut(install_id) {
        Some(inst) => {
            let default_auto: bool = inst.auto_update;
            switch_all(&mut inst.addons, default_auto, true);
            Ok(())
        },
        None => Err("unknown install".to_string()),
    }
}

// ---------------------------------------------------------------------------
// Installing and removing addons
// ---------------------------------------------------------------------------

/// The addon folder of the install `install_id`.
pub fn addons_dir_of(cfg: &AppConfig, install_id: &str) -> (r: Result<String, String>)
    ensures
        match r {
            Ok(d) => install_at(*cfg, install_id@) < cfg.installs@.len() && d@
                == cfg.installs@[install_at(*cfg, install_id@)].path@,
            Err(e) => install_at(*cfg, install_id@) == cfg.installs@.len() && e@
                == unknown_install(),
        },
{
    let p: usize = cfg.install_position(install_id);
    if p < cfg.installs.len() {
        Ok(cfg.installs[p].path.clone())
    } else {
        Err("unknown install".to_string())
    }
}

/// The folder that an addon was installed to: the first that was written, else the one
/// that its slug suggests.
pub open spec fn folder_written(folders: Seq<Seq<char>>, slug: Seq<char>) -> Seq<char> {
    if folders.len() > 0 {
        folders[0]
    } else {
        guessed_folder(slug)
    }
}

/// The folder that an addon was installed to.
pub fn written_folder(folders: &Vec<String>, slug: &str) -> (f: String)
    ensures
        f@ == folder_written(texts(folders@), slug@),
{
    if folders.len() > 0 {
        proof {
            assert(texts(folders@)[0] == folders@[0]@);
        }
        folders[0].clone()
    } else {
        folder_guess(slug)
    }
}

/// Keeps that an addon was installed on request: it is enabled, with its version and
/// folder. Returns what the user is told.
pub fn record_install(
    cfg: &mut AppConfig,
    install_id: &str,
    slug: &str,
    version: &str,
    folder: &str,
    files: usize,
) -> (r: Result<String, String>)
    ensures
        ({
            let p = install_at(*old(cfg), install_id@);
            match r {
                Err(e) => no_install(*old(cfg), *final(cfg), install_id@, e@),
                Ok(said) => {
                    &&& said@ == "Installed "@ + folder@ + " "@ + version@ + (" ("@ + dec_of(
                        files as nat,
                    ) + " files)"@)
                    &&& only_addon(
                        *old(cfg),
                        *final(cfg),
                        p,
                        slug@,
                        installed_row(addon_row_of(*old(cfg), p, slug@), version@, folder@),
                    )
                },
            }
        }),
{
    match edit_addon(cfg, install_id, slug) {
        Some(a) => {
            a.enabled = true;
            a.installed_version = Some(version.to_string());
            a.folder = Some(folder.to_string());
            let count = join3(" (", dec_u64(files as u64).as_str(), " files)");
            Ok(join5("Installed ", folder, " ", version, count.as_str()))
        },
        None => Err("unknown install".to_string()),
    }
}

/// Keeps that an addon was updated: its version and folder. An install that is gone is
/// passed over. Returns what the user is told.
pub fn record_update(
    cfg: &mut AppConfig,
    install_id: &str,
    slug: &str,
    version: &str,
    folder: &str,
) -> (said: String)
    ensures
        said@ == folder@ + " \u{2192} "@ + version@,
        ({
            let p = install_at(*old(cfg), install_id@);
            if p < old(cfg).installs@.len() {
                only_addon(
                    *old(cfg),
                    *final(cfg),
                    p,
                    slug@,
                    updated_row(addon_row_of(*old(cfg), p, slug@), version@, folder@),
                )
            } else {
                *final(cfg) == *old(cfg)
            }
        }),
{
    if let Some(a) = edit_addon(cfg, install_id, slug) {
        a.installed_version = Some(version.to_string());
        a.folder = Some(folder.to_string());
    }
    join3(folder, " \u{2192} ", version)
}

/// What the user is told of an update that failed.
pub fn failed_update(slug: &str, error: &str) -> (said: String)
    ensures
        said@ == slug@ + ": FAILED ("@ + error@ + ")"@,
{
    join4(slug, ": FAILED (", error, ")")
}

/// The addon folder of an install and the folder of an addon in it: the one that it was
/// installed to, else the one that its slug suggests.
pub fn uninstall_target(cfg: &AppConfig, install_id: &str, slug: &str) -> (r: Result<
    (String, String),
    String,
>)
    ensures
        ({
            let p = install_at(*cfg, install_id@);
            match r {
                Err(e) => p == cfg.installs@.len() && e@ == unknown_install(),
                Ok((dir, folder)) => {
                    let row = addon_row_of(*cfg, p, slug@);
                    &&& p < cfg.installs@.len()
                    &&& dir@ == cfg.installs@[p].path@
                    &&& folder@ == match row.folder {
                        Some(f) => f,
                        None => guessed_folder(slug@),
                    }
                },
            }
        }),
{
    let p: usize = cfg.install_position(install_id);
    if p == cfg.installs.len() {
        return Err("unknown install".to_string());
    }
    let inst: &Install = &cfg.installs[p];
    let k: usize = addon_position(&inst.addons, slug);
    proof {
        lemma_row_slugs(inst.addons@);
        lemma_first_at(slugs(inst.addons@), slug@);
    }
    if k < inst.addons.len() {
        proof {
            assert(addon_rows(inst.addons@)[k as int] == inst.addons@[k as int]@);
        }
        if let Some(f) = &inst.addons[k].folder {
            return Ok((inst.path.clone(), f.clone()));
        }
    }
    Ok((inst.path.clone(), folder_guess(slug)))
}

/// Keeps that an addon was removed: it is disabled, without version and folder.
pub fn record_uninstall(cfg: &mut AppConfig, install_id: &str, slug: &str) -> (r: Result<
    (),
    String,
>)
    ensures
        ({
            let p = install_at(*old(cfg), install_id@);
            match r {
                Err(e) => no_install(*old(cfg), *final(cfg), install_id@, e@),
                Ok(_) => only_addon(
                    *old(cfg),
                    *final(cfg),
                    p,
                    slug@,
                    uninstalled_row(addon_row_of(*old(cfg), p, slug@)),
                ),
            }
        }),
{
    match edit_addon(cfg, install_id, slug) {
        Some(a) => {
            a.enabled = false;
            a.installed_version = None;
            a.folder = None;
            Ok(())
        },
        None => Err("unknown install".to_string()),
    }
}

// ---------------------------------------------------------------------------
// Accounts of an install
// ---------------------------------------------------------------------------

/// An account folder of an install, and whether it syncs.
#[derive(Debug, PartialEq)]
pub struct SyncAccount {
    pub account: String,
    pub selected: bool,
}

/// What a row of accounts says.
pub open spec fn accounts_said(v: Seq<SyncAccount>) -> Seq<(Seq<char>, bool)> {
    Seq::new(v.len(), |i: int| (v[i].account@, v[i].selected))
}

/// Whether an install takes all accounts that were found as its selection: it never had
/// one, and there are some.
pub open spec fn takes_all(inst: Install, discovered: Seq<Seq<char>>) -> bool {
    !inst.accounts_initialized && inst.sync_accounts@.len() == 0 && discovered.len() > 0
}

/// The accounts of an install, each with whether it syncs. The first time that any are
/// found, all of them do; later the selection is the user's alone.
pub fn list_sync_accounts(
    cfg: &mut AppConfig,
    install_id: &str,
    discovered: &Vec<String>,
) -> (r: Result<Vec<SyncAccount>, String>)
    ensures
        ({
            let p = install_at(*old(cfg), install_id@);
            match r {
                Err(e) => no_install(*old(cfg), *final(cfg), install_id@, e@),
                Ok(list) => {
                    let inst = old(cfg).installs@[p];
                    let found = texts(discovered@);
                    let selected = if takes_all(inst, found) {
                        found
                    } else {
                        texts(inst.sync_accounts@)
                    };
                    &&& 0 <= p < old(cfg).installs@.len()
                    &&& accounts_said(list@) == marked(found, selected)
                    &&& if takes_all(inst, found) {
                        &&& only_install(*old(cfg), *final(cfg), p)
                        &&& texts(final(cfg).installs@[p].sync_accounts@) == found
                        &&& final(cfg).installs@[p] == (Install {
                            sync_accounts: final(cfg).installs@[p].sync_accounts,
                            accounts_initialized: true,
                            ..inst
                        })
                    } else {
                        *final(cfg) == *old(cfg)
                    }
                },
            }
        }),
{
    let p: usize = cfg.install_position(install_id);
    if p == cfg.installs.len() {
        return Err("unknown install".to_string());
    }
    let ghost found = texts(discovered@);
    let ghost inst = cfg.installs@[p as int];
    proof {
        lemma_first_at(install_ids(cfg.installs@), install_id@);
        assert(found.len() == discovered@.len());
    }
    if !cfg.installs[p].accounts_initialized && cfg.installs[p].sync_accounts.len() == 0
        && discovered.len() > 0 {
        let all = clone_texts(discovered);
        cfg.installs[p].sync_accounts = all;
        cfg.installs[p].accounts_initialized = true;
    }
    let effective = effective_accounts(&cfg.installs[p].sync_accounts, discovered);
    let mut list: Vec<SyncAccount> = Vec::new();
    let mut i: usize = 0;
    let ghost chosen = texts(effective@);
    while i < discovered.len()
        invariant
            i <= discovered@.len(),
            found == texts(discovered@),
            chosen == texts(effective@),
            list@.len() == i,
            forall|j: int|
                0 <= j < i ==> (#[trigger] list@[j]).account@ == found[j] && list@[j].selected
                    == chosen.contains(found[j]),
        decreases discovered@.len() - i,
    {
        proof {
            assert(found[i as int] == discovered@[i as int]@);
        }
        list.push(
            SyncAccount {
                account: discovered[i].clone(),
                selected: contains(&effective, discovered[i].as_str()),
            },
        );
        i = i + 1;
    }
    proof {
        assert(accounts_said(list@) =~= Seq::new(
            found.len(),
            |i: int| (found[i], chosen.contains(found[i])),
        ));
        if takes_all(inst, found) {
            assert(texts(cfg.installs@[p as int].sync_accounts@) =~= found);
            assert(cfg.installs@ =~= old(cfg).installs@.update(
                p as int,
                cfg.installs@[p as int],
            ));
        }
    }
    Ok(list)
}

/// The first `n` of `all`, without empty ones and without those that came before.
pub open spec fn distinct_texts(all: Seq<Seq<char>>, n: int) -> Seq<Seq<char>>
    decreases n,
{
    if n <= 0 {
        Seq::empty()
    } else {
        let before = distinct_texts(all, n - 1);
        if all[n - 1].len() == 0 || before.contains(all[n - 1]) {
            before
        } else {
            before.push(all[n - 1])
        }
    }
}

/// Sets which accounts of an install sync: each once, and empty names left out. From then
/// on an empty selection is taken as it is.
pub fn set_sync_accounts(cfg: &mut AppConfig, install_id: &str, accounts: &Vec<String>) -> (r:
    Result<(), String>)
    ensures
        ({
            let p = install_at(*old(cfg), install_id@);
            match r {
                Err(e) => no_install(*old(cfg), *final(cfg), install_id@, e@),
                Ok(_) => {
                    &&& only_install(*old(cfg), *final(cfg), p)
                    &&& texts(final(cfg).installs@[p].sync_accounts@) == distinct_texts(
                        texts(accounts@),
                        accounts@.len() as int,
                    )
                    &&& final(cfg).installs@[p] == (Install {
                        sync_accounts: final(cfg).installs@[p].sync_accounts,
                        accounts_initialized: true,
                        ..old(cfg).installs@[p]
                    })
                },
            }
        }),
{
    let mut chosen: Vec<String> = Vec::new();
    let mut i: usize = 0;
    let ghost all = texts(accounts@);
    proof {
        assert(texts(chosen@) =~= Seq::<Seq<char>>::empty());
    }
    while i < accounts.len()
        invariant
            all == texts(accounts@),
            i <= accounts@.len(),
            texts(chosen@) == distinct_texts(all, i as int),
        decreases accounts@.len() - i,
    {
        proof {
            assert(all[i as int] == accounts@[i as int]@);
        }
        if !accounts[i].as_str().is_empty() && !contains(&chosen, accounts[i].as_str()) {
            let ghost before = texts(chosen@);
            chosen.push(accounts[i].clone());
            proof {
                assert(texts(chosen@) =~= before.push(accounts@[i as int]@));
            }
        }
        i = i + 1;
    }
    match cfg.install_mut(install_id) {
        Some(inst) => {
            inst.sync_accounts = chosen;
            inst.accounts_initialized = true;
            Ok(())
        },
        None => Err("unknown install".to_string()),
    }
}

/// A selection that the user emptied stays empty: after a choice was made, no account is
/// ever selected by itself again.
pub proof fn law_emptied_selection_stays_empty(inst: Install, discovered: Seq<Seq<char>>)
    requires
        inst.accounts_initialized,
    ensures
        !takes_all(inst, discovered),
        inst.sync_accounts@.len() == 0 ==> kept(discovered, texts(inst.sync_accounts@)).len() == 0,
{
    crate::sync::law_effective_accounts_are_the_intersection(
        discovered,
        texts(inst.sync_accounts@),
    );
}

/// Resetting the addons of an install undoes every channel of their own: each is then
/// delivered from the channel of the install.
pub proof fn law_reset_follows_the_install(before: Install, after: Install, slug: Seq<char>)
    requires
        after == (Install { addons: after.addons, ..before }),
        addon_rows(after.addons@) == all_switched(
            addon_rows(before.addons@),
            before.auto_update,
            true,
        ),
    ensures
        after.channel_of(slug) == before.channel@,
{
    let k = first_at(slugs(after.addons@), slug);
    lemma_first_at(slugs(after.addons@), slug);
    if k < after.addons@.len() {
        let rows = addon_rows(after.addons@);
        let start = addon_rows(before.addons@);
        assert(rows[k] == after.addons@[k]@);
        assert(rows.len() == start.len());
        assert(rows[k] == (AddonView {
            auto_update: before.auto_update,
            channel_override: None,
            ..start[k]
        }));
    }
}

// ---------------------------------------------------------------------------
// What the commands change, and what they leave
// ---------------------------------------------------------------------------

/// The server's address where the user gave `url`: without white space around it and slashes
/// at its end; the one in the environment or the default where nothing is left.
pub open spec fn base_url_of(url: Seq<char>, env_override: Option<Seq<char>>) -> Seq<char> {
    let given = strip_end_of(trim_of(url), '/', '/');
    if given.len() > 0 {
        given
    } else {
        match env_override {
            Some(u) => u,
            None => DEFAULT_BASE_URL@,
        }
    }
}

/// The channel of the app where the user gave `channel`: trimmed, and the public one where
/// it is blank.
pub open spec fn channel_chosen(channel: Seq<char>) -> Seq<char> {
    if trim_of(channel).len() > 0 {
        trim_of(channel)
    } else {
        "public"@
    }
}

/// The time of the daily pass where the user gave `time`: the default where that is none.
pub open spec fn time_chosen(time: Seq<char>) -> Seq<char> {
    if hhmm_of(time) is Some {
        time
    } else {
        "03:00"@
    }
}

/// The label of an install where the user gave `label`: trimmed, and `other` where it is
/// blank.
pub open spec fn label_given(label: Seq<char>, other: Seq<char>) -> Seq<char> {
    if trim_of(label).len() > 0 {
        trim_of(label)
    } else {
        other
    }
}

/// A label is taken without white space around it; a blank one changes nothing.
pub proof fn law_label_is_taken_unless_blank(label: Seq<char>, other: Seq<char>)
    ensures
        trim_of(label).len() > 0 ==> label_given(label, other) == trim_of(label),
        trim_of(label).len() == 0 ==> label_given(label, other) == other,
        label_given(label_given(label, other), other) == label_given(label, other) || trim_of(
            label,
        ).len() == 0,
{
    crate::text::law_trim_is_idempotent(label);
}

/// What the record `start` says when the addon is switched on or off. A new record follows
/// the install's update switch.
pub open spec fn selected_row(
    start: AddonView,
    enabled: bool,
    is_new: bool,
    auto_update: bool,
) -> AddonView {
    AddonView {
        enabled,
        auto_update: if enabled && is_new {
            auto_update
        } else {
            start.auto_update
        },
        ..start
    }
}

/// What the record `start` says with a pin and a channel of its own.
pub open spec fn pinned_row(
    start: AddonView,
    pin: Option<Seq<char>>,
    channel: Option<Seq<char>>,
) -> AddonView {
    AddonView {
        pinned_version: unless_empty(pin),
        channel_override: unless_empty(channel),
        ..start
    }
}

/// What the record `start` says when the addon was updated.
pub open spec fn updated_row(start: AddonView, version: Seq<char>, folder: Seq<char>) -> AddonView {
    AddonView { installed_version: Some(version), folder: Some(folder), ..start }
}

/// What the record `start` says when the addon was installed.
pub open spec fn installed_row(start: AddonView, version: Seq<char>, folder: Seq<char>) -> AddonView {
    AddonView { enabled: true, ..updated_row(start, version, folder) }
}

/// What the record `start` says when the addon was uninstalled.
pub open spec fn uninstalled_row(start: AddonView) -> AddonView {
    AddonView { enabled: false, installed_version: None, folder: None, ..start }
}

/// The accounts that were found, each with whether it is selected.
pub open spec fn marked(found: Seq<Seq<char>>, selected: Seq<Seq<char>>) -> Seq<(Seq<char>, bool)> {
    Seq::new(found.len(), |i: int| (found[i], kept(found, selected).contains(found[i])))
}

/// What the user gives for an address is taken without white space and slashes around its
/// end; what is blank gives way to the environment, and then to the default.
pub proof fn law_given_address_is_taken(
    before: Seq<char>,
    url: Seq<char>,
    slashes: Seq<char>,
    behind: Seq<char>,
    env: Option<Seq<char>>,
)
    requires
        forall|i: int| 0 <= i < before.len() ==> is_space(#[trigger] before[i]),
        forall|i: int| 0 <= i < behind.len() ==> is_space(#[trigger] behind[i]),
        forall|i: int| 0 <= i < slashes.len() ==> #[trigger] slashes[i] == '/',
        url.len() > 0,
        !is_space(url[0]) && !is_space(url.last()),
        url.last() != '/',
    ensures
        base_url_of(before + (url + slashes) + behind, env) == url,
        base_url_of(before, env) == match env {
            Some(u) => u,
            None => DEFAULT_BASE_URL@,
        },
{
    let given = url + slashes;
    assert(given[0] == url[0]);
    assert(!is_space(given.last())) by {
        if slashes.len() > 0 {
            assert(slashes[slashes.len() - 1] == '/');
        }
    }
    law_trim_takes_off_outer_space(before, given, behind);
    law_strip_takes_off_the_ends(url, slashes, '/', '/');
    let none = Seq::<char>::empty();
    law_trim_takes_off_outer_space(before, none, none);
    assert(before + none + none =~= before);
}

/// What the user chooses is kept where it can be: a channel that is not blank without white
/// space around it, and a time that is one just as it was written. Else the default stands.
pub proof fn law_choice_is_kept_where_it_can_be(s: Seq<char>)
    ensures
        trim_of(s).len() > 0 ==> channel_chosen(s) == trim_of(s),
        trim_of(s).len() == 0 ==> channel_chosen(s) == "public"@,
        hhmm_of(s) is Some ==> time_chosen(s) == s,
        hhmm_of(s) is None ==> time_chosen(s) == "03:00"@,
        hhmm_of(time_chosen(s)) is Some,
{
    reveal_strlit("03:00");
    let h = seq!['0', '3'];
    let m = seq!['0', '0'];
    assert("03:00"@ =~= h + seq![':'] + m);
    reveal_with_fuel(number_of, 3);
    assert(h.drop_last() =~= seq!['0']);
    assert(m.drop_last() =~= seq!['0']);
    assert(seq!['0'].drop_last() =~= Seq::<char>::empty());
    assert(u32_of(h) == Some(3u32));
    assert(u32_of(m) == Some(0u32));
    let day = CalendarDay { year: 0, month: 1, day: 1 };
    law_due_from_the_target_on(TimeOfDay { secs: 86399 }, day, h, m, None, 3, 0);
}

/// Installing, updating and uninstalling say what happened and leave the choices of the
/// user: an addon that was installed is enabled and on that version in that folder; after an
/// update it is on the new one and as enabled as before; after it was uninstalled nothing of
/// it is there. Pins, channels and switches stay throughout.
pub proof fn law_records_say_what_happened(
    start: AddonView,
    version: Seq<char>,
    folder: Seq<char>,
)
    ensures
        ({
            let a = installed_row(start, version, folder);
            let b = updated_row(start, version, folder);
            let c = uninstalled_row(start);
            &&& a.enabled && a.installed_version == Some(version) && a.folder == Some(folder)
            &&& b.enabled == start.enabled && b.installed_version == Some(version) && b.folder == Some(
                folder,
            )
            &&& !c.enabled && c.installed_version is None && c.folder is None
            &&& keeps_choices(start, a) && keeps_choices(start, b) && keeps_choices(start, c)
            &&& uninstalled_row(a) == c
        }),
{
}

/// Whether two records are of the same addon with the same pin, channel and switches.
pub open spec fn keeps_choices(a: AddonView, b: AddonView) -> bool {
    &&& b.slug == a.slug
    &&& b.pinned_version == a.pinned_version
    &&& b.channel_override == a.channel_override
    &&& b.auto_update == a.auto_update
    &&& b.sync == a.sync
}

/// Switching an addon on or off does just that; only a record that is made by switching it
/// on takes its update switch from the install.
pub proof fn law_switch_does_just_that(
    start: AddonView,
    enabled: bool,
    is_new: bool,
    auto_update: bool,
)
    ensures
        ({
            let r = selected_row(start, enabled, is_new, auto_update);
            &&& r.enabled == enabled
            &&& r.auto_update == if is_new && enabled {
                auto_update
            } else {
                start.auto_update
            }
            &&& r.slug == start.slug && r.installed_version == start.installed_version
            &&& r.pinned_version == start.pinned_version && r.channel_override
                == start.channel_override
            &&& r.sync == start.sync && r.folder == start.folder
        }),
{
}

/// A pin and a channel are taken as they are given, an empty one for none, and nothing else
/// of the record changes.
pub proof fn law_pin_and_channel_are_taken(start: AddonView, pin: Seq<char>, channel: Seq<char>)
    requires
        pin.len() > 0,
        channel.len() > 0,
    ensures
        ({
            let r = pinned_row(start, Some(pin), Some(channel));
            let none = pinned_row(start, None, Some(Seq::empty()));
            &&& r.pinned_version == Some(pin) && r.channel_override == Some(channel)
            &&& none.pinned_version is None && none.channel_override is None
            &&& r.slug == start.slug && r.enabled == start.enabled && r.sync == start.sync
            &&& r.installed_version == start.installed_version && r.folder == start.folder
            &&& r.auto_update == start.auto_update
        }),
{
}

/// Every account that was found is listed, in order, and is marked exactly where it is one
/// of those that were selected.
pub proof fn law_accounts_are_listed_with_their_mark(
    found: Seq<Seq<char>>,
    selected: Seq<Seq<char>>,
    i: int,
)
    requires
        0 <= i < found.len(),
    ensures
        marked(found, selected).len() == found.len(),
        marked(found, selected)[i].0 == found[i],
        marked(found, selected)[i].1 <==> selected.contains(found[i]),
{
    crate::sync::law_effective_accounts_are_the_intersection(found, selected);
    assert(found.contains(found[i]));
}

/// A change to one addon of one install is a change to nothing else: every other install is
/// as it was, and so is the record of every other addon of that install; the addon has the
/// record that it was given.
pub proof fn law_one_addon_is_all_that_changes(
    before: AppConfig,
    after: AppConfig,
    p: int,
    slug: Seq<char>,
    row: AddonView,
    other: Seq<char>,
)
    requires
        only_addon(before, after, p, slug, row),
        row.slug == slug,
        other != slug,
    ensures
        after.installs@.len() == before.installs@.len(),
        forall|i: int|
            0 <= i < before.installs@.len() && i != p ==> after.installs@[i]
                == #[trigger] before.installs@[i],
        addon_row_of(after, p, slug) == row,
        addon_row_of(after, p, other) == addon_row_of(before, p, other),
        after.installs@[p].id == before.installs@[p].id,
        after.installs@[p].label == before.installs@[p].label,
        after.installs@[p].path == before.installs@[p].path,
        after.installs@[p].flavor == before.installs@[p].flavor,
        after.installs@[p].channel == before.installs@[p].channel,
        after.installs@[p].auto_update == before.installs@[p].auto_update,
        after.installs@[p].sync_accounts == before.installs@[p].sync_accounts,
        after.base_url == before.base_url,
        after.sync == before.sync,
        after.account == before.account,
        after.last_resync_honored == before.last_resync_honored,
        after.auto_update_time == before.auto_update_time,
{
    crate::config::law_addon_record_is_found_again(
        addon_rows(before.installs@[p].addons@),
        slug,
        row,
        other,
    );
}

/// An install is found by its id, the first that has it; and where none has it, a command
/// for it changes nothing and says so.
pub proof fn law_install_is_found_by_its_id(
    cfg: AppConfig,
    after: AppConfig,
    id: Seq<char>,
    e: Seq<char>,
    i: int,
)
    ensures
        0 <= i < cfg.installs@.len() && (forall|j: int|
            0 <= j < i ==> (#[trigger] cfg.installs@[j]).id@ != cfg.installs@[i].id@) ==> install_at(
            cfg,
            cfg.installs@[i].id@,
        ) == i,
        no_install(cfg, after, id, e) ==> after == cfg && e == "unknown install"@ && forall|j: int|
            0 <= j < cfg.installs@.len() ==> (#[trigger] cfg.installs@[j]).id@ != id,
{
    let ids = install_ids(cfg.installs@);
    if 0 <= i < cfg.installs@.len() && (forall|j: int|
        0 <= j < i ==> (#[trigger] cfg.installs@[j]).id@ != cfg.installs@[i].id@) {
        assert(ids[i] == cfg.installs@[i].id@);
        assert forall|j: int| 0 <= j < i implies ids[j] != ids[i] by {
            assert(ids[j] == cfg.installs@[j].id@);
        }
        crate::seqs::law_different_keys_are_each_found(ids, i);
    }
    lemma_first_at(ids, id);
    if no_install(cfg, after, id, e) {
        assert forall|j: int| 0 <= j < cfg.installs@.len() implies (#[trigger] cfg.installs@[j]).id@
            != id by {
            assert(ids[j] == cfg.installs@[j].id@);
        }
    }
}

/// Removing an install takes away those with its id and leaves the others in their order.
pub proof fn law_only_that_install_is_removed(installs: Seq<Install>, id: Seq<char>, n: int)
    requires
        0 <= n <= installs.len(),
    ensures
        installs_without(installs, id, n) == installs.take(n).filter(|i: Install| i.id@ != id),
    decreases n,
{
    let keep = |i: Install| i.id@ != id;
    if n > 0 {
        law_only_that_install_is_removed(installs, id, n - 1);
        crate::seqs::lemma_filter_take(installs, n, keep);
    } else {
        reveal(Seq::filter);
        assert(installs_without(installs, id, 0) =~= installs.take(0));
    }
}

/// Switching all addons of an install sets the switch of each and nothing else of it; a
/// reset takes away each channel of its own besides.
pub proof fn law_all_addons_are_switched(
    rows: Seq<AddonView>,
    auto_update: bool,
    reset: bool,
    i: int,
)
    requires
        0 <= i < rows.len(),
    ensures
        ({
            let after = all_switched(rows, auto_update, reset);
            &&& after.len() == rows.len()
            &&& after[i].auto_update == auto_update
            &&& after[i].slug == rows[i].slug
            &&& after[i].enabled == rows[i].enabled
            &&& after[i].installed_version == rows[i].installed_version
            &&& after[i].pinned_version == rows[i].pinned_version
            &&& after[i].sync == rows[i].sync
            &&& after[i].folder == rows[i].folder
            &&& reset ==> after[i].channel_override is None
            &&& !reset ==> after[i].channel_override == rows[i].channel_override
        }),
{
}

/// Texts are told apart: of all that are not empty, each is kept once, at the place where
/// it first stood; nothing else is.
pub proof fn law_each_text_is_kept_once(all: Seq<Seq<char>>, n: int)
    requires
        0 <= n <= all.len(),
    ensures
        distinct_texts(all, n).no_duplicates(),
        forall|a: Seq<char>| #[trigger]
            distinct_texts(all, n).contains(a) <==> a.len() > 0 && all.take(n).contains(a),
        all.take(n).no_duplicates() && (forall|i: int| 0 <= i < n ==> (#[trigger] all[i]).len() > 0)
            ==> distinct_texts(all, n) == all.take(n),
    decreases n,
{
    if n > 0 {
        law_each_text_is_kept_once(all, n - 1);
        let before = distinct_texts(all, n - 1);
        let after = distinct_texts(all, n);
        let x = all[n - 1];
        assert(all.take(n) =~= all.take(n - 1).push(x));
        assert forall|a: Seq<char>| #[trigger] after.contains(a) <==> a.len() > 0 && all.take(
            n,
        ).contains(a) by {
            if after.contains(a) {
                let i = after.index_of(a);
                if i < before.len() {
                    assert(before[i] == a);
                    assert(before.contains(a));
                    let k = all.take(n - 1).index_of(a);
                    assert(all.take(n)[k] == a);
                } else {
                    assert(all.take(n)[n - 1] == a);
                }
            }
            if a.len() > 0 && all.take(n).contains(a) {
                let k = all.take(n).index_of(a);
                if k < n - 1 {
                    assert(all.take(n - 1)[k] == a);
                    assert(before.contains(a));
                    let i = before.index_of(a);
                    assert(after[i] == a);
                } else if before.contains(x) {
                    let i = before.index_of(a);
                    assert(after[i] == a);
                } else {
                    assert(after[after.len() - 1] == a);
                }
            }
        }
        if all.take(n).no_duplicates() && forall|i: int| 0 <= i < n ==> (#[trigger] all[i]).len() > 0 {
            let shorter = all.take(n - 1);
            assert forall|i: int, j: int| 0 <= i < shorter.len() && 0 <= j < shorter.len() && i != j
                implies shorter[i] != shorter[j] by {
                assert(all.take(n)[i] == shorter[i]);
                assert(all.take(n)[j] == shorter[j]);
            }
            if before.contains(x) {
                let i = before.index_of(x);
                assert(all.take(n)[i] == x);
                assert(all.take(n)[n - 1] == x);
            }
            assert(after =~= all.take(n));
        }
    } else {
        assert(distinct_texts(all, 0) =~= all.take(0));
    }
}

/// An install takes the accounts that were found for its own exactly once: while it never
/// had a choice, and only where there are any.
pub proof fn law_accounts_are_taken_once(inst: Install, discovered: Seq<Seq<char>>)
    ensures
        takes_all(inst, discovered) <==> !inst.accounts_initialized && inst.sync_accounts@.len() == 0
            && discovered.len() > 0,
{
}

/// A new install is named after the device, and after the machine where the device has no
/// name that is more than white space.
pub proof fn law_install_is_named_after_the_device(name: Seq<char>, machine: Seq<char>)
    ensures
        default_label(None, machine) == machine,
        trim_of(name).len() > 0 ==> default_label(Some(name), machine) == name,
        trim_of(name).len() == 0 ==> default_label(Some(name), machine) == machine,
{
}

/// What is empty is no pin and no channel; anything else is taken as it is.
pub proof fn law_empty_choice_is_none(s: Seq<char>)
    ensures
        unless_empty(None) is None,
        s.len() == 0 ==> unless_empty(Some(s)) is None,
        s.len() > 0 ==> unless_empty(Some(s)) == Some(s),
{
}

/// The folder of an addon is the first that was written for it; only where none was is it
/// guessed from the slug.
pub proof fn law_first_folder_is_the_addon(folders: Seq<Seq<char>>, slug: Seq<char>)
    ensures
        folders.len() > 0 ==> folder_written(folders, slug) == folders.first(),
        folders.len() == 0 ==> folder_written(folders, slug) == guessed_folder(slug),
{
}

/// A new install follows the public channel, updates its addons, has none yet, and lets no
/// account sync before the user or the first look at its accounts chose them.
pub proof fn law_new_install_starts_plain(
    i: Install,
    id: Seq<char>,
    path: Seq<char>,
    label: Seq<char>,
    online: bool,
    found: Seq<Seq<char>>,
)
    requires
        is_new_install(i, id, path, label, online),
    ensures
        i.id@ == id && i.path@ == path && i.label@ == label && i.online == online,
        i.channel@ == "public"@ && i.auto_update,
        i.addons@.len() == 0 && i.sync_accounts@.len() == 0,
        found.len() > 0 ==> takes_all(i, found),
        i.channel_of(id) == "public"@,
{
    lemma_first_at(slugs(i.addons@), id);
}

/// What a map of aliases says.
pub open spec fn aliases_said(m: Map<Seq<char>, String>) -> Map<Seq<char>, Seq<char>> {
    Map::new(|k: Seq<char>| m.contains_key(k), |k: Seq<char>| m[k]@)
}

/// The aliases where `account` gets `alias`: both trimmed, and a blank alias takes away the
/// one that there was.
pub open spec fn aliases_after(
    before: Map<Seq<char>, Seq<char>>,
    account: Seq<char>,
    alias: Seq<char>,
) -> Map<Seq<char>, Seq<char>> {
    if trim_of(alias).len() == 0 {
        before.remove(trim_of(account))
    } else {
        before.insert(trim_of(account), trim_of(alias))
    }
}

/// An account has the alias that it was given, or none where that was blank; the alias of no
/// other account changes.
pub proof fn law_account_has_the_alias_it_was_given(
    before: Map<Seq<char>, Seq<char>>,
    account: Seq<char>,
    alias: Seq<char>,
    other: Seq<char>,
)
    requires
        other != trim_of(account),
    ensures
        ({
            let after = aliases_after(before, account, alias);
            &&& trim_of(alias).len() > 0 ==> after.contains_key(trim_of(account)) && after[trim_of(
                account,
            )] == trim_of(alias)
            &&& trim_of(alias).len() == 0 ==> !after.contains_key(trim_of(account))
            &&& after.contains_key(other) <==> before.contains_key(other)
            &&& before.contains_key(other) ==> after[other] == before[other]
        }),
{
}

} // verus!
