//! Which addons are behind, which records are left over, and what the server is told of
//! the installs.
use vstd::prelude::*;

use crate::catalog::{catalog_slugs, Catalog, CatalogAddon};
use crate::commands::{
    addon_row_of,
    addons_dir_of,
    failed_update,
    folder_written,
    install_at,
    only_addon,
    record_update,
    updated_row,
    written_folder,
};
use crate::config::{
    addon_position,
    addon_row_at,
    addon_rows,
    install_ids,
    law_addon_record_is_found_again,
    lemma_row_slugs,
    row_slugs,
    slugs,
    with_addon_row,
    AddonView,
    AppConfig,
    Install,
    InstalledAddon,
};
use crate::installs::{flavor_token_from_path, token_in};
use crate::net::{download_url, parsed_url, resolve_download_url};
use crate::paths::{path_of, PathStyle};
use crate::seqs::{clone_opt, first_at, lemma_first_at, opt_text};
use crate::text::{join3, same_text, texts};
use crate::version::{is_newer, is_older, segments_of};

verus! {

// ---------------------------------------------------------------------------
// Updates
// ---------------------------------------------------------------------------

/// An addon that should be on another version.
#[derive(Debug, PartialEq)]
pub struct UpdateItem {
    pub install_id: String,
    pub slug: String,
    pub installed: Option<String>,
    pub latest: String,
    pub url: String,
    pub channel: String,
}

/// What an update says.
pub struct ItemView {
    pub install_id: Seq<char>,
    pub slug: Seq<char>,
    pub installed: Option<Seq<char>>,
    pub latest: Seq<char>,
    pub url: Seq<char>,
    pub channel: Seq<char>,
}

impl View for UpdateItem {
    type V = ItemView;

    open spec fn view(&self) -> ItemView {
        ItemView {
            install_id: self.install_id@,
            slug: self.slug@,
            installed: opt_text(self.installed),
            latest: self.latest@,
            url: self.url@,
            channel: self.channel@,
        }
    }
}

/// What a row of updates says.
pub open spec fn items_said(v: Seq<UpdateItem>) -> Seq<ItemView> {
    Seq::new(v.len(), |i: int| v[i]@)
}

/// The release that an addon of an install should be on, with its address, if it is
/// enabled, the catalog lists it, it supports the flavor of the install, and there is such
/// a release: the pinned version, else the newest on its channel.
pub open spec fn wanted_release(inst: Install, a: InstalledAddon, cat: Catalog) -> Option<
    (Seq<char>, Seq<char>),
> {
    let def = cat.addons@[cat.addon_at(a.slug@)];
    if a.enabled && cat.lists(a.slug@) && def.runs_on(inst.flavor@) {
        def.target(inst.channel_of(a.slug@), opt_text(a.pinned_version))
    } else {
        None
    }
}

/// What is said of an addon that should be on the release `wanted`.
pub open spec fn item_for(
    inst: Install,
    a: InstalledAddon,
    wanted: (Seq<char>, Seq<char>),
) -> ItemView {
    ItemView {
        install_id: inst.id@,
        slug: a.slug@,
        installed: opt_text(a.installed_version),
        latest: wanted.0,
        url: wanted.1,
        channel: inst.channel_of(a.slug@),
    }
}

/// The update of an addon, if it is installed in an older version than it should be.
pub open spec fn upgrade_of(inst: Install, a: InstalledAddon, cat: Catalog) -> Option<ItemView> {
    match wanted_release(inst, a, cat) {
        Some(w) => if a.installed_version is Some && is_older(
            segments_of(a.installed_version->0@),
            segments_of(w.0),
        ) {
            Some(item_for(inst, a, w))
        } else {
            None
        },
        None => None,
    }
}

/// The switch of an addon, if it is installed in another version than it should be, older
/// or newer.
pub open spec fn switch_of(inst: Install, a: InstalledAddon, cat: Catalog) -> Option<ItemView> {
    match wanted_release(inst, a, cat) {
        Some(w) => if a.installed_version is Some && a.installed_version->0@ != w.0 {
            Some(item_for(inst, a, w))
        } else {
            None
        },
        None => None,
    }
}

/// The updates (or with `any_direction` the switches) of the first `n` addons.
pub open spec fn items_of(inst: Install, cat: Catalog, any_direction: bool, n: int) -> Seq<ItemView>
    decreases n,
{
    if n <= 0 {
        Seq::empty()
    } else {
        let before = items_of(inst, cat, any_direction, n - 1);
        let a = inst.addons@[n - 1];
        let item = if any_direction {
            switch_of(inst, a, cat)
        } else {
            upgrade_of(inst, a, cat)
        };
        match item {
            Some(i) => before.push(i),
            None => before,
        }
    }
}

/// The updates of the first `n` installs, of those that are there.
pub open spec fn all_updates(
    installs: Seq<Install>,
    cat: Catalog,
    online: Seq<bool>,
    n: int,
) -> Seq<ItemView>
    decreases n,
{
    if n <= 0 {
        Seq::empty()
    } else {
        let before = all_updates(installs, cat, online, n - 1);
        if online[n - 1] {
            before + items_of(
                installs[n - 1],
                cat,
                false,
                installs[n - 1].addons@.len() as int,
            )
        } else {
            before
        }
    }
}

fn wanted(inst: &Install, a: &InstalledAddon, cat: &Catalog) -> (w: Option<(String, String)>)
    ensures
        match w {
            Some((v, u)) => wanted_release(*inst, *a, *cat) == Some((v@, u@)),
            None => wanted_release(*inst, *a, *cat) is None,
        },
{
    if !a.enabled {
        return None;
    }
    let def: &CatalogAddon = match cat.addon(a.slug.as_str()) {
        Some(d) => d,
        None => return None,
    };
    if !def.supports_flavor(inst.flavor.as_str()) {
        return None;
    }
    let channel = inst.channel_for(a.slug.as_str());
    def.target_for(channel.as_str(), &a.pinned_version)
}

/// Adds the updates (or with `any_direction` the switches) of an install to `out`.
fn push_items(inst: &Install, cat: &Catalog, any_direction: bool, out: &mut Vec<UpdateItem>)
    ensures
        items_said(final(out)@) == items_said(old(out)@) + items_of(
            *inst,
            *cat,
            any_direction,
            inst.addons@.len() as int,
        ),
{
    let ghost start = items_said(out@);
    let mut i: usize = 0;
    proof {
        assert(start =~= start + Seq::<ItemView>::empty());
    }
    while i < inst.addons.len()
        invariant
            i <= inst.addons@.len(),
            items_said(out@) == start + items_of(*inst, *cat, any_direction, i as int),
        decreases inst.addons@.len() - i,
    {
        let a: &InstalledAddon = &inst.addons[i];
        let ghost before = items_of(*inst, *cat, any_direction, i as int);
        let ghost said_before = items_said(out@);
        if let Some((version, url)) = wanted(inst, a, cat) {
            let moves: bool = match &a.installed_version {
                Some(cur) => if any_direction {
                    !same_text(cur.as_str(), version.as_str())
                } else {
                    is_newer(version.as_str(), cur.as_str())
                },
                None => false,
            };
            if moves {
                let item = UpdateItem {
                    install_id: inst.id.clone(),
                    slug: a.slug.clone(),
                    installed: clone_opt(&a.installed_version),
                    latest: version,
                    url,
                    channel: inst.channel_for(a.slug.as_str()),
                };
                let ghost said = item@;
                out.push(item);
                proof {
                    assert(items_said(out@) =~= said_before.push(said));
                    assert((start + before).push(said) =~= start + before.push(said));
                }
            }
        }
        i = i + 1;
    }
}

/// The addons that are behind, in the installs that are there. `online[i]` says whether
/// the directory of the install at `i` is.
pub fn compute_updates(cfg: &AppConfig, cat: &Catalog, online: &Vec<bool>) -> (out: Vec<UpdateItem>)
    requires
        online@.len() == cfg.installs@.len(),
    ensures
        items_said(out@) == all_updates(
            cfg.installs@,
            *cat,
            online@,
            cfg.installs@.len() as int,
        ),
{
    let mut out: Vec<UpdateItem> = Vec::new();
    let mut i: usize = 0;
    proof {
        assert(items_said(out@) =~= Seq::<ItemView>::empty());
    }
    while i < cfg.installs.len()
        invariant
            i <= cfg.installs@.len() == online@.len(),
            items_said(out@) == all_updates(cfg.installs@, *cat, online@, i as int),
        decreases cfg.installs@.len() - i,
    {
        if online[i] {
            push_items(&cfg.installs[i], cat, false, &mut out);
        }
        i = i + 1;
    }
    out
}

/// The addons of the install `install_id` that are in another version than they should
/// be, older or newer; none if the install is not there.
pub fn compute_reconcile(
    cfg: &AppConfig,
    cat: &Catalog,
    install_id: &str,
    online: bool,
) -> (out: Vec<UpdateItem>)
    ensures
        items_said(out@) == ({
            let p = first_at(install_ids(cfg.installs@), install_id@);
            if p < cfg.installs@.len() && online {
                items_of(cfg.installs@[p], *cat, true, cfg.installs@[p].addons@.len() as int)
            } else {
                Seq::empty()
            }
        }),
{
    let mut out: Vec<UpdateItem> = Vec::new();
    let p: usize = cfg.install_position(install_id);
    proof {
        assert(items_said(out@) =~= Seq::<ItemView>::empty());
    }
    if p < cfg.installs.len() && online {
        push_items(&cfg.installs[p], cat, true, &mut out);
        proof {
            let items = items_of(
                cfg.installs@[p as int],
                *cat,
                true,
                cfg.installs@[p as int].addons@.len() as int,
            );
            assert(items_said(out@) =~= items);
        }
    }
    out
}

/// The first `n` items of the install `id`.
pub open spec fn items_for(items: Seq<ItemView>, id: Seq<char>, n: int) -> Seq<ItemView>
    decreases n,
{
    if n <= 0 {
        Seq::empty()
    } else {
        let before = items_for(items, id, n - 1);
        if items[n - 1].install_id == id {
            before.push(items[n - 1])
        } else {
            before
        }
    }
}

/// An update that says nothing: it holds the place of one that is moved out of a list.
fn no_item() -> (item: UpdateItem)
    ensures
        item@ == (ItemView {
            install_id: Seq::empty(),
            slug: Seq::empty(),
            installed: None,
            latest: Seq::empty(),
            url: Seq::empty(),
            channel: Seq::empty(),
        }),
{
    UpdateItem {
        install_id: String::new(),
        slug: String::new(),
        installed: None,
        latest: String::new(),
        url: String::new(),
        channel: String::new(),
    }
}

/// The items of the install `install_id`.
pub fn items_of_install(items: Vec<UpdateItem>, install_id: &str) -> (out: Vec<UpdateItem>)
    ensures
        items_said(out@) == items_for(items_said(items@), install_id@, items@.len() as int),
{
    let ghost all = items_said(items@);
    let n: usize = items.len();
    let mut rest = items;
    let mut out: Vec<UpdateItem> = Vec::new();
    let mut i: usize = 0;
    proof {
        assert(items_said(out@) =~= Seq::<ItemView>::empty());
    }
    while i < n
        invariant
            i <= n == all.len(),
            rest@.len() == n,
            forall|j: int| i <= j < n ==> (#[trigger] rest@[j])@ == all[j],
            items_said(out@) == items_for(all, install_id@, i as int),
        decreases n - i,
    {
        let mut item = no_item();
        proof {
            assert(rest@[i as int]@ == all[i as int]);
        }
        std::mem::swap(&mut item, &mut rest[i]);
        if same_text(item.install_id.as_str(), install_id) {
            let ghost before = items_said(out@);
            let ghost said = item@;
            out.push(item);
            proof {
                assert(items_said(out@) =~= before.push(said));
            }
        }
        i = i + 1;
    }
    out
}

/// Whether updates of the addon `slug` of the install `id` run by themselves: the first
/// such install and addon have it switched on.
pub open spec fn runs_by_itself(installs: Seq<Install>, id: Seq<char>, slug: Seq<char>) -> bool {
    let p = first_at(install_ids(installs), id);
    let addons = installs[p].addons@;
    let k = first_at(slugs(addons), slug);
    p < installs.len() && k < addons.len() && addons[k].auto_update
}

/// The first `n` items, of those that run by themselves.
pub open spec fn items_by_themselves(
    items: Seq<ItemView>,
    installs: Seq<Install>,
    n: int,
) -> Seq<ItemView>
    decreases n,
{
    if n <= 0 {
        Seq::empty()
    } else {
        let before = items_by_themselves(items, installs, n - 1);
        if runs_by_itself(installs, items[n - 1].install_id, items[n - 1].slug) {
            before.push(items[n - 1])
        } else {
            before
        }
    }
}

fn is_automatic(cfg: &AppConfig, id: &str, slug: &str) -> (yes: bool)
    ensures
        yes == runs_by_itself(cfg.installs@, id@, slug@),
{
    let p: usize = cfg.install_position(id);
    if p >= cfg.installs.len() {
        return false;
    }
    let k: usize = addon_position(&cfg.installs[p].addons, slug);
    k < cfg.installs[p].addons.len() && cfg.installs[p].addons[k].auto_update
}

/// The items of the daily update pass: those of addons with automatic updates, and none
/// while the pass is switched off.
pub fn automatic_items(cfg: &AppConfig, items: Vec<UpdateItem>) -> (out: Vec<UpdateItem>)
    ensures
        items_said(out@) == if cfg.auto_update_enabled {
            items_by_themselves(items_said(items@), cfg.installs@, items@.len() as int)
        } else {
            Seq::empty()
        },
{
    let ghost all = items_said(items@);
    let n: usize = items.len();
    let mut rest = items;
    let mut out: Vec<UpdateItem> = Vec::new();
    let mut i: usize = 0;
    proof {
        assert(items_said(out@) =~= Seq::<ItemView>::empty());
    }
    if !cfg.auto_update_enabled {
        return out;
    }
    while i < n
        invariant
            i <= n == all.len(),
            rest@.len() == n,
            forall|j: int| i <= j < n ==> (#[trigger] rest@[j])@ == all[j],
            items_said(out@) == items_by_themselves(all, cfg.installs@, i as int),
        decreases n - i,
    {
        let mut item = no_item();
        proof {
            assert(rest@[i as int]@ == all[i as int]);
        }
        std::mem::swap(&mut item, &mut rest[i]);
        if is_automatic(cfg, item.install_id.as_str(), item.slug.as_str()) {
            let ghost before = items_said(out@);
            let ghost said = item@;
            out.push(item);
            proof {
                assert(items_said(out@) =~= before.push(said));
            }
        }
        i = i + 1;
    }
    out
}

/// A release to fetch, and the addon folder to unpack it to.
#[derive(Debug, PartialEq)]
pub struct Download {
    pub url: String,
    pub dir: String,
}

/// What to fetch for an item: its release, by way of the server where it is the server's,
/// and the folder of its install. None if the install is gone.
pub fn download_of(cfg: &AppConfig, item: &UpdateItem, base_url: &str) -> (d: Option<Download>)
    ensures
        ({
            let p = install_at(*cfg, item.install_id@);
            match d {
                Some(d) => {
                    &&& p < cfg.installs@.len()
                    &&& d.dir@ == cfg.installs@[p].path@
                    &&& d.url@ == download_url(parsed_url(item.url@), item.url@, base_url@)
                },
                None => p == cfg.installs@.len(),
            }
        }),
{
    match addons_dir_of(cfg, item.install_id.as_str()) {
        Ok(dir) => Some(
            Download { url: resolve_download_url(item.url.as_str(), base_url), dir },
        ),
        Err(_) => None,
    }
}

/// Keeps what came of an item, given the folders that were written or an error: a success
/// sets the version and the folder of the addon, a failure changes nothing. Returns what
/// the user is told.
pub fn take_outcome(
    cfg: &mut AppConfig,
    item: &UpdateItem,
    outcome: &Result<Vec<String>, String>,
) -> (said: String)
    ensures
        match *outcome {
            Ok(folders) => {
                let p = install_at(*old(cfg), item.install_id@);
                let folder = folder_written(texts(folders@), item.slug@);
                &&& said@ == folder + " \u{2192} "@ + item.latest@
                &&& if p < old(cfg).installs@.len() {
                    only_addon(
                        *old(cfg),
                        *final(cfg),
                        p,
                        item.slug@,
                        updated_row(addon_row_of(*old(cfg), p, item.slug@), item.latest@, folder),
                    )
                } else {
                    *final(cfg) == *old(cfg)
                }
            },
            Err(e) => {
                &&& said@ == item.slug@ + ": FAILED ("@ + e@ + ")"@
                &&& *final(cfg) == *old(cfg)
            },
        },
{
    match outcome {
        Ok(folders) => {
            let folder = written_folder(folders, item.slug.as_str());
            record_update(
                cfg,
                item.install_id.as_str(),
                item.slug.as_str(),
                item.latest.as_str(),
                folder.as_str(),
            )
        },
        Err(e) => failed_update(item.slug.as_str(), e.as_str()),
    }
}

/// A scheduled update never goes back: every update is to a newer version than the one
/// that is installed, of an addon that is enabled, listed, and supports the flavor.
pub proof fn law_updates_only_go_forward(inst: Install, a: InstalledAddon, cat: Catalog)
    ensures
        upgrade_of(inst, a, cat) matches Some(i) ==> {
            &&& a.enabled
            &&& cat.lists(a.slug@)
            &&& cat.addons@[cat.addon_at(a.slug@)].runs_on(inst.flavor@)
            &&& i.installed is Some
            &&& is_older(segments_of(i.installed->0), segments_of(i.latest))
            &&& !is_older(segments_of(i.latest), segments_of(i.installed->0))
        },
{
    if let Some(i) = upgrade_of(inst, a, cat) {
        crate::version::law_versions_stand_one_way(
            segments_of(i.installed->0),
            segments_of(i.latest),
        );
    }
}

/// An addon that is on the release that it should be on is neither updated nor switched.
pub proof fn law_addon_on_target_is_left_alone(inst: Install, a: InstalledAddon, cat: Catalog)
    requires
        wanted_release(inst, a, cat) is Some,
        a.installed_version is Some,
        wanted_release(inst, a, cat) matches Some(w) && a.installed_version->0@ == w.0,
    ensures
        upgrade_of(inst, a, cat) is None,
        switch_of(inst, a, cat) is None,
{
    let v = segments_of(a.installed_version->0@);
    crate::version::law_versions_stand_one_way(v, v);
}

// ---------------------------------------------------------------------------
// Records that are left over
// ---------------------------------------------------------------------------

/// Whether the folder `f` belongs to an addon of the install that the catalog lists.
pub open spec fn folder_is_live(inst: Install, cat: Catalog, f: Seq<char>) -> bool {
    exists|i: int|
        0 <= i < inst.addons@.len() && cat.lists((#[trigger] inst.addons@[i]).slug@) && opt_text(
            inst.addons@[i].folder,
        ) == Some(f)
}

/// Whether the record of an addon is left over from a rename: the catalog does not list
/// it, and it has no folder of its own.
pub open spec fn is_left_over(inst: Install, a: InstalledAddon, cat: Catalog) -> bool {
    !cat.lists(a.slug@) && (a.folder is None || folder_is_live(inst, cat, a.folder->0@))
}

/// The left-over records among the first `n` of an install.
pub open spec fn left_over_in(inst: Install, cat: Catalog, n: int) -> Seq<(Seq<char>, Seq<char>)>
    decreases n,
{
    if n <= 0 {
        Seq::empty()
    } else {
        let before = left_over_in(inst, cat, n - 1);
        if is_left_over(inst, inst.addons@[n - 1], cat) {
            before.push((inst.id@, inst.addons@[n - 1].slug@))
        } else {
            before
        }
    }
}

/// The left-over records of the first `n` installs: none if the catalog is empty.
pub open spec fn left_over(installs: Seq<Install>, cat: Catalog, n: int) -> Seq<
    (Seq<char>, Seq<char>),
>
    decreases n,
{
    if n <= 0 || cat.addons@.len() == 0 {
        Seq::empty()
    } else {
        left_over(installs, cat, n - 1) + left_over_in(
            installs[n - 1],
            cat,
            installs[n - 1].addons@.len() as int,
        )
    }
}

/// The texts of a row of pairs.
pub open spec fn pairs_said(v: Seq<(String, String)>) -> Seq<(Seq<char>, Seq<char>)> {
    Seq::new(v.len(), |i: int| (v[i].0@, v[i].1@))
}

fn is_live_folder(inst: &Install, cat: &Catalog, f: &str) -> (yes: bool)
    ensures
        yes == folder_is_live(*inst, *cat, f@),
{
    let mut i: usize = 0;
    while i < inst.addons.len()
        invariant
            i <= inst.addons@.len(),
            forall|j: int|
                0 <= j < i ==> !(cat.lists((#[trigger] inst.addons@[j]).slug@) && opt_text(
                    inst.addons@[j].folder,
                ) == Some(f@)),
        decreases inst.addons@.len() - i,
    {
        if cat.addon(inst.addons[i].slug.as_str()).is_some() {
            if let Some(g) = &inst.addons[i].folder {
                if same_text(g.as_str(), f) {
                    proof {
                        assert(cat.lists(inst.addons@[i as int].slug@));
                    }
                    return true;
                }
            }
        }
        i = i + 1;
    }
    false
}

/// The records (install and slug) that are left over from renames. They are only records:
/// nothing on disk belongs to them. An empty catalog gives none.
pub fn compute_orphans(cfg: &AppConfig, cat: &Catalog) -> (out: Vec<(String, String)>)
    ensures
        pairs_said(out@) == left_over(cfg.installs@, *cat, cfg.installs@.len() as int),
{
    let mut out: Vec<(String, String)> = Vec::new();
    proof {
        assert(pairs_said(out@) =~= Seq::<(Seq<char>, Seq<char>)>::empty());
    }
    if cat.addons.len() == 0 {
        return out;
    }
    let mut i: usize = 0;
    while i < cfg.installs.len()
        invariant
            cat.addons@.len() > 0,
            i <= cfg.installs@.len(),
            pairs_said(out@) == left_over(cfg.installs@, *cat, i as int),
        decreases cfg.installs@.len() - i,
    {
        let inst: &Install = &cfg.installs[i];
        let ghost start = pairs_said(out@);
        let mut k: usize = 0;
        proof {
            assert(start =~= start + left_over_in(*inst, *cat, 0));
        }
        while k < inst.addons.len()
            invariant
                k <= inst.addons@.len(),
                pairs_said(out@) == start + left_over_in(*inst, *cat, k as int),
            decreases inst.addons@.len() - k,
        {
            let a: &InstalledAddon = &inst.addons[k];
            let ghost before = left_over_in(*inst, *cat, k as int);
            let ghost said_before = pairs_said(out@);
            let listed: bool = cat.addon(a.slug.as_str()).is_some();
            let over: bool = !listed && match &a.folder {
                Some(f) => is_live_folder(inst, cat, f.as_str()),
                None => true,
            };
            proof {
                assert(over == is_left_over(*inst, *a, *cat));
            }
            if over {
                out.push((inst.id.clone(), a.slug.clone()));
                proof {
                    let said = (inst.id@, a.slug@);
                    assert(pairs_said(out@) =~= said_before.push(said));
                    assert((start + before).push(said) =~= start + before.push(said));
                }
            }
            k = k + 1;
        }
        i = i + 1;
    }
    out
}

/// A record is never taken for left over where the catalog lists its addon, nor where its
/// folder is one that no listed addon has; and an empty catalog leaves all records alone.
pub proof fn law_live_records_are_kept(
    installs: Seq<Install>,
    inst: Install,
    a: InstalledAddon,
    cat: Catalog,
    n: int,
)
    ensures
        cat.lists(a.slug@) ==> !is_left_over(inst, a, cat),
        a.folder is Some && !folder_is_live(inst, cat, a.folder->0@) ==> !is_left_over(
            inst,
            a,
            cat,
        ),
        cat.addons@.len() == 0 ==> left_over(installs, cat, n).len() == 0,
{
}

// ---------------------------------------------------------------------------
// What is on disk
// ---------------------------------------------------------------------------

/// What the records say when the first `n` addons were looked up on disk: one that is
/// there is enabled and has its version; one that is gone loses the version it had.
pub open spec fn looked_up(
    rows: Seq<AddonView>,
    names: Seq<Seq<char>>,
    versions: Seq<Option<String>>,
    n: int,
) -> Seq<AddonView>
    decreases n,
{
    if n <= 0 {
        rows
    } else {
        let before = looked_up(rows, names, versions, n - 1);
        let slug = names[n - 1];
        match versions[n - 1] {
            Some(v) => with_addon_row(
                before,
                slug,
                AddonView {
                    enabled: true,
                    installed_version: Some(v@),
                    ..addon_row_at(before, slug)
                },
            ),
            None => if first_at(row_slugs(before), slug) < before.len() {
                with_addon_row(
                    before,
                    slug,
                    AddonView { installed_version: None, ..addon_row_at(before, slug) },
                )
            } else {
                before
            },
        }
    }
}

/// Takes in what is on disk of an install: `versions[i]` is the version of the addon at
/// `i` of the catalog, if it is there.
fn look_up(inst: &mut Install, cat: &Catalog, versions: &Vec<Option<String>>)
    requires
        versions@.len() == cat.addons@.len(),
    ensures
        addon_rows(final(inst).addons@) == looked_up(
            addon_rows(old(inst).addons@),
            catalog_slugs(cat.addons@),
            versions@,
            versions@.len() as int,
        ),
        *final(inst) == (Install { addons: final(inst).addons, ..*old(inst) }),
{
    let ghost rows = addon_rows(inst.addons@);
    let ghost names = catalog_slugs(cat.addons@);
    let mut i: usize = 0;
    while i < versions.len()
        invariant
            rows == addon_rows(old(inst).addons@),
            names == catalog_slugs(cat.addons@),
            versions@.len() == cat.addons@.len(),
            i <= versions@.len(),
            addon_rows(inst.addons@) == looked_up(rows, names, versions@, i as int),
            *inst == (Install { addons: inst.addons, ..*old(inst) }),
        decreases versions@.len() - i,
    {
        let ghost addons = inst.addons@;
        let ghost before = addon_rows(addons);
        let slug: &String = &cat.addons[i].slug;
        let ghost k = first_at(slugs(addons), slug@);
        proof {
            assert(names[i as int] == slug@);
            lemma_row_slugs(addons);
            lemma_first_at(slugs(addons), slug@);
        }
        match &versions[i] {
            Some(v) => {
                {
                    let a = inst.addon_mut(slug.as_str());
                    a.installed_version = Some(v.clone());
                    a.enabled = true;
                }
                proof {
                    assert(addon_rows(inst.addons@) =~= with_addon_row(
                        before,
                        slug@,
                        AddonView {
                            enabled: true,
                            installed_version: Some(v@),
                            ..addon_row_at(before, slug@)
                        },
                    ));
                }
            },
            None => {
                let p: usize = addon_position(&inst.addons, slug.as_str());
                if p < inst.addons.len() {
                    inst.addons[p].installed_version = None;
                    proof {
                        assert(addon_rows(inst.addons@) =~= with_addon_row(
                            before,
                            slug@,
                            AddonView { installed_version: None, ..addon_row_at(before, slug@) },
                        ));
                    }
                }
            },
        }
        i = i + 1;
    }
}

/// The first `n` rows without those that are among `gone` for the install `id`.
pub open spec fn rows_without(
    rows: Seq<AddonView>,
    id: Seq<char>,
    gone: Seq<(Seq<char>, Seq<char>)>,
    n: int,
) -> Seq<AddonView>
    decreases n,
{
    if n <= 0 {
        Seq::empty()
    } else {
        let before = rows_without(rows, id, gone, n - 1);
        if gone.contains((id, rows[n - 1].slug)) {
            before
        } else {
            before.push(rows[n - 1])
        }
    }
}

fn has_pair(v: &Vec<(String, String)>, a: &str, b: &str) -> (yes: bool)
    ensures
        yes == pairs_said(v@).contains((a@, b@)),
{
    let mut i: usize = 0;
    while i < v.len()
        invariant
            i <= v@.len(),
            forall|j: int| 0 <= j < i ==> pairs_said(v@)[j] != (a@, b@),
        decreases v@.len() - i,
    {
        proof {
            assert(pairs_said(v@)[i as int] == (v@[i as int].0@, v@[i as int].1@));
        }
        if same_text(v[i].0.as_str(), a) && same_text(v[i].1.as_str(), b) {
            return true;
        }
        i = i + 1;
    }
    false
}

/// Drops the records of an install that are among `gone`.
fn prune(inst: &mut Install, gone: &Vec<(String, String)>)
    ensures
        addon_rows(final(inst).addons@) == rows_without(
            addon_rows(old(inst).addons@),
            old(inst).id@,
            pairs_said(gone@),
            old(inst).addons@.len() as int,
        ),
        *final(inst) == (Install { addons: final(inst).addons, ..*old(inst) }),
{
    let ghost rows = addon_rows(inst.addons@);
    let mut rest: Vec<InstalledAddon> = Vec::new();
    std::mem::swap(&mut rest, &mut inst.addons);
    let n: usize = rest.len();
    let mut kept: Vec<InstalledAddon> = Vec::new();
    let mut i: usize = 0;
    proof {
        assert(addon_rows(kept@) =~= Seq::<AddonView>::empty());
    }
    while i < n
        invariant
            i <= n == rows.len(),
            rest@.len() == n,
            forall|j: int| i <= j < n ==> (#[trigger] rest@[j])@ == rows[j],
            addon_rows(kept@) == rows_without(rows, inst.id@, pairs_said(gone@), i as int),
        decreases n - i,
    {
        let mut a = InstalledAddon::new("");
        proof {
            assert(rest@[i as int]@ == rows[i as int]);
        }
        std::mem::swap(&mut a, &mut rest[i]);
        if !has_pair(gone, inst.id.as_str(), a.slug.as_str()) {
            let ghost before = addon_rows(kept@);
            let ghost said = a@;
            kept.push(a);
            proof {
                assert(addon_rows(kept@) =~= before.push(said));
            }
        }
        i = i + 1;
    }
    inst.addons = kept;
}

/// What is on disk of an install: nothing is known of one that is not there.
pub type DiskVersions = Option<Vec<Option<String>>>;

/// Whether there is an answer for each addon of the catalog where there are any.
pub open spec fn covers(versions: DiskVersions, cat: Catalog) -> bool {
    versions matches Some(v) ==> v@.len() == cat.addons@.len()
}

/// What the records of an install say after what is on disk was taken in.
pub open spec fn install_looked_up(inst: Install, cat: Catalog, versions: DiskVersions) -> Seq<
    AddonView,
> {
    match versions {
        Some(v) => looked_up(
            addon_rows(inst.addons@),
            catalog_slugs(cat.addons@),
            v@,
            v@.len() as int,
        ),
        None => addon_rows(inst.addons@),
    }
}

/// Takes in what is on disk: `versions[i]` holds the versions of the addons of the install
/// at `i`, if it is there.
pub fn look_up_installs(cfg: &mut AppConfig, cat: &Catalog, versions: &Vec<DiskVersions>)
    requires
        versions@.len() == old(cfg).installs@.len(),
        forall|i: int| 0 <= i < versions@.len() ==> covers(#[trigger] versions@[i], *cat),
    ensures
        final(cfg).installs@.len() == old(cfg).installs@.len(),
        forall|i: int|
            0 <= i < old(cfg).installs@.len() ==> {
                &&& addon_rows((#[trigger] final(cfg).installs@[i]).addons@) == install_looked_up(
                    old(cfg).installs@[i],
                    *cat,
                    versions@[i],
                )
                &&& final(cfg).installs@[i] == (Install {
                    addons: final(cfg).installs@[i].addons,
                    ..old(cfg).installs@[i]
                })
            },
        *final(cfg) == (AppConfig { installs: final(cfg).installs, ..*old(cfg) }),
{
    let ghost before = cfg.installs@;
    let mut i: usize = 0;
    while i < cfg.installs.len()
        invariant
            before == old(cfg).installs@,
            versions@.len() == before.len(),
            forall|j: int| 0 <= j < versions@.len() ==> covers(#[trigger] versions@[j], *cat),
            cfg.installs@.len() == before.len(),
            i <= before.len(),
            forall|j: int|
                0 <= j < i ==> {
                    &&& addon_rows((#[trigger] cfg.installs@[j]).addons@) == install_looked_up(
                        before[j],
                        *cat,
                        versions@[j],
                    )
                    &&& cfg.installs@[j] == (Install {
                        addons: cfg.installs@[j].addons,
                        ..before[j]
                    })
                },
            forall|j: int| i <= j < before.len() ==> cfg.installs@[j] == before[j],
            *cfg == (AppConfig { installs: cfg.installs, ..*old(cfg) }),
        decreases before.len() - i,
    {
        proof {
            assert(covers(versions@[i as int], *cat));
        }
        if let Some(v) = &versions[i] {
            look_up(&mut cfg.installs[i], cat, v);
        }
        i = i + 1;
    }
}

/// Drops the records that are left over from renames.
pub fn prune_orphans(cfg: &mut AppConfig, cat: &Catalog)
    ensures
        ({
            let gone = left_over(
                old(cfg).installs@,
                *cat,
                old(cfg).installs@.len() as int,
            );
            &&& final(cfg).installs@.len() == old(cfg).installs@.len()
            &&& forall|i: int|
                0 <= i < old(cfg).installs@.len() ==> {
                    &&& addon_rows((#[trigger] final(cfg).installs@[i]).addons@) == rows_without(
                        addon_rows(old(cfg).installs@[i].addons@),
                        old(cfg).installs@[i].id@,
                        gone,
                        old(cfg).installs@[i].addons@.len() as int,
                    )
                    &&& final(cfg).installs@[i] == (Install {
                        addons: final(cfg).installs@[i].addons,
                        ..old(cfg).installs@[i]
                    })
                }
        }),
        *final(cfg) == (AppConfig { installs: final(cfg).installs, ..*old(cfg) }),
{
    let gone = compute_orphans(cfg, cat);
    let ghost before = cfg.installs@;
    let mut i: usize = 0;
    while i < cfg.installs.len()
        invariant
            before == old(cfg).installs@,
            cfg.installs@.len() == before.len(),
            i <= before.len(),
            forall|j: int|
                0 <= j < i ==> {
                    &&& addon_rows((#[trigger] cfg.installs@[j]).addons@) == rows_without(
                        addon_rows(before[j].addons@),
                        before[j].id@,
                        pairs_said(gone@),
                        before[j].addons@.len() as int,
                    )
                    &&& cfg.installs@[j] == (Install {
                        addons: cfg.installs@[j].addons,
                        ..before[j]
                    })
                },
            forall|j: int| i <= j < before.len() ==> cfg.installs@[j] == before[j],
            *cfg == (AppConfig { installs: cfg.installs, ..*old(cfg) }),
        decreases before.len() - i,
    {
        prune(&mut cfg.installs[i], &gone);
        i = i + 1;
    }
}

/// Brings the records in line with what is on disk and with the catalog: addons that are
/// there are enabled with their version, versions of those that are gone are dropped, and
/// so are records that are left over from renames. Installs that are not there keep their
/// records, but for left-over ones.
pub fn reconcile_installed(cfg: &mut AppConfig, cat: &Catalog, versions: &Vec<DiskVersions>)
    requires
        versions@.len() == old(cfg).installs@.len(),
        forall|i: int| 0 <= i < versions@.len() ==> covers(#[trigger] versions@[i], *cat),
    ensures
        exists|mid: AppConfig| #[trigger] reconciled_through(*old(cfg), mid, *final(cfg), *cat, versions@),
{
    let ghost start = *cfg;
    look_up_installs(cfg, cat, versions);
    let ghost mid = *cfg;
    prune_orphans(cfg, cat);
    proof {
        assert(reconciled_through(start, mid, *cfg, *cat, versions@));
    }
}

/// Whether `mid` is `before` with what is on disk taken in, and `after` is `mid` without
/// the records that are left over from renames.
pub open spec fn reconciled_through(
    before: AppConfig,
    mid: AppConfig,
    after: AppConfig,
    cat: Catalog,
    versions: Seq<DiskVersions>,
) -> bool {
    let gone = left_over(mid.installs@, cat, mid.installs@.len() as int);
    &&& mid.installs@.len() == before.installs@.len()
    &&& after.installs@.len() == before.installs@.len()
    &&& forall|i: int|
        0 <= i < before.installs@.len() ==> {
            &&& addon_rows((#[trigger] mid.installs@[i]).addons@) == install_looked_up(
                before.installs@[i],
                cat,
                versions[i],
            )
            &&& mid.installs@[i] == (Install {
                addons: mid.installs@[i].addons,
                ..before.installs@[i]
            })
        }
    &&& forall|i: int|
        0 <= i < before.installs@.len() ==> {
            &&& addon_rows((#[trigger] after.installs@[i]).addons@) == rows_without(
                addon_rows(mid.installs@[i].addons@),
                mid.installs@[i].id@,
                gone,
                mid.installs@[i].addons@.len() as int,
            )
            &&& after.installs@[i] == (Install {
                addons: after.installs@[i].addons,
                ..mid.installs@[i]
            })
        }
    &&& after == (AppConfig { installs: after.installs, ..before })
}

proof fn lemma_left_over_in(inst: Install, cat: Catalog, n: int, k: int)
    requires
        0 <= n <= inst.addons@.len(),
        0 <= k < left_over_in(inst, cat, n).len(),
    ensures
        !cat.lists(left_over_in(inst, cat, n)[k].1),
    decreases n,
{
    if n > 0 && k < left_over_in(inst, cat, n - 1).len() {
        lemma_left_over_in(inst, cat, n - 1, k);
    }
}

proof fn lemma_left_over(installs: Seq<Install>, cat: Catalog, n: int, k: int)
    requires
        0 <= n <= installs.len(),
        0 <= k < left_over(installs, cat, n).len(),
    ensures
        !cat.lists(left_over(installs, cat, n)[k].1),
    decreases n,
{
    if n > 0 && cat.addons@.len() > 0 {
        let before = left_over(installs, cat, n - 1);
        if k < before.len() {
            lemma_left_over(installs, cat, n - 1, k);
        } else {
            let last = installs[n - 1];
            lemma_left_over_in(last, cat, last.addons@.len() as int, k - before.len());
        }
    }
}

proof fn lemma_rows_stay(
    rows: Seq<AddonView>,
    id: Seq<char>,
    gone: Seq<(Seq<char>, Seq<char>)>,
    n: int,
    k: int,
)
    requires
        0 <= k < n <= rows.len(),
        !gone.contains((id, rows[k].slug)),
    ensures
        rows_without(rows, id, gone, n).contains(rows[k]),
    decreases n,
{
    let before = rows_without(rows, id, gone, n - 1);
    if k == n - 1 {
        assert(before.push(rows[k]).last() == rows[k]);
    } else {
        lemma_rows_stay(rows, id, gone, n - 1, k);
        let j = before.index_of(rows[k]);
        assert(before.push(rows[n - 1])[j] == rows[k]);
    }
}

/// Reconciling never drops the record of an addon that the catalog lists: what the
/// record says once the disk was looked up is still there in the end.
pub proof fn law_listed_records_stay(
    before: AppConfig,
    mid: AppConfig,
    after: AppConfig,
    cat: Catalog,
    versions: Seq<DiskVersions>,
    i: int,
    k: int,
)
    requires
        reconciled_through(before, mid, after, cat, versions),
        0 <= i < before.installs@.len(),
        0 <= k < mid.installs@[i].addons@.len(),
        cat.lists(mid.installs@[i].addons@[k].slug@),
    ensures
        addon_rows(after.installs@[i].addons@).contains(mid.installs@[i].addons@[k]@),
{
    let gone = left_over(mid.installs@, cat, mid.installs@.len() as int);
    let rows = addon_rows(mid.installs@[i].addons@);
    let id = mid.installs@[i].id@;
    assert(after.installs@[i] == after.installs@[i]);
    if gone.contains((id, rows[k].slug)) {
        let j = gone.index_of((id, rows[k].slug));
        lemma_left_over(mid.installs@, cat, mid.installs@.len() as int, j);
    }
    lemma_rows_stay(rows, id, gone, rows.len() as int, k);
}

// ---------------------------------------------------------------------------
// What the server is told
// ---------------------------------------------------------------------------

/// An addon in the report on installs.
#[derive(Debug)]
pub struct InstallAddon {
    pub name: String,
    pub version: String,
    pub channel: String,
}

/// An install in the report.
#[derive(Debug)]
pub struct InstallEntry {
    pub install: String,
    pub flavor: String,
    pub addons: Vec<InstallAddon>,
}

/// The report on installs.
#[derive(Debug)]
pub struct InstallsReport {
    pub schema: String,
    pub installs: Vec<InstallEntry>,
}

/// What an install in the report says: its name, its flavor, and the name, version and
/// channel of each addon.
pub struct InstallEntryView {
    pub install: Seq<char>,
    pub flavor: Seq<char>,
    pub addons: Seq<(Seq<char>, Seq<char>, Seq<char>)>,
}

impl View for InstallEntry {
    type V = InstallEntryView;

    open spec fn view(&self) -> InstallEntryView {
        InstallEntryView {
            install: self.install@,
            flavor: self.flavor@,
            addons: Seq::new(
                self.addons@.len(),
                |i: int|
                    (self.addons@[i].name@, self.addons@[i].version@, self.addons@[i].channel@),
            ),
        }
    }
}

/// What a row of installs in the report says.
pub open spec fn report_entries(v: Seq<InstallEntry>) -> Seq<InstallEntryView> {
    Seq::new(v.len(), |i: int| v[i]@)
}

/// The first `n` addons of an install, of those that are installed.
pub open spec fn reported_addons(inst: Install, n: int) -> Seq<(Seq<char>, Seq<char>, Seq<char>)>
    decreases n,
{
    if n <= 0 {
        Seq::empty()
    } else {
        let before = reported_addons(inst, n - 1);
        let a = inst.addons@[n - 1];
        match a.installed_version {
            Some(v) => before.push((a.slug@, v@, inst.channel_of(a.slug@))),
            None => before,
        }
    }
}

/// What is reported of the first `n` installs, of those that are there.
pub open spec fn reported_installs(
    style: PathStyle,
    installs: Seq<Install>,
    online: Seq<bool>,
    n: int,
) -> Seq<InstallEntryView>
    decreases n,
{
    if n <= 0 {
        Seq::empty()
    } else {
        let before = reported_installs(style, installs, online, n - 1);
        let inst = installs[n - 1];
        if online[n - 1] {
            before.push(
                InstallEntryView {
                    install: inst.label@ + " \u{b7} "@ + inst.flavor@,
                    flavor: token_in(path_of(style, inst.path@).parts, 0),
                    addons: reported_addons(inst, inst.addons@.len() as int),
                },
            )
        } else {
            before
        }
    }
}

fn report_entry(style: PathStyle, inst: &Install) -> (e: InstallEntry)
    ensures
        e@ == (InstallEntryView {
            install: inst.label@ + " \u{b7} "@ + inst.flavor@,
            flavor: token_in(path_of(style, inst.path@).parts, 0),
            addons: reported_addons(*inst, inst.addons@.len() as int),
        }),
{
    let mut addons: Vec<InstallAddon> = Vec::new();
    let mut i: usize = 0;
    let ghost mut said: Seq<(Seq<char>, Seq<char>, Seq<char>)> = Seq::empty();
    while i < inst.addons.len()
        invariant
            i <= inst.addons@.len(),
            said == reported_addons(*inst, i as int),
            said.len() == addons@.len(),
            forall|j: int|
                0 <= j < addons@.len() ==> (
                    (#[trigger] addons@[j]).name@,
                    addons@[j].version@,
                    addons@[j].channel@,
                ) == said[j],
        decreases inst.addons@.len() - i,
    {
        let a: &InstalledAddon = &inst.addons[i];
        if let Some(v) = &a.installed_version {
            addons.push(
                InstallAddon {
                    name: a.slug.clone(),
                    version: v.clone(),
                    channel: inst.channel_for(a.slug.as_str()),
                },
            );
            proof {
                said = said.push((a.slug@, v@, inst.channel_of(a.slug@)));
            }
        }
        i = i + 1;
    }
    let e = InstallEntry {
        install: join3(inst.label.as_str(), " \u{b7} ", inst.flavor.as_str()),
        flavor: flavor_token_from_path(style, inst.path.as_str()),
        addons,
    };
    proof {
        assert(e@.addons =~= said);
    }
    e
}

/// The report on the installs that are there, if this device is paired and any is. Those
/// that are not there are left out, so that the server keeps what it has of them.
pub fn installs_report(
    style: PathStyle,
    cfg: &AppConfig,
    paired: bool,
    online: &Vec<bool>,
) -> (r: Option<InstallsReport>)
    requires
        online@.len() == cfg.installs@.len(),
    ensures
        ({
            let entries = reported_installs(
                style,
                cfg.installs@,
                online@,
                cfg.installs@.len() as int,
            );
            match r {
                Some(report) => {
                    &&& paired && entries.len() > 0
                    &&& report.schema@ == "gec.installs/1"@
                    &&& report_entries(report.installs@) == entries
                },
                None => !paired || entries.len() == 0,
            }
        }),
{
    if !paired {
        return None;
    }
    let mut installs: Vec<InstallEntry> = Vec::new();
    let mut i: usize = 0;
    proof {
        assert(report_entries(installs@) =~= Seq::<InstallEntryView>::empty());
    }
    while i < cfg.installs.len()
        invariant
            i <= cfg.installs@.len() == online@.len(),
            report_entries(installs@) == reported_installs(
                style,
                cfg.installs@,
                online@,
                i as int,
            ),
        decreases cfg.installs@.len() - i,
    {
        if online[i] {
            let e = report_entry(style, &cfg.installs[i]);
            let ghost before = report_entries(installs@);
            let ghost said = e@;
            installs.push(e);
            proof {
                assert(report_entries(installs@) =~= before.push(said));
            }
        }
        i = i + 1;
    }
    proof {
        assert(report_entries(installs@).len() == installs@.len());
    }
    if installs.len() == 0 {
        return None;
    }
    Some(InstallsReport { schema: "gec.installs/1".to_string(), installs })
}

/// An install that is not there is never reported.
pub proof fn law_offline_installs_are_not_reported(
    style: PathStyle,
    installs: Seq<Install>,
    online: Seq<bool>,
    n: int,
)
    requires
        0 <= n <= installs.len(),
        n <= online.len(),
        forall|i: int| 0 <= i < n ==> !online[i],
    ensures
        reported_installs(style, installs, online, n).len() == 0,
    decreases n,
{
    if n > 0 {
        law_offline_installs_are_not_reported(style, installs, online, n - 1);
    }
}

// ---------------------------------------------------------------------------
// What the updates are for
// ---------------------------------------------------------------------------

/// An update is offered for every addon that is enabled, listed, supports the flavor and is
/// installed in an older version than the one it should be on; it names that version and
/// its address, the version that is installed, and the channel that it comes from. In every
/// other case none is offered.
pub proof fn law_update_is_offered_when_there_is_one(
    inst: Install,
    a: InstalledAddon,
    cat: Catalog,
    def: CatalogAddon,
)
    requires
        cat.lists(a.slug@) ==> def == cat.addons@[cat.addon_at(a.slug@)],
    ensures
        ({
            let wanted = def.target(inst.channel_of(a.slug@), opt_text(a.pinned_version));
            let open = a.enabled && cat.lists(a.slug@) && def.runs_on(inst.flavor@) && wanted is Some
                && a.installed_version is Some;
            &&& upgrade_of(inst, a, cat) is Some <==> open && is_older(
                segments_of(a.installed_version->0@),
                segments_of((wanted->0).0),
            )
            &&& switch_of(inst, a, cat) is Some <==> open && a.installed_version->0@ != (wanted->0).0
            &&& upgrade_of(inst, a, cat) is Some ==> upgrade_of(inst, a, cat) == switch_of(
                inst,
                a,
                cat,
            )
            &&& switch_of(inst, a, cat) matches Some(i) ==> {
                &&& i.install_id == inst.id@
                &&& i.slug == a.slug@
                &&& i.installed == Some(a.installed_version->0@)
                &&& i.latest == (wanted->0).0
                &&& i.url == (wanted->0).1
                &&& i.channel == inst.channel_of(a.slug@)
            }
        }),
{
    if a.installed_version is Some {
        let v = segments_of(a.installed_version->0@);
        crate::version::law_versions_stand_one_way(v, v);
    }
}

/// The updates of an install are those of its addons, each of them, in their order.
pub proof fn law_no_update_is_left_out(inst: Install, cat: Catalog, any_direction: bool, n: int)
    requires
        0 <= n <= inst.addons@.len(),
    ensures
        ({
            let item = |a: InstalledAddon|
                if any_direction {
                    switch_of(inst, a, cat)
                } else {
                    upgrade_of(inst, a, cat)
                };
            items_of(inst, cat, any_direction, n) == inst.addons@.take(n).filter(
                |a: InstalledAddon| item(a) is Some,
            ).map_values(|a: InstalledAddon| item(a)->0)
        }),
    decreases n,
{
    let item = |a: InstalledAddon|
        if any_direction {
            switch_of(inst, a, cat)
        } else {
            upgrade_of(inst, a, cat)
        };
    let has = |a: InstalledAddon| item(a) is Some;
    let get = |a: InstalledAddon| item(a)->0;
    let addons = inst.addons@;
    if n > 0 {
        law_no_update_is_left_out(inst, cat, any_direction, n - 1);
        crate::seqs::lemma_filter_take(addons, n, has);
        let before = addons.take(n - 1).filter(has);
        assert(before.push(addons[n - 1]).map_values(get) =~= before.map_values(get).push(
            get(addons[n - 1]),
        ));
    } else {
        reveal(Seq::filter);
        assert(addons.take(0).filter(has).map_values(get) =~= Seq::empty());
    }
}

/// The updates of all installs hold those of every install that is there, and none of one
/// that is not.
pub proof fn law_every_install_is_checked(
    installs: Seq<Install>,
    cat: Catalog,
    online: Seq<bool>,
    n: int,
    i: int,
    k: int,
)
    requires
        0 <= i < n <= installs.len(),
        n <= online.len(),
        0 <= k < installs[i].addons@.len(),
        upgrade_of(installs[i], installs[i].addons@[k], cat) is Some,
        forall|j: int| 0 <= j < n && j != i ==> (#[trigger] installs[j]).id@ != installs[i].id@,
    ensures
        all_updates(installs, cat, online, n).contains(
            upgrade_of(installs[i], installs[i].addons@[k], cat)->0,
        ) <==> online[i],
    decreases n,
{
    let last = installs[n - 1];
    let item = upgrade_of(installs[i], installs[i].addons@[k], cat)->0;
    let before = all_updates(installs, cat, online, n - 1);
    let more = items_of(last, cat, false, last.addons@.len() as int);
    if i == n - 1 {
        lemma_item_is_among(last, cat, last.addons@.len() as int, k);
        lemma_items_of_others(installs, cat, online, n - 1, installs[i].id@);
        if online[n - 1] {
            let j = more.index_of(item);
            assert((before + more)[before.len() + j] == item);
        }
    } else {
        law_every_install_is_checked(installs, cat, online, n - 1, i, k);
        lemma_items_have_its_id(last, cat, last.addons@.len() as int);
        assert(last.id@ != installs[i].id@);
        if before.contains(item) {
            let j = before.index_of(item);
            assert((before + more)[j] == item);
        }
        if all_updates(installs, cat, online, n).contains(item) && online[n - 1] {
            let j = (before + more).index_of(item);
            if j >= before.len() {
                assert(more[j - before.len()] == item);
            } else {
                assert(before[j] == item);
            }
        }
    }
}

proof fn lemma_item_is_among(inst: Install, cat: Catalog, n: int, k: int)
    requires
        0 <= k < n <= inst.addons@.len(),
        upgrade_of(inst, inst.addons@[k], cat) is Some,
    ensures
        items_of(inst, cat, false, n).contains(upgrade_of(inst, inst.addons@[k], cat)->0),
    decreases n,
{
    let before = items_of(inst, cat, false, n - 1);
    let item = upgrade_of(inst, inst.addons@[k], cat)->0;
    if k == n - 1 {
        assert(before.push(item).last() == item);
    } else {
        lemma_item_is_among(inst, cat, n - 1, k);
        let j = before.index_of(item);
        assert(items_of(inst, cat, false, n)[j] == item);
    }
}

proof fn lemma_items_have_its_id(inst: Install, cat: Catalog, n: int)
    requires
        0 <= n <= inst.addons@.len(),
    ensures
        forall|j: int|
            0 <= j < items_of(inst, cat, false, n).len() ==> (#[trigger] items_of(
                inst,
                cat,
                false,
                n,
            )[j]).install_id == inst.id@,
    decreases n,
{
    if n > 0 {
        lemma_items_have_its_id(inst, cat, n - 1);
    }
}

proof fn lemma_items_of_others(
    installs: Seq<Install>,
    cat: Catalog,
    online: Seq<bool>,
    n: int,
    id: Seq<char>,
)
    requires
        0 <= n <= installs.len(),
        n <= online.len(),
        forall|j: int| 0 <= j < n ==> (#[trigger] installs[j]).id@ != id,
    ensures
        forall|j: int|
            0 <= j < all_updates(installs, cat, online, n).len() ==> (#[trigger] all_updates(
                installs,
                cat,
                online,
                n,
            )[j]).install_id != id,
    decreases n,
{
    if n > 0 {
        lemma_items_of_others(installs, cat, online, n - 1, id);
        let last = installs[n - 1];
        assert(last.id@ != id);
        lemma_items_have_its_id(last, cat, last.addons@.len() as int);
        let before = all_updates(installs, cat, online, n - 1);
        let more = items_of(last, cat, false, last.addons@.len() as int);
        let all = all_updates(installs, cat, online, n);
        assert forall|j: int| 0 <= j < all.len() implies (#[trigger] all[j]).install_id != id by {
            if j < before.len() {
                assert(all[j] == before[j]);
            } else {
                assert(all[j] == more[j - before.len()]);
            }
        }
    }
}

/// The updates of one install among others are all that carry its id, in their order.
pub proof fn law_items_of_an_install_are_all_of_them(items: Seq<ItemView>, id: Seq<char>, n: int)
    requires
        0 <= n <= items.len(),
    ensures
        items_for(items, id, n) == items.take(n).filter(|x: ItemView| x.install_id == id),
    decreases n,
{
    let keep = |x: ItemView| x.install_id == id;
    if n > 0 {
        law_items_of_an_install_are_all_of_them(items, id, n - 1);
        crate::seqs::lemma_filter_take(items, n, keep);
    } else {
        reveal(Seq::filter);
        assert(items_for(items, id, 0) =~= items.take(0));
    }
}

/// The daily pass takes those updates whose addon is to be updated by itself in its install,
/// all of them in their order, and no others.
pub proof fn law_daily_pass_takes_what_it_may(items: Seq<ItemView>, installs: Seq<Install>, n: int)
    requires
        0 <= n <= items.len(),
    ensures
        items_by_themselves(items, installs, n) == items.take(n).filter(
            |x: ItemView| runs_by_itself(installs, x.install_id, x.slug),
        ),
    decreases n,
{
    let keep = |x: ItemView| runs_by_itself(installs, x.install_id, x.slug);
    if n > 0 {
        law_daily_pass_takes_what_it_may(items, installs, n - 1);
        crate::seqs::lemma_filter_take(items, n, keep);
    } else {
        reveal(Seq::filter);
        assert(items_by_themselves(items, installs, 0) =~= items.take(0));
    }
}

/// Whether an addon is updated by itself is its own switch in its own install; an addon
/// without a record, or of an install that is gone, is not.
pub proof fn law_addon_has_its_own_switch(
    installs: Seq<Install>,
    i: int,
    k: int,
    id: Seq<char>,
    slug: Seq<char>,
)
    requires
        0 <= i < installs.len(),
        0 <= k < installs[i].addons@.len(),
        forall|j: int| 0 <= j < i ==> (#[trigger] installs[j]).id@ != installs[i].id@,
        forall|j: int|
            0 <= j < k ==> (#[trigger] installs[i].addons@[j]).slug@ != installs[i].addons@[k].slug@,
        forall|j: int| 0 <= j < installs.len() ==> (#[trigger] installs[j]).id@ != id,
        forall|j: int|
            0 <= j < installs[i].addons@.len() ==> (#[trigger] installs[i].addons@[j]).slug@ != slug,
    ensures
        runs_by_itself(installs, installs[i].id@, installs[i].addons@[k].slug@)
            <==> installs[i].addons@[k].auto_update,
        !runs_by_itself(installs, id, installs[i].addons@[k].slug@),
        !runs_by_itself(installs, installs[i].id@, slug),
{
    let ids = install_ids(installs);
    let names = slugs(installs[i].addons@);
    assert(ids[i] == installs[i].id@);
    assert forall|j: int| 0 <= j < i implies ids[j] != ids[i] by {
        assert(ids[j] == installs[j].id@);
    }
    crate::seqs::law_different_keys_are_each_found(ids, i);
    assert(names[k] == installs[i].addons@[k].slug@);
    assert forall|j: int| 0 <= j < k implies names[j] != names[k] by {
        assert(names[j] == installs[i].addons@[j].slug@);
    }
    crate::seqs::law_different_keys_are_each_found(names, k);
    lemma_first_at(ids, id);
    let p = first_at(ids, id);
    if p < ids.len() {
        assert(ids[p] == installs[p].id@);
    }
    lemma_first_at(names, slug);
    let q = first_at(names, slug);
    if q < names.len() {
        assert(names[q] == installs[i].addons@[q].slug@);
    }
}

/// After the disk was looked up, the record of each catalog addon that is on disk states
/// the version found there, whatever it stated before, and is enabled; that of each one
/// that is not on disk states none. What else a record says stays.
pub proof fn law_disk_decides_what_is_installed(
    rows: Seq<AddonView>,
    names: Seq<Seq<char>>,
    versions: Seq<Option<String>>,
    i: int,
    n: int,
)
    requires
        0 <= i < n <= names.len(),
        names.len() == versions.len(),
        forall|j: int| 0 <= j < names.len() && j != i ==> #[trigger] names[j] != names[i],
    ensures
        ({
            let after = looked_up(rows, names, versions, n);
            let slug = names[i];
            let row = addon_row_at(after, slug);
            let was = addon_row_at(rows, slug);
            &&& versions[i] matches Some(v) ==> {
                &&& row_slugs(after).contains(slug)
                &&& row.enabled
                &&& row.installed_version == Some(v@)
            }
            &&& versions[i] is None ==> {
                &&& row_slugs(after).contains(slug) <==> row_slugs(rows).contains(slug)
                &&& row.enabled == was.enabled
                &&& row.installed_version is None
            }
            &&& row.slug == slug
            &&& row.pinned_version == was.pinned_version
            &&& row.channel_override == was.channel_override
            &&& row.auto_update == was.auto_update
            &&& row.sync == was.sync
            &&& row.folder == was.folder
        }),
    decreases n,
{
    let before = looked_up(rows, names, versions, n - 1);
    let after = looked_up(rows, names, versions, n);
    let slug = names[n - 1];
    let keys = row_slugs(before);
    lemma_first_at(keys, slug);
    let found = addon_row_at(before, slug);
    if first_at(keys, slug) < before.len() {
        assert(keys[first_at(keys, slug)] == slug);
    }
    assert(found.slug == slug);
    if i == n - 1 {
        lemma_lookup_leaves_others(rows, names, versions, n - 1, slug);
        let other = slug.push('.');
        assert(other.len() != slug.len());
        match versions[i] {
            Some(v) => {
                law_addon_record_is_found_again(
                    before,
                    slug,
                    AddonView { enabled: true, installed_version: Some(v@), ..found },
                    other,
                );
            },
            None => {
                law_addon_record_is_found_again(
                    before,
                    slug,
                    AddonView { installed_version: None, ..found },
                    other,
                );
            },
        }
    } else {
        law_disk_decides_what_is_installed(rows, names, versions, i, n - 1);
        assert(names[n - 1] != names[i]);
        match versions[n - 1] {
            Some(v) => {
                law_addon_record_is_found_again(
                    before,
                    slug,
                    AddonView { enabled: true, installed_version: Some(v@), ..found },
                    names[i],
                );
            },
            None => {
                law_addon_record_is_found_again(
                    before,
                    slug,
                    AddonView { installed_version: None, ..found },
                    names[i],
                );
            },
        }
    }
}

/// Looking up the disk leaves the record of an addon alone that the catalog does not list.
pub proof fn law_lookup_leaves_unlisted_records(
    rows: Seq<AddonView>,
    names: Seq<Seq<char>>,
    versions: Seq<Option<String>>,
    slug: Seq<char>,
)
    requires
        names.len() == versions.len(),
        !names.contains(slug),
    ensures
        addon_row_at(looked_up(rows, names, versions, names.len() as int), slug) == addon_row_at(
            rows,
            slug,
        ),
        row_slugs(looked_up(rows, names, versions, names.len() as int)).contains(slug)
            <==> row_slugs(rows).contains(slug),
{
    assert forall|j: int| 0 <= j < names.len() implies #[trigger] names[j] != slug by {
        if names[j] == slug {
            assert(names.contains(slug));
        }
    }
    lemma_lookup_leaves_others(rows, names, versions, names.len() as int, slug);
}

proof fn lemma_lookup_leaves_others(
    rows: Seq<AddonView>,
    names: Seq<Seq<char>>,
    versions: Seq<Option<String>>,
    n: int,
    slug: Seq<char>,
)
    requires
        0 <= n <= names.len(),
        names.len() == versions.len(),
        forall|j: int| 0 <= j < n ==> #[trigger] names[j] != slug,
    ensures
        addon_row_at(looked_up(rows, names, versions, n), slug) == addon_row_at(rows, slug),
        row_slugs(looked_up(rows, names, versions, n)).contains(slug) <==> row_slugs(rows).contains(
            slug,
        ),
    decreases n,
{
    if n > 0 {
        lemma_lookup_leaves_others(rows, names, versions, n - 1, slug);
        let before = looked_up(rows, names, versions, n - 1);
        let name = names[n - 1];
        let keys = row_slugs(before);
        lemma_first_at(keys, name);
        let found = addon_row_at(before, name);
        if first_at(keys, name) < before.len() {
            assert(keys[first_at(keys, name)] == name);
        }
        match versions[n - 1] {
            Some(v) => {
                law_addon_record_is_found_again(
                    before,
                    name,
                    AddonView { enabled: true, installed_version: Some(v@), ..found },
                    slug,
                );
            },
            None => {
                law_addon_record_is_found_again(
                    before,
                    name,
                    AddonView { installed_version: None, ..found },
                    slug,
                );
            },
        }
    }
}

/// After reconciling, an addon that the catalog lists and that was found on disk has a record
/// that states the version found and is enabled; one that was not found has none that
/// states a version.
pub proof fn law_reconciled_record_states_the_disk(
    before: AppConfig,
    mid: AppConfig,
    after: AppConfig,
    cat: Catalog,
    versions: Seq<DiskVersions>,
    i: int,
    c: int,
    found: Vec<Option<String>>,
)
    requires
        reconciled_through(before, mid, after, cat, versions),
        0 <= i < before.installs@.len(),
        versions[i] == Some(found),
        found@.len() == cat.addons@.len(),
        0 <= c < cat.addons@.len(),
        forall|j: int|
            0 <= j < cat.addons@.len() && j != c ==> (#[trigger] cat.addons@[j]).slug@
                != cat.addons@[c].slug@,
    ensures
        found@[c] matches Some(v) ==> exists|k: int|
            0 <= k < after.installs@[i].addons@.len() && (#[trigger] after.installs@[i].addons@[k]).slug@
                == cat.addons@[c].slug@ && after.installs@[i].addons@[k].enabled && opt_text(
                after.installs@[i].addons@[k].installed_version,
            ) == Some(v@),
        addon_row_at(addon_rows(mid.installs@[i].addons@), cat.addons@[c].slug@).installed_version
            == opt_text(found@[c]),
{
    let names = catalog_slugs(cat.addons@);
    let slug = cat.addons@[c].slug@;
    assert(names[c] == slug);
    assert forall|j: int| 0 <= j < names.len() && j != c implies #[trigger] names[j] != names[c] by {
        assert(names[j] == cat.addons@[j].slug@);
    }
    let rows = addon_rows(before.installs@[i].addons@);
    law_disk_decides_what_is_installed(rows, names, found@, c, names.len() as int);
    assert(mid.installs@[i] == mid.installs@[i]);
    let looked = addon_rows(mid.installs@[i].addons@);
    assert(looked == looked_up(rows, names, found@, names.len() as int));
    if found@[c] is Some {
        lemma_first_at(row_slugs(looked), slug);
        let k = first_at(row_slugs(looked), slug);
        assert(k < looked.len());
        assert(looked[k] == mid.installs@[i].addons@[k]@);
        crate::catalog::law_catalog_lists_its_addons(cat, slug, c);
        assert(names.contains(slug));
        law_listed_records_stay(before, mid, after, cat, versions, i, k);
        let end = addon_rows(after.installs@[i].addons@);
        let m = end.index_of(looked[k]);
        assert(end[m] == after.installs@[i].addons@[m]@);
        assert(after.installs@[i].addons@[m].slug@ == slug);
    }
}

/// Records that are left over go, and only they: a record is dropped exactly where its
/// install and slug are among those to go; the others stay in their order.
pub proof fn law_only_what_is_left_over_goes(
    rows: Seq<AddonView>,
    id: Seq<char>,
    gone: Seq<(Seq<char>, Seq<char>)>,
    n: int,
)
    requires
        0 <= n <= rows.len(),
    ensures
        rows_without(rows, id, gone, n) == rows.take(n).filter(
            |r: AddonView| !gone.contains((id, r.slug)),
        ),
    decreases n,
{
    let keep = |r: AddonView| !gone.contains((id, r.slug));
    if n > 0 {
        law_only_what_is_left_over_goes(rows, id, gone, n - 1);
        crate::seqs::lemma_filter_take(rows, n, keep);
    } else {
        reveal(Seq::filter);
        assert(rows_without(rows, id, gone, 0) =~= rows.take(0));
    }
}

/// A record is left over where the catalog does not list its addon and either nothing was
/// ever installed for it or its folder belongs to an addon of the same install that the
/// catalog does list. As long as the catalog lists anything, every such record of every
/// install is found.
pub proof fn law_left_over_records_are_found(
    installs: Seq<Install>,
    cat: Catalog,
    n: int,
    i: int,
    k: int,
    other: int,
)
    requires
        0 <= i < n <= installs.len(),
        0 <= k < installs[i].addons@.len(),
        0 <= other < installs[i].addons@.len(),
        cat.addons@.len() > 0,
        !cat.lists(installs[i].addons@[k].slug@),
        installs[i].addons@[k].folder is None || cat.lists(installs[i].addons@[other].slug@)
            && opt_text(installs[i].addons@[other].folder) == opt_text(installs[i].addons@[k].folder),
    ensures
        left_over(installs, cat, n).contains((installs[i].id@, installs[i].addons@[k].slug@)),
    decreases n,
{
    let last = installs[n - 1];
    let before = left_over(installs, cat, n - 1);
    let more = left_over_in(last, cat, last.addons@.len() as int);
    let pair = (installs[i].id@, installs[i].addons@[k].slug@);
    if i == n - 1 {
        assert(is_left_over(last, last.addons@[k], cat)) by {
            if last.addons@[k].folder is Some {
                assert(cat.lists(last.addons@[other].slug@));
            }
        }
        lemma_left_over_is_among(last, cat, last.addons@.len() as int, k);
        let j = more.index_of(pair);
        assert((before + more)[before.len() + j] == pair);
    } else {
        law_left_over_records_are_found(installs, cat, n - 1, i, k, other);
        let j = before.index_of(pair);
        assert((before + more)[j] == pair);
    }
}

proof fn lemma_left_over_is_among(inst: Install, cat: Catalog, n: int, k: int)
    requires
        0 <= k < n <= inst.addons@.len(),
        is_left_over(inst, inst.addons@[k], cat),
    ensures
        left_over_in(inst, cat, n).contains((inst.id@, inst.addons@[k].slug@)),
    decreases n,
{
    let before = left_over_in(inst, cat, n - 1);
    let pair = (inst.id@, inst.addons@[k].slug@);
    if k == n - 1 {
        assert(before.push(pair).last() == pair);
    } else {
        lemma_left_over_is_among(inst, cat, n - 1, k);
        let j = before.index_of(pair);
        assert(left_over_in(inst, cat, n)[j] == pair);
    }
}

/// The report on an install names every addon that is installed there, with its version and
/// the channel that it comes from, in the order of the records, and no other addon.
pub proof fn law_report_names_what_is_installed(inst: Install, n: int)
    requires
        0 <= n <= inst.addons@.len(),
    ensures
        reported_addons(inst, n) == inst.addons@.take(n).filter(
            |a: InstalledAddon| a.installed_version is Some,
        ).map_values(
            |a: InstalledAddon| (a.slug@, a.installed_version->0@, inst.channel_of(a.slug@)),
        ),
    decreases n,
{
    let has = |a: InstalledAddon| a.installed_version is Some;
    let get = |a: InstalledAddon| (a.slug@, a.installed_version->0@, inst.channel_of(a.slug@));
    let addons = inst.addons@;
    if n > 0 {
        law_report_names_what_is_installed(inst, n - 1);
        crate::seqs::lemma_filter_take(addons, n, has);
        let before = addons.take(n - 1).filter(has);
        assert(before.push(addons[n - 1]).map_values(get) =~= before.map_values(get).push(
            get(addons[n - 1]),
        ));
    } else {
        reveal(Seq::filter);
        assert(addons.take(0).filter(has).map_values(get) =~= Seq::empty());
    }
}

/// The report has an entry for every install that is there, in their order: its label and
/// flavor, and what is installed in it.
pub proof fn law_report_has_every_install(
    style: PathStyle,
    installs: Seq<Install>,
    online: Seq<bool>,
    n: int,
    i: int,
)
    requires
        0 <= i < n <= installs.len(),
        n <= online.len(),
        forall|j: int| 0 <= j < n ==> #[trigger] online[j],
    ensures
        reported_installs(style, installs, online, n).len() == n,
        reported_installs(style, installs, online, n)[i].addons == reported_addons(
            installs[i],
            installs[i].addons@.len() as int,
        ),
        reported_installs(style, installs, online, n)[i].install == installs[i].label@ + " \u{b7} "@
            + installs[i].flavor@,
        reported_installs(style, installs, online, n)[i].flavor == token_in(
            path_of(style, installs[i].path@).parts,
            0,
        ),
    decreases n,
{
    assert(online[n - 1]);
    if n > 1 {
        law_report_has_every_install(
            style,
            installs,
            online,
            n - 1,
            if i < n - 1 {
                i
            } else {
                0
            },
        );
    } else {
        assert(reported_installs(style, installs, online, 0).len() == 0);
    }
}

/// An install whose folder could not be looked at keeps its records as they are.
pub proof fn law_install_out_of_reach_is_left_alone(inst: Install, cat: Catalog)
    ensures
        install_looked_up(inst, cat, None) == addon_rows(inst.addons@),
{
}

} // verus!
