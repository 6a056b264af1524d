//! A sync as a whole: whether it runs, which files it sweeps, and when it sweeps them
//! again.
use vstd::prelude::*;

use crate::config::{all_rewound, resync_is_new, AppConfig, Install, InstalledAddon};
use crate::json::{text_field, Json, JsonView};
use crate::paths::{
    is_bare_share,
    is_part,
    is_separator,
    join_of,
    join_path,
    law_joined_part_comes_last,
    path_of,
    PathStyle,
};
use crate::seqs::{clone_texts, contains, opt_text};
use crate::sync::{
    account_dir_of,
    effective_accounts,
    export_row,
    export_table,
    exports,
    kept,
    wtf_account_dir,
    AddonExport,
    SyncResult,
    SyncRow,
};
use crate::text::{join2, join3, texts, trim_of};
use crate::upload::InstallSnap;

verus! {

// ---------------------------------------------------------------------------
// Whether a sync runs
// ---------------------------------------------------------------------------

/// What a user is told whose device is not paired.
pub open spec fn not_paired() -> Seq<char> {
    "not paired \u{2014} pair this device first"@
}

/// The slugs of the first `n` addons whose data may be uploaded.
pub open spec fn syncing_slugs(addons: Seq<InstalledAddon>, n: int) -> Seq<Seq<char>>
    decreases n,
{
    if n <= 0 {
        Seq::empty()
    } else {
        let before = syncing_slugs(addons, n - 1);
        if addons[n - 1].syncs() {
            before.push(addons[n - 1].slug@)
        } else {
            before
        }
    }
}

/// Whether `snap` is the install `i` as a sweep sees it.
pub open spec fn is_snap_of(snap: InstallSnap, i: Install) -> bool {
    &&& snap.id@ == i.id@
    &&& snap.label@ == i.label@ + " \u{b7} "@ + i.flavor@
    &&& snap.addons_path@ == i.path@
    &&& snap.sync_accounts@ == i.sync_accounts@
    &&& texts(snap.sync_slugs@) == syncing_slugs(i.addons@, i.addons@.len() as int)
}

/// The first `n` installs that are there.
pub open spec fn online_installs(installs: Seq<Install>, online: Seq<bool>, n: int) -> Seq<Install>
    decreases n,
{
    if n <= 0 {
        Seq::empty()
    } else {
        let before = online_installs(installs, online, n - 1);
        if online[n - 1] {
            before.push(installs[n - 1])
        } else {
            before
        }
    }
}

/// Whether `snaps` are the installs `installs` as a sweep sees them.
pub open spec fn are_snaps_of(snaps: Seq<InstallSnap>, installs: Seq<Install>) -> bool {
    &&& snaps.len() == installs.len()
    &&& forall|i: int| 0 <= i < snaps.len() ==> is_snap_of(#[trigger] snaps[i], installs[i])
}

fn syncing(addons: &Vec<InstalledAddon>) -> (slugs: Vec<String>)
    ensures
        texts(slugs@) == syncing_slugs(addons@, addons@.len() as int),
{
    let mut slugs: Vec<String> = Vec::new();
    let mut i: usize = 0;
    proof {
        assert(texts(slugs@) =~= Seq::<Seq<char>>::empty());
    }
    while i < addons.len()
        invariant
            i <= addons@.len(),
            texts(slugs@) == syncing_slugs(addons@, i as int),
        decreases addons@.len() - i,
    {
        if addons[i].may_sync() {
            let ghost before = texts(slugs@);
            slugs.push(addons[i].slug.clone());
            proof {
                assert(texts(slugs@) =~= before.push(addons@[i as int].slug@));
            }
        }
        i = i + 1;
    }
    slugs
}

/// The installs that are there, as a sweep sees them. `online[i]` says whether the
/// directory of the install at `i` is there.
pub fn snapshot_installs(cfg: &AppConfig, online: &Vec<bool>) -> (snaps: Vec<InstallSnap>)
    requires
        online@.len() == cfg.installs@.len(),
    ensures
        are_snaps_of(
            snaps@,
            online_installs(cfg.installs@, online@, cfg.installs@.len() as int),
        ),
{
    let mut snaps: Vec<InstallSnap> = Vec::new();
    let mut i: usize = 0;
    while i < cfg.installs.len()
        invariant
            i <= cfg.installs@.len() == online@.len(),
            are_snaps_of(snaps@, online_installs(cfg.installs@, online@, i as int)),
        decreases cfg.installs@.len() - i,
    {
        if online[i] {
            let inst: &Install = &cfg.installs[i];
            snaps.push(
                InstallSnap {
                    id: inst.id.clone(),
                    label: join3(inst.label.as_str(), " \u{b7} ", inst.flavor.as_str()),
                    addons_path: inst.path.clone(),
                    sync_accounts: clone_texts(&inst.sync_accounts),
                    sync_slugs: syncing(&inst.addons),
                },
            );
        }
        i = i + 1;
    }
    snaps
}

/// How a sync begins.
pub enum SyncStart {
    /// There is no device token. The text says so.
    NotPaired(String),
    /// The game runs, and the user does not want a sync then.
    GameRunning(SyncResult),
    /// These installs are swept.
    Sweep(Vec<InstallSnap>),
}

/// What is reported where the sync waits for the game to end.
pub open spec fn game_running_row() -> SyncRow {
    SyncRow {
        install_id: Seq::empty(),
        install_label: Seq::empty(),
        account: Seq::empty(),
        addon: Seq::empty(),
        stream: Seq::empty(),
        found: 0,
        accepted: 0,
        inserted: 0,
        cursor: Seq::empty(),
        unknown: false,
        skipped: Some("WoW is running (sync-while-running off)"@),
        error: None,
        warning: None,
    }
}

/// Begins a sync: not without a device token, and not while the game runs unless the user
/// allows that or asked for the sync by hand.
pub fn begin_sync(
    cfg: &AppConfig,
    paired: bool,
    manual: bool,
    game_runs: bool,
    online: &Vec<bool>,
) -> (r: SyncStart)
    requires
        online@.len() == cfg.installs@.len(),
    ensures
        match r {
            SyncStart::NotPaired(e) => !paired && e@ == not_paired(),
            SyncStart::GameRunning(row) => {
                &&& paired && !may_run(manual, cfg.sync_while_running, game_runs)
                &&& row@ == game_running_row()
            },
            SyncStart::Sweep(snaps) => {
                &&& paired && may_run(manual, cfg.sync_while_running, game_runs)
                &&& are_snaps_of(
                    snaps@,
                    online_installs(cfg.installs@, online@, cfg.installs@.len() as int),
                )
            },
        },
{
    if !paired {
        return SyncStart::NotPaired("not paired \u{2014} pair this device first".to_string());
    }
    if !manual && !cfg.sync_while_running && game_runs {
        return SyncStart::GameRunning(
            SyncResult {
                install_id: String::new(),
                install_label: String::new(),
                account: String::new(),
                addon: String::new(),
                stream: String::new(),
                found: 0,
                accepted: 0,
                inserted: 0,
                cursor: String::new(),
                unknown: false,
                skipped: Some("WoW is running (sync-while-running off)".to_string()),
                error: None,
                warning: None,
            },
        );
    }
    SyncStart::Sweep(snapshot_installs(cfg, online))
}

// ---------------------------------------------------------------------------
// Which files are swept
// ---------------------------------------------------------------------------

/// A file to sweep: the account that it belongs to, the addon, and where it is.
#[derive(Debug)]
pub struct SweepJob {
    pub account: String,
    pub export: AddonExport,
    pub file: String,
}

/// What a file to sweep says: its account, the addon's slug, and where it is.
pub open spec fn job_said(j: SweepJob) -> (Seq<char>, (Seq<char>, Seq<char>, Seq<char>), Seq<char>) {
    (j.account@, export_row(j.export), j.file@)
}

/// What a row of files says.
pub open spec fn jobs_said(v: Seq<SweepJob>) -> Seq<
    (Seq<char>, (Seq<char>, Seq<char>, Seq<char>), Seq<char>),
> {
    Seq::new(v.len(), |i: int| job_said(v[i]))
}

/// The saved variables of an addon in an account.
pub open spec fn saved_file(
    style: PathStyle,
    wtf: Seq<char>,
    account: Seq<char>,
    addon: Seq<char>,
) -> Seq<char> {
    let dir = join_of(style, join_of(style, wtf, account), "SavedVariables"@);
    join_of(style, dir, addon + ".lua"@)
}

/// The files of the first `n` exported addons in an account, of those that may sync.
pub open spec fn account_jobs(
    style: PathStyle,
    wtf: Seq<char>,
    account: Seq<char>,
    slugs: Seq<Seq<char>>,
    n: int,
) -> Seq<(Seq<char>, (Seq<char>, Seq<char>, Seq<char>), Seq<char>)>
    decreases n,
{
    if n <= 0 {
        Seq::empty()
    } else {
        let before = account_jobs(style, wtf, account, slugs, n - 1);
        let e = export_table()[n - 1];
        if slugs.contains(e.0) {
            before.push((account, e, saved_file(style, wtf, account, e.1)))
        } else {
            before
        }
    }
}

/// The files of the first `n` accounts.
pub open spec fn all_jobs(
    style: PathStyle,
    wtf: Seq<char>,
    accounts: Seq<Seq<char>>,
    slugs: Seq<Seq<char>>,
    n: int,
) -> Seq<(Seq<char>, (Seq<char>, Seq<char>, Seq<char>), Seq<char>)>
    decreases n,
{
    if n <= 0 {
        Seq::empty()
    } else {
        all_jobs(style, wtf, accounts, slugs, n - 1) + account_jobs(
            style,
            wtf,
            accounts[n - 1],
            slugs,
            2,
        )
    }
}

/// The files to sweep of an install: for each of its accounts that the user selected, the
/// exports of the addons that may sync.
pub open spec fn install_jobs(
    style: PathStyle,
    snap: InstallSnap,
    discovered: Seq<Seq<char>>,
) -> Seq<(Seq<char>, (Seq<char>, Seq<char>, Seq<char>), Seq<char>)> {
    match account_dir_of(style, snap.addons_path@) {
        Some(wtf) => {
            let accounts = kept(discovered, texts(snap.sync_accounts@));
            all_jobs(style, wtf, accounts, texts(snap.sync_slugs@), accounts.len() as int)
        },
        None => Seq::empty(),
    }
}

/// The files to sweep of an install in which the accounts `discovered` were found.
pub fn sweep_jobs(style: PathStyle, snap: &InstallSnap, discovered: &Vec<String>) -> (jobs: Vec<
    SweepJob,
>)
    ensures
        jobs_said(jobs@) == install_jobs(style, *snap, texts(discovered@)),
{
    let mut jobs: Vec<SweepJob> = Vec::new();
    let wtf: String = match wtf_account_dir(style, snap.addons_path.as_str()) {
        Some(d) => d,
        None => {
            proof {
                assert(jobs_said(jobs@) =~= Seq::empty());
            }
            return jobs;
        },
    };
    let accounts = effective_accounts(&snap.sync_accounts, discovered);
    let ghost names = texts(accounts@);
    let ghost slugs = texts(snap.sync_slugs@);
    let table = exports();
    let mut i: usize = 0;
    proof {
        assert(jobs_said(jobs@) =~= Seq::empty());
    }
    while i < accounts.len()
        invariant
            i <= accounts@.len(),
            names == texts(accounts@),
            slugs == texts(snap.sync_slugs@),
            table@.len() == 2,
            forall|j: int| 0 <= j < 2 ==> export_row(#[trigger] table@[j]) == export_table()[j],
            jobs_said(jobs@) == all_jobs(style, wtf@, names, slugs, i as int),
        decreases accounts@.len() - i,
    {
        let account: &String = &accounts[i];
        let ghost start = jobs_said(jobs@);
        let dir = join_path(
            style,
            join_path(style, wtf.as_str(), account.as_str()).as_str(),
            "SavedVariables",
        );
        let mut k: usize = 0;
        proof {
            assert(names[i as int] == account@);
            assert(start =~= start + account_jobs(style, wtf@, account@, slugs, 0));
        }
        while k < 2
            invariant
                k <= 2,
                table@.len() == 2,
                slugs == texts(snap.sync_slugs@),
                forall|j: int| 0 <= j < 2 ==> export_row(#[trigger] table@[j]) == export_table()[j],
                dir@ == join_of(
                    style,
                    join_of(style, wtf@, account@),
                    "SavedVariables"@,
                ),
                jobs_said(jobs@) == start + account_jobs(style, wtf@, account@, slugs, k as int),
            decreases 2 - k,
        {
            let exp: AddonExport = table[k];
            let ghost before = account_jobs(style, wtf@, account@, slugs, k as int);
            let ghost said_before = jobs_said(jobs@);
            proof {
                assert(export_row(table@[k as int]) == export_table()[k as int]);
            }
            if contains(&snap.sync_slugs, exp.slug) {
                let file = join_path(style, dir.as_str(), join2(exp.addon, ".lua").as_str());
                let job = SweepJob { account: account.clone(), export: exp, file };
                let ghost said = job_said(job);
                jobs.push(job);
                proof {
                    assert(jobs_said(jobs@) =~= said_before.push(said));
                    assert((start + before).push(said) =~= start + before.push(said));
                }
            }
            k = k + 1;
        }
        i = i + 1;
    }
    jobs
}

/// Nothing is swept that the user did not allow: every file is of an account that was
/// selected and found, and of an addon that may sync.
pub proof fn law_only_allowed_files_are_swept(
    style: PathStyle,
    snap: InstallSnap,
    discovered: Seq<Seq<char>>,
)
    ensures
        ({
            let jobs = install_jobs(style, snap, discovered);
            forall|i: int|
                0 <= i < jobs.len() ==> {
                    &&& texts(snap.sync_accounts@).contains((#[trigger] jobs[i]).0)
                    &&& discovered.contains(jobs[i].0)
                    &&& texts(snap.sync_slugs@).contains(jobs[i].1.0)
                }
        }),
{
    if let Some(wtf) = account_dir_of(style, snap.addons_path@) {
        let selected = texts(snap.sync_accounts@);
        let accounts = kept(discovered, selected);
        let slugs = texts(snap.sync_slugs@);
        crate::sync::law_effective_accounts_are_the_intersection(discovered, selected);
        lemma_all_jobs_allowed(style, wtf, accounts, slugs, accounts.len() as int);
        let jobs = install_jobs(style, snap, discovered);
        assert forall|i: int| 0 <= i < jobs.len() implies {
            &&& selected.contains((#[trigger] jobs[i]).0)
            &&& discovered.contains(jobs[i].0)
            &&& slugs.contains(jobs[i].1.0)
        } by {
            assert(accounts.contains(jobs[i].0));
        }
    }
}

proof fn lemma_account_jobs_allowed(
    style: PathStyle,
    wtf: Seq<char>,
    account: Seq<char>,
    slugs: Seq<Seq<char>>,
    n: int,
)
    requires
        0 <= n <= 2,
    ensures
        ({
            let jobs = account_jobs(style, wtf, account, slugs, n);
            forall|i: int|
                0 <= i < jobs.len() ==> (#[trigger] jobs[i]).0 == account && slugs.contains(
                    jobs[i].1.0,
                )
        }),
    decreases n,
{
    let jobs = account_jobs(style, wtf, account, slugs, n);
    if n > 0 {
        lemma_account_jobs_allowed(style, wtf, account, slugs, n - 1);
        let before = account_jobs(style, wtf, account, slugs, n - 1);
        assert forall|i: int| 0 <= i < jobs.len() implies (#[trigger] jobs[i]).0 == account
            && slugs.contains(jobs[i].1.0) by {
            if i < before.len() {
                assert(jobs[i] == before[i]);
            } else {
                assert(jobs[i].1 == export_table()[n - 1]);
            }
        }
    } else {
        assert(jobs.len() == 0);
    }
}

proof fn lemma_all_jobs_allowed(
    style: PathStyle,
    wtf: Seq<char>,
    accounts: Seq<Seq<char>>,
    slugs: Seq<Seq<char>>,
    n: int,
)
    requires
        0 <= n <= accounts.len(),
    ensures
        ({
            let jobs = all_jobs(style, wtf, accounts, slugs, n);
            forall|i: int|
                0 <= i < jobs.len() ==> accounts.contains((#[trigger] jobs[i]).0)
                    && slugs.contains(jobs[i].1.0)
        }),
    decreases n,
{
    if n > 0 {
        lemma_all_jobs_allowed(style, wtf, accounts, slugs, n - 1);
        lemma_account_jobs_allowed(style, wtf, accounts[n - 1], slugs, 2);
        let before = all_jobs(style, wtf, accounts, slugs, n - 1);
        let last = account_jobs(style, wtf, accounts[n - 1], slugs, 2);
        let jobs = all_jobs(style, wtf, accounts, slugs, n);
        assert forall|i: int| 0 <= i < jobs.len() implies accounts.contains(
            (#[trigger] jobs[i]).0,
        ) && slugs.contains(jobs[i].1.0) by {
            if i < before.len() {
                assert(jobs[i] == before[i]);
            } else {
                assert(jobs[i] == last[i - before.len()]);
            }
        }
    }
}

/// An addon whose sync is off, or that is not enabled, is never swept.
pub proof fn law_only_syncing_addons_take_part(addons: Seq<InstalledAddon>, n: int)
    requires
        0 <= n <= addons.len(),
    ensures
        forall|s: Seq<char>| #[trigger]
            syncing_slugs(addons, n).contains(s) <==> exists|i: int|
                0 <= i < n && (#[trigger] addons[i]).syncs() && addons[i].slug@ == s,
    decreases n,
{
    if n > 0 {
        law_only_syncing_addons_take_part(addons, n - 1);
        let before = syncing_slugs(addons, n - 1);
        let all = syncing_slugs(addons, n);
        assert forall|s: Seq<char>| #[trigger] all.contains(s) <==> exists|i: int|
            0 <= i < n && (#[trigger] addons[i]).syncs() && addons[i].slug@ == s by {
            if all.contains(s) {
                let k = choose|k: int| 0 <= k < all.len() && all[k] == s;
                if k < before.len() {
                    assert(before[k] == s);
                    assert(before.contains(s));
                } else {
                    assert(addons[n - 1].slug@ == s);
                }
            }
            if exists|i: int| 0 <= i < n && (#[trigger] addons[i]).syncs() && addons[i].slug@ == s {
                let i = choose|i: int|
                    0 <= i < n && (#[trigger] addons[i]).syncs() && addons[i].slug@ == s;
                if i < n - 1 {
                    assert(before.contains(s));
                    let k = choose|k: int| 0 <= k < before.len() && before[k] == s;
                    assert(all[k] == s);
                } else {
                    assert(all[all.len() - 1] == s);
                }
            }
        }
    }
}

// ---------------------------------------------------------------------------
// When it is swept again
// ---------------------------------------------------------------------------

/// The resync stamp in the server's answer to the home request.
pub open spec fn home_stamp(me: JsonView) -> Option<Seq<char>> {
    text_field(me, "resync_requested_at"@)
}

/// Honors the resync stamp in the server's answer `me` to the home request, if it is new:
/// every stream then starts over.
pub fn poll_resync_signal(cfg: &mut AppConfig, me: &Json) -> (triggered: bool)
    ensures
        triggered == resync_is_new(opt_text(old(cfg).last_resync_honored), home_stamp(me@)),
        !triggered ==> *final(cfg) == *old(cfg),
        triggered ==> {
            &&& all_rewound(old(cfg).sync@, final(cfg).sync@)
            &&& final(cfg).last_resync_honored is Some
            &&& final(cfg).last_resync_honored->0@ == trim_of(home_stamp(me@)->0)
            &&& *final(cfg) == (AppConfig {
                sync: final(cfg).sync,
                last_resync_honored: final(cfg).last_resync_honored,
                ..*old(cfg)
            })
        },
{
    cfg.honor_resync_signal(me.get_str("resync_requested_at"))
}

/// What a sync does next.
#[derive(Debug, Clone, Copy, PartialEq, Eq, Structural)]
pub enum SyncStep {
    /// Ask the server whether all is to be sent again.
    PollHome,
    /// Sweep all files.
    Sweep,
    /// Sweep all files once more.
    Resweep,
    /// Keep what was done.
    Finish,
}

/// What a sync does after `step`. `triggered` says whether an answer in that step brought
/// a resync stamp that was new.
pub open spec fn step_after(step: SyncStep, triggered: bool) -> Option<SyncStep> {
    match step {
        SyncStep::PollHome => Some(SyncStep::Sweep),
        SyncStep::Sweep => Some(
            if triggered {
                SyncStep::Resweep
            } else {
                SyncStep::Finish
            },
        ),
        SyncStep::Resweep => Some(SyncStep::Finish),
        SyncStep::Finish => None,
    }
}

/// What a sync does after `step`.
pub fn next_step(step: SyncStep, triggered: bool) -> (next: Option<SyncStep>)
    ensures
        next == step_after(step, triggered),
{
    match step {
        SyncStep::PollHome => Some(SyncStep::Sweep),
        SyncStep::Sweep => Some(
            if triggered {
                SyncStep::Resweep
            } else {
                SyncStep::Finish
            },
        ),
        SyncStep::Resweep => Some(SyncStep::Finish),
        SyncStep::Finish => None,
    }
}

/// A sync sweeps twice at most, whatever the answers bring: once, and once more where the
/// first sweep brought a new stamp.
pub proof fn law_at_most_one_more_sweep(first: bool, second: bool, third: bool)
    ensures
        step_after(SyncStep::PollHome, first) == Some(SyncStep::Sweep),
        step_after(SyncStep::Sweep, second) == Some(SyncStep::Resweep) <==> second,
        step_after(SyncStep::Resweep, third) == Some(SyncStep::Finish),
        step_after(SyncStep::Finish, third) is None,
{
}

/// Every file that may be swept is: in each account that was found and chosen, the saved
/// variables of each exported addon whose sync is on.
pub proof fn law_every_allowed_file_is_swept(
    style: PathStyle,
    snap: InstallSnap,
    discovered: Seq<Seq<char>>,
    account: Seq<char>,
    k: int,
)
    requires
        account_dir_of(style, snap.addons_path@) is Some,
        discovered.contains(account),
        texts(snap.sync_accounts@).contains(account),
        0 <= k < export_table().len(),
        texts(snap.sync_slugs@).contains(export_table()[k].0),
    ensures
        install_jobs(style, snap, discovered).contains(
            (
                account,
                export_table()[k],
                saved_file(
                    style,
                    account_dir_of(style, snap.addons_path@)->0,
                    account,
                    export_table()[k].1,
                ),
            ),
        ),
{
    let selected = texts(snap.sync_accounts@);
    let accounts = kept(discovered, selected);
    let wtf = account_dir_of(style, snap.addons_path@)->0;
    let slugs = texts(snap.sync_slugs@);
    crate::sync::law_effective_accounts_are_the_intersection(discovered, selected);
    assert(accounts.contains(account));
    let i = accounts.index_of(account);
    lemma_job_is_among(style, wtf, accounts, slugs, accounts.len() as int, i, k);
}

proof fn lemma_job_is_among(
    style: PathStyle,
    wtf: Seq<char>,
    accounts: Seq<Seq<char>>,
    slugs: Seq<Seq<char>>,
    n: int,
    i: int,
    k: int,
)
    requires
        0 <= i < n <= accounts.len(),
        0 <= k < export_table().len(),
        slugs.contains(export_table()[k].0),
    ensures
        all_jobs(style, wtf, accounts, slugs, n).contains(
            (
                accounts[i],
                export_table()[k],
                saved_file(style, wtf, accounts[i], export_table()[k].1),
            ),
        ),
    decreases n,
{
    let job = (
        accounts[i],
        export_table()[k],
        saved_file(style, wtf, accounts[i], export_table()[k].1),
    );
    let before = all_jobs(style, wtf, accounts, slugs, n - 1);
    let more = account_jobs(style, wtf, accounts[n - 1], slugs, 2);
    if i == n - 1 {
        reveal_with_fuel(account_jobs, 3);
        if k == 1 {
            assert(more[more.len() - 1] == job);
        } else {
            assert(more[0] == job);
        }
        let j = more.index_of(job);
        assert((before + more)[before.len() + j] == job);
    } else {
        lemma_job_is_among(style, wtf, accounts, slugs, n - 1, i, k);
        let j = before.index_of(job);
        assert((before + more)[j] == job);
    }
}

/// The saved variables of an addon stand in its account, in the folder for them, in a file
/// that is named after the addon.
pub proof fn law_saved_variables_stand_in_their_account(
    style: PathStyle,
    wtf: Seq<char>,
    account: Seq<char>,
    addon: Seq<char>,
)
    requires
        is_part(style, account),
        is_part(style, addon + ".lua"@),
        !is_bare_share(style, wtf),
        wtf.len() > 0,
    ensures
        path_of(style, saved_file(style, wtf, account, addon)).parts == path_of(
            style,
            wtf,
        ).parts.push(account).push("SavedVariables"@).push(addon + ".lua"@),
{
    reveal_strlit("SavedVariables");
    reveal_strlit(".");
    assert(is_part(style, "SavedVariables"@)) by {
        assert("SavedVariables"@.len() != "."@.len());
        assert forall|i: int| 0 <= i < "SavedVariables"@.len() implies !is_separator(
            style,
            #[trigger] "SavedVariables"@[i],
        ) by {
        }
    }
    let a = join_of(style, wtf, account);
    let b = join_of(style, a, "SavedVariables"@);
    law_joined_part_comes_last(style, wtf, account);
    assert(a.len() > 0);
    law_joined_part_comes_last(style, a, "SavedVariables"@);
    assert(b.len() > 0);
    law_joined_part_comes_last(style, b, addon + ".lua"@);
}

/// A sweep sees each install that is there as it is: where its addons are, which accounts
/// were chosen, and which addons sync; and none that is not there.
pub proof fn law_sweep_sees_what_is_there(
    snaps: Seq<InstallSnap>,
    installs: Seq<Install>,
    online: Seq<bool>,
    n: int,
    i: int,
)
    requires
        0 <= i < n <= installs.len(),
        n <= online.len(),
        are_snaps_of(snaps, online_installs(installs, online, n)),
    ensures
        online[i] ==> exists|k: int|
            0 <= k < snaps.len() && (#[trigger] snaps[k]).id@ == installs[i].id@
                && snaps[k].addons_path@ == installs[i].path@ && snaps[k].sync_accounts@
                == installs[i].sync_accounts@ && texts(snaps[k].sync_slugs@) == syncing_slugs(
                installs[i].addons@,
                installs[i].addons@.len() as int,
            ),
        (forall|j: int| 0 <= j < n ==> !online[j]) ==> snaps.len() == 0,
        (forall|j: int| 0 <= j < n ==> online[j]) ==> snaps.len() == n,
{
    lemma_online(installs, online, n, i);
    if online[i] {
        let there = online_installs(installs, online, n);
        let k = there.index_of(installs[i]);
        assert(is_snap_of(snaps[k], there[k]));
        assert(snaps[k].id@ == installs[i].id@);
    }
}

proof fn lemma_online(installs: Seq<Install>, online: Seq<bool>, n: int, i: int)
    requires
        0 <= n <= installs.len(),
        n <= online.len(),
        0 <= i < installs.len(),
    ensures
        i < n && online[i] ==> online_installs(installs, online, n).contains(installs[i]),
        (forall|j: int| 0 <= j < n ==> !online[j]) ==> online_installs(installs, online, n).len() == 0,
        (forall|j: int| 0 <= j < n ==> online[j]) ==> online_installs(installs, online, n).len() == n,
    decreases n,
{
    if n > 0 {
        lemma_online(installs, online, n - 1, i);
        let before = online_installs(installs, online, n - 1);
        let all = online_installs(installs, online, n);
        if i < n && online[i] {
            if i == n - 1 {
                assert(all[all.len() - 1] == installs[i]);
            } else {
                let k = before.index_of(installs[i]);
                assert(all[k] == installs[i]);
            }
        }
    }
}

/// The addons that take part come in the order of their records, each as often as it is
/// enabled with its sync on.
pub proof fn law_syncing_addons_keep_their_order(addons: Seq<InstalledAddon>, n: int)
    requires
        0 <= n <= addons.len(),
    ensures
        syncing_slugs(addons, n) == addons.take(n).filter(
            |a: InstalledAddon| a.enabled && a.sync,
        ).map_values(|a: InstalledAddon| a.slug@),
    decreases n,
{
    let keep = |a: InstalledAddon| a.enabled && a.sync;
    let get = |a: InstalledAddon| a.slug@;
    if n > 0 {
        law_syncing_addons_keep_their_order(addons, n - 1);
        crate::seqs::lemma_filter_take(addons, n, keep);
        let before = addons.take(n - 1).filter(keep);
        assert(before.push(addons[n - 1]).map_values(get) =~= before.map_values(get).push(
            get(addons[n - 1]),
        ));
    } else {
        reveal(Seq::filter);
        assert(addons.take(0).filter(keep).map_values(get) =~= Seq::empty());
    }
}

/// Whether a sync may run: one that was asked for by hand always, any other unless the game
/// runs and the user did not allow that.
pub open spec fn may_run(manual: bool, while_running: bool, game_runs: bool) -> bool {
    manual || while_running || !game_runs
}

/// A sync waits only for the game, and only where the user neither asked for it nor allowed
/// it while the game runs.
pub proof fn law_sync_waits_only_for_the_game(manual: bool, while_running: bool, game_runs: bool)
    ensures
        manual ==> may_run(manual, while_running, game_runs),
        !game_runs ==> may_run(manual, while_running, game_runs),
        !manual && game_runs ==> (may_run(manual, while_running, game_runs) <==> while_running),
{
}

} // verus!
