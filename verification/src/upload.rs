//! The upload of one addon file of one account: what is sent in which order, what the
//! server's answers do to it, and what is kept and reported in the end.
use vstd::prelude::*;

use crate::config::{
    lemma_row_keys,
    row_at,
    row_keys,
    state_rows,
    stream_key,
    with_row,
    AppConfig,
    StateRow,
    StreamKey,
    StreamState,
};
use crate::installs::{flavor_token_from_path, token_in};
use crate::json::{clone_all, clone_fields, field, fields, int_value, views, Json, JsonView};
use crate::number::{dec_i64, dec_of, dec_u64, i64_of, parse_i64, signed_dec_of};
use crate::paths::{path_of, PathStyle};
use crate::seqs::{clone_opt, first_at, lemma_first_at, opt_text};
use crate::svparse::{ParsedStream, StreamMeta, SvExport};
use crate::sync::{
    addon_refs,
    ahead,
    append_only,
    ascending,
    chunk_of,
    clone_refs,
    count_after,
    decide_ack,
    decision,
    effective_cursor,
    flavor_token_matches,
    flavors_agree,
    highest,
    is_ahead,
    is_append_only,
    law_chunk_is_bounded_and_ahead,
    law_chunk_is_what_comes_next,
    law_chunks_follow_each_other,
    law_four_streams_are_sent_whole,
    law_known_stream_moves_on,
    merge_stamp,
    merged,
    rows_said,
    seq_of,
    slice_chunk,
    warnings_said,
    AckDecision,
    AckView,
    AckWarn,
    AddonExport,
    AddonRef,
    IngestAck,
    IngestWarning,
    StreamAck,
    SyncResult,
    SyncRow,
    WarningView,
    CHUNK,
    LEARNED_ITEMS,
    SESSIONS,
};
use crate::text::{
    begins_with,
    join2,
    join3,
    join5,
    law_text_order_is_strict_and_total,
    same_text,
    text_less,
    texts,
};
use crate::textmap::{keys_ascend, TextMap};

verus! {

// ---------------------------------------------------------------------------
// The target of an upload
// ---------------------------------------------------------------------------

/// An install as a sweep sees it.
#[derive(Debug)]
pub struct InstallSnap {
    pub id: String,
    pub label: String,
    pub addons_path: String,
    pub sync_accounts: Vec<String>,
    /// The slugs of the addons whose data may be uploaded.
    pub sync_slugs: Vec<String>,
}

/// Whose data an upload holds.
#[derive(Debug)]
pub struct SyncTarget {
    pub install_id: String,
    pub install_label: String,
    pub account: String,
    pub slug: String,
    /// The addon's name on the wire.
    pub addon: String,
}

/// Whose data an upload holds.
pub struct TargetView {
    pub install_id: Seq<char>,
    pub install_label: Seq<char>,
    pub account: Seq<char>,
    pub slug: Seq<char>,
    pub addon: Seq<char>,
}

impl View for SyncTarget {
    type V = TargetView;

    open spec fn view(&self) -> TargetView {
        TargetView {
            install_id: self.install_id@,
            install_label: self.install_label@,
            account: self.account@,
            slug: self.slug@,
            addon: self.addon@,
        }
    }
}

/// The key of the state of the stream `stream`.
pub open spec fn key_of(t: TargetView, stream: Seq<char>) -> StreamKey {
    stream_key(t.install_id, t.account, t.slug, stream)
}

/// What is reported of a stream.
pub open spec fn stream_row(
    t: TargetView,
    stream: Seq<char>,
    found: u64,
    accepted: u64,
    inserted: u64,
    cursor: Seq<char>,
    unknown: bool,
    skipped: Option<Seq<char>>,
    error: Option<Seq<char>>,
) -> SyncRow {
    SyncRow {
        install_id: t.install_id,
        install_label: t.install_label,
        account: t.account,
        addon: t.slug,
        stream,
        found,
        accepted,
        inserted,
        cursor,
        unknown,
        skipped,
        error,
        warning: None,
    }
}

/// What is reported where there is nothing but a reason or an error.
pub open spec fn plain_row(
    t: TargetView,
    skipped: Option<Seq<char>>,
    error: Option<Seq<char>>,
) -> SyncRow {
    stream_row(t, Seq::empty(), 0, 0, 0, Seq::empty(), false, skipped, error)
}

impl SyncTarget {
    /// The target of an upload for one account and one addon of an install.
    pub fn new(inst: &InstallSnap, account: &str, exp: &AddonExport) -> (t: Self)
        ensures
            t@ == (TargetView {
                install_id: inst.id@,
                install_label: inst.label@,
                account: account@,
                slug: exp.slug@,
                addon: exp.addon@,
            }),
    {
        SyncTarget {
            install_id: inst.id.clone(),
            install_label: inst.label.clone(),
            account: account.to_string(),
            slug: exp.slug.to_string(),
            addon: exp.addon.to_string(),
        }
    }

    fn row(
        &self,
        stream: &str,
        found: u64,
        accepted: u64,
        inserted: u64,
        cursor: String,
        unknown: bool,
        skipped: Option<String>,
        error: Option<String>,
    ) -> (r: SyncResult)
        ensures
            r@ == stream_row(
                self@,
                stream@,
                found,
                accepted,
                inserted,
                cursor@,
                unknown,
                opt_text(skipped),
                opt_text(error),
            ),
    {
        SyncResult {
            install_id: self.install_id.clone(),
            install_label: self.install_label.clone(),
            account: self.account.clone(),
            addon: self.slug.clone(),
            stream: stream.to_string(),
            found,
            accepted,
            inserted,
            cursor,
            unknown,
            skipped,
            error,
            warning: None,
        }
    }

    /// What is reported where nothing was done, and why.
    pub fn skipped_row(&self, reason: &str) -> (r: SyncResult)
        ensures
            r@ == plain_row(self@, Some(reason@), None),
    {
        proof {
            reveal_strlit("");
        }
        let r = self.row("", 0, 0, 0, String::new(), false, Some(reason.to_string()), None);
        proof {
            assert(""@ =~= Seq::<char>::empty());
        }
        r
    }

    /// What is reported of a file that could not be read. It is tried again next time.
    pub fn failed_row(&self, error: String) -> (r: SyncResult)
        ensures
            r@ == plain_row(self@, None, Some(error@)),
    {
        proof {
            reveal_strlit("");
            assert(""@ =~= Seq::<char>::empty());
        }
        self.row("", 0, 0, 0, String::new(), false, None, Some(error))
    }
}

// ---------------------------------------------------------------------------
// Files that did not change
// ---------------------------------------------------------------------------

/// What the states of one file have in common.
pub open spec fn file_keys(rows: Seq<StateRow>) -> Seq<(Seq<char>, Seq<char>, Seq<char>)> {
    Seq::new(rows.len(), |i: int| (rows[i].key.install_id, rows[i].key.account, rows[i].key.addon))
}

/// Whether a file has the modification time that was seen last. Without one, it has not.
pub open spec fn unchanged(rows: Seq<StateRow>, t: TargetView, mtime: Option<i64>) -> bool {
    let p = first_at(file_keys(rows), (t.install_id, t.account, t.slug));
    p < rows.len() && rows[p].file_mtime is Some && rows[p].file_mtime == mtime
}

/// Whether the file of `target` may be passed over: the sync was not asked for by hand,
/// and the file has the modification time that was seen last.
pub fn may_skip_file(
    cfg: &AppConfig,
    target: &SyncTarget,
    file_mtime: Option<i64>,
    manual: bool,
) -> (yes: bool)
    ensures
        yes == (!manual && unchanged(state_rows(cfg.sync@), target@, file_mtime)),
{
    if manual {
        return false;
    }
    let ghost rows = state_rows(cfg.sync@);
    let ghost keys = file_keys(rows);
    let ghost key = (target@.install_id, target@.account, target@.slug);
    proof {
        lemma_first_at(keys, key);
    }
    let mut i: usize = 0;
    while i < cfg.sync.len()
        invariant
            rows == state_rows(cfg.sync@),
            keys == file_keys(rows),
            key == (target@.install_id, target@.account, target@.slug),
            i <= first_at(keys, key) <= cfg.sync@.len(),
            first_at(keys, key) < cfg.sync@.len() ==> keys[first_at(keys, key)] == key,
            forall|j: int| 0 <= j < first_at(keys, key) ==> keys[j] != key,
            !manual,
        decreases cfg.sync@.len() - i,
    {
        let s: &StreamState = &cfg.sync[i];
        let same: bool = same_text(s.install_id.as_str(), target.install_id.as_str()) && same_text(
            s.account.as_str(),
            target.account.as_str(),
        ) && same_text(s.addon.as_str(), target.slug.as_str());
        proof {
            assert(rows[i as int] == s@);
            assert(same == (keys[i as int] == key));
        }
        if same {
            return match s.file_mtime {
                Some(m) => match file_mtime {
                    Some(n) => m == n,
                    None => false,
                },
                None => false,
            };
        }
        i = i + 1;
    }
    false
}

// ---------------------------------------------------------------------------
// Sessions
// ---------------------------------------------------------------------------

/// Whether a session record is complete: it has a `closedAt` that is not null.
pub open spec fn is_closed(s: JsonView) -> bool {
    match field(s, "closedAt"@) {
        Some(v) => !(v is Null),
        None => false,
    }
}

/// The complete records of `sessions`, in order.
pub open spec fn closed_of(sessions: Seq<JsonView>) -> Seq<JsonView>
    decreases sessions.len(),
{
    if sessions.len() == 0 {
        Seq::empty()
    } else {
        let before = closed_of(sessions.drop_last());
        if is_closed(sessions.last()) {
            before.push(sessions.last())
        } else {
            before
        }
    }
}

/// The complete records of `sessions`, and how many are not.
pub fn split_sessions(sessions: Vec<Json>) -> (r: (Vec<Json>, u64))
    ensures
        views(r.0@) == closed_of(views(sessions@)),
        r.1 == sessions@.len() - closed_of(views(sessions@)).len(),
{
    let ghost all = views(sessions@);
    let ghost given = sessions@;
    let n: usize = sessions.len();
    let mut rest = sessions;
    let mut closed: Vec<Json> = Vec::new();
    let mut open: u64 = 0;
    let mut i: usize = 0;
    proof {
        assert(all.take(0) =~= Seq::<JsonView>::empty());
        assert(views(closed@) =~= Seq::<JsonView>::empty());
    }
    while i < n
        invariant
            i <= n == given.len(),
            rest@.len() == n,
            all == views(given),
            forall|j: int| i <= j < n ==> (#[trigger] rest@[j])@ == all[j],
            views(closed@) == closed_of(all.take(i as int)),
            open == i - closed_of(all.take(i as int)).len(),
        decreases n - i,
    {
        proof {
            assert(all.take(i as int + 1).drop_last() =~= all.take(i as int));
            assert(all.take(i as int + 1).last() == all[i as int]);
        }
        let mut s: Json = Json::Null;
        std::mem::swap(&mut s, &mut rest[i]);
        let complete: bool = match s.get("closedAt") {
            Some(v) => !v.is_null(),
            None => false,
        };
        let ghost said = s@;
        if complete {
            let ghost before = views(closed@);
            closed.push(s);
            proof {
                assert(views(closed@) =~= before.push(said));
            }
        } else {
            open = open + 1;
        }
        i = i + 1;
    }
    proof {
        assert(all.take(i as int) =~= all);
    }
    (closed, open)
}

/// No session that is still open is ever sent, and every closed one is.
pub proof fn law_only_closed_sessions_are_sent(sessions: Seq<JsonView>)
    ensures
        forall|i: int|
            0 <= i < closed_of(sessions).len() ==> is_closed(#[trigger] closed_of(sessions)[i]),
        forall|i: int|
            0 <= i < sessions.len() && is_closed(#[trigger] sessions[i]) ==> closed_of(
                sessions,
            ).contains(sessions[i]),
    decreases sessions.len(),
{
    if sessions.len() > 0 {
        let shorter = sessions.drop_last();
        law_only_closed_sessions_are_sent(shorter);
        let before = closed_of(shorter);
        let all = closed_of(sessions);
        assert forall|i: int| 0 <= i < sessions.len() && is_closed(
            #[trigger] sessions[i],
        ) implies all.contains(sessions[i]) by {
            if i < shorter.len() {
                assert(shorter[i] == sessions[i]);
                let k = choose|k: int| 0 <= k < before.len() && before[k] == sessions[i];
                assert(all[k] == sessions[i]);
            } else {
                assert(all[all.len() - 1] == sessions[i]);
            }
        }
    }
}

/// The flavor that a session record states, if it states one.
pub open spec fn recorded_flavor(s: JsonView) -> Option<i64> {
    match field(s, "gameEnv"@) {
        Some(g) => match field(g, "flavor"@) {
            Some(f) => int_value(f),
            None => None,
        },
        None => None,
    }
}

/// The id of a session, or a question mark.
pub open spec fn session_id(s: JsonView) -> Seq<char> {
    match field(s, "sid"@) {
        Some(v) => match v {
            JsonView::Str(t) => t,
            _ => "?"@,
        },
        None => "?"@,
    }
}

/// What is said of a session whose flavor is not that of the folder of its file.
pub open spec fn flavor_note(s: JsonView, flavor: Seq<char>) -> Seq<char> {
    "session "@ + session_id(s) + ": directory flavor '"@ + flavor + (
    "' \u{2260} recorded gameEnv.flavor "@ + signed_dec_of(recorded_flavor(s)->0 as int)
        + " \u{2014} file may be attributed to the wrong install"@)
}

/// What is said of the sessions whose flavor is not that of the folder of their file.
pub open spec fn flavor_notes(sessions: Seq<JsonView>, flavor: Seq<char>) -> Seq<Seq<char>>
    decreases sessions.len(),
{
    if sessions.len() == 0 {
        Seq::empty()
    } else {
        let before = flavor_notes(sessions.drop_last(), flavor);
        if flavors_agree(flavor, recorded_flavor(sessions.last())) == Some(false) {
            before.push(flavor_note(sessions.last(), flavor))
        } else {
            before
        }
    }
}

fn session_flavor(s: &Json) -> (f: Option<i64>)
    ensures
        f == recorded_flavor(s@),
{
    match s.get("gameEnv") {
        Some(g) => match g.get("flavor") {
            Some(f) => f.as_i64(),
            None => None,
        },
        None => None,
    }
}

/// What is said of the sessions whose flavor is not that of the folder of their file. It
/// is said and no more: the record is right.
pub fn flag_flavors(sessions: &Vec<Json>, flavor: &str) -> (notes: Vec<String>)
    ensures
        texts(notes@) == flavor_notes(views(sessions@), flavor@),
{
    let ghost all = views(sessions@);
    let mut notes: Vec<String> = Vec::new();
    let mut i: usize = 0;
    proof {
        assert(all.take(0) =~= Seq::<JsonView>::empty());
        assert(texts(notes@) =~= Seq::<Seq<char>>::empty());
    }
    while i < sessions.len()
        invariant
            all == views(sessions@),
            i <= sessions@.len(),
            texts(notes@) == flavor_notes(all.take(i as int), flavor@),
        decreases sessions@.len() - i,
    {
        proof {
            assert(all.take(i as int + 1).drop_last() =~= all.take(i as int));
            assert(all.take(i as int + 1).last() == sessions@[i as int]@);
        }
        let recorded: Option<i64> = session_flavor(&sessions[i]);
        if let Some(agrees) = flavor_token_matches(flavor, recorded) {
            if !agrees {
                let n: i64 = match recorded {
                    Some(n) => n,
                    None => 0,
                };
                let sid: &str = match sessions[i].get("sid") {
                    Some(v) => match v.as_str() {
                        Some(t) => t,
                        None => "?",
                    },
                    None => "?",
                };
                let tail = join3(
                    "' \u{2260} recorded gameEnv.flavor ",
                    dec_i64(n).as_str(),
                    " \u{2014} file may be attributed to the wrong install",
                );
                let note = join5("session ", sid, ": directory flavor '", flavor, tail.as_str());
                let ghost said = note@;
                let ghost before = texts(notes@);
                proof {
                    assert(sid@ == session_id(sessions@[i as int]@));
                    assert(said == flavor_note(sessions@[i as int]@, flavor@));
                }
                notes.push(note);
                proof {
                    assert(texts(notes@) =~= before.push(said));
                }
            }
        }
        i = i + 1;
    }
    proof {
        assert(all.take(i as int) =~= all);
    }
    notes
}

// ---------------------------------------------------------------------------
// The state of an upload
// ---------------------------------------------------------------------------

/// What is sent of one stream, and how far it has come.
#[derive(Debug)]
pub struct StreamPlan {
    pub name: String,
    pub entries: Vec<Json>,
    pub meta: StreamMeta,
    /// The highest number that was acknowledged.
    pub cursor: i64,
    /// Records in the stream.
    pub total: u64,
    /// Records that were sent.
    pub found: u64,
    pub accepted: u64,
    pub inserted: u64,
    /// Whether the server does not know the stream. Nothing more is sent of it then.
    pub unknown: bool,
    /// Whether an answer left out the stream. Nothing more is sent of it in this upload.
    pub held: bool,
}

/// What a stream plan says.
pub struct PlanView {
    pub name: Seq<char>,
    pub entries: Seq<JsonView>,
    pub meta: StreamMeta,
    pub cursor: i64,
    pub total: u64,
    pub found: u64,
    pub accepted: u64,
    pub inserted: u64,
    pub unknown: bool,
    pub held: bool,
}

impl View for StreamPlan {
    type V = PlanView;

    open spec fn view(&self) -> PlanView {
        PlanView {
            name: self.name@,
            entries: views(self.entries@),
            meta: self.meta,
            cursor: self.cursor,
            total: self.total,
            found: self.found,
            accepted: self.accepted,
            inserted: self.inserted,
            unknown: self.unknown,
            held: self.held,
        }
    }
}

/// What a row of stream plans says.
pub open spec fn plan_views(plans: Seq<StreamPlan>) -> Seq<PlanView> {
    Seq::new(plans.len(), |i: int| plans[i]@)
}

/// Records that are sent once and whole.
#[derive(Debug)]
pub struct Snapshot {
    pub records: Vec<Json>,
    pub sent: bool,
    pub accepted: u64,
    pub inserted: u64,
    pub unknown: bool,
}

/// What a snapshot says.
pub struct SnapshotView {
    pub records: Seq<JsonView>,
    pub sent: bool,
    pub accepted: u64,
    pub inserted: u64,
    pub unknown: bool,
}

impl View for Snapshot {
    type V = SnapshotView;

    open spec fn view(&self) -> SnapshotView {
        SnapshotView {
            records: views(self.records@),
            sent: self.sent,
            accepted: self.accepted,
            inserted: self.inserted,
            unknown: self.unknown,
        }
    }
}

/// What a snapshot says before it is sent.
pub open spec fn unsent(records: Seq<JsonView>) -> SnapshotView {
    SnapshotView { records, sent: false, accepted: 0, inserted: 0, unknown: false }
}

impl Snapshot {
    fn new(records: Vec<Json>) -> (s: Self)
        ensures
            s@ == unsent(views(records@)),
    {
        Snapshot { records, sent: false, accepted: 0, inserted: 0, unknown: false }
    }

    /// Whether the next upload is to hold this snapshot.
    pub open spec fn is_due(self) -> bool {
        !self.sent && self.records@.len() > 0 && !self.unknown
    }

    /// Whether the next upload is to hold this snapshot.
    pub fn due(&self) -> (yes: bool)
        ensures
            yes == self.is_due(),
    {
        !self.sent && self.records.len() > 0 && !self.unknown
    }
}

/// The upload of one addon file of one account.
#[derive(Debug)]
pub struct AccountSync {
    pub target: SyncTarget,
    /// The token of the flavor folder of the file.
    pub flavor: String,
    pub format: TextMap<Json>,
    pub registry: TextMap<Json>,
    pub manifest: Vec<AddonRef>,
    pub plans: Vec<StreamPlan>,
    /// The closed sessions.
    pub sessions: Snapshot,
    /// How many sessions are still open.
    pub open_skipped: u64,
    pub learned: Snapshot,
    pub warnings: Vec<IngestWarning>,
    pub flavor_flags: Vec<String>,
    pub post_error: Option<String>,
    pub file_mtime: Option<i64>,
}

/// The cursor that a stored text stands for.
pub open spec fn stored_cursor(text: Seq<char>) -> i64 {
    match i64_of(text) {
        Some(n) => n,
        None => 0,
    }
}

/// Where the slices of a stream begin.
pub open spec fn floored(stored: i64, base: i64) -> i64 {
    if stored >= base - 1 {
        stored
    } else {
        (base - 1) as i64
    }
}

/// The counter of the stream `name`: nothing numbered and nothing deleted if the file has
/// none.
pub open spec fn meta_of(metas: Map<Seq<char>, StreamMeta>, name: Seq<char>) -> StreamMeta {
    if metas.contains_key(name) {
        metas[name]
    } else {
        StreamMeta { seq: 0, base: 1 }
    }
}

/// What the plan of a stream says in the beginning.
pub open spec fn first_plan(
    name: Seq<char>,
    stream: ParsedStream,
    meta: StreamMeta,
    stored: Seq<char>,
) -> PlanView {
    PlanView {
        name,
        entries: views(stream.entries@),
        meta,
        cursor: floored(stored_cursor(stored), meta.base),
        total: stream.entries@.len() as u64,
        found: 0,
        accepted: 0,
        inserted: 0,
        unknown: false,
        held: false,
    }
}

/// The plans for the first `n` of the streams: one for each that is only ever added to.
pub open spec fn first_plans(
    pairs: Seq<(Seq<char>, ParsedStream)>,
    metas: Map<Seq<char>, StreamMeta>,
    cfg: AppConfig,
    t: TargetView,
    n: int,
) -> Seq<PlanView>
    decreases n,
{
    if n <= 0 {
        Seq::empty()
    } else {
        let before = first_plans(pairs, metas, cfg, t, n - 1);
        let name = pairs[n - 1].0;
        if append_only(name) {
            before.push(
                first_plan(
                    name,
                    pairs[n - 1].1,
                    meta_of(metas, name),
                    cfg.cursor_at(key_of(t, name)),
                ),
            )
        } else {
            before
        }
    }
}

/// Whether no two plans are for the same stream.
pub open spec fn names_differ(plans: Seq<PlanView>) -> bool {
    forall|i: int, j: int|
        0 <= i < j < plans.len() ==> (#[trigger] plans[i]).name != (#[trigger] plans[j]).name
}

proof fn lemma_names_differ(
    pairs: Seq<(Seq<char>, ParsedStream)>,
    metas: Map<Seq<char>, StreamMeta>,
    cfg: AppConfig,
    t: TargetView,
    n: int,
)
    requires
        keys_ascend(pairs),
        0 <= n <= pairs.len(),
    ensures
        names_differ(first_plans(pairs, metas, cfg, t, n)),
        forall|i: int|
            0 <= i < first_plans(pairs, metas, cfg, t, n).len() ==> exists|k: int|
                0 <= k < n && (#[trigger] pairs[k]).0 == (#[trigger] first_plans(
                    pairs,
                    metas,
                    cfg,
                    t,
                    n,
                )[i]).name,
    decreases n,
{
    if n > 0 {
        lemma_names_differ(pairs, metas, cfg, t, n - 1);
        let before = first_plans(pairs, metas, cfg, t, n - 1);
        let plans = first_plans(pairs, metas, cfg, t, n);
        let name = pairs[n - 1].0;
        assert forall|i: int| 0 <= i < before.len() implies (#[trigger] before[i]).name != name by {
            let k = choose|k: int| 0 <= k < n - 1 && (#[trigger] pairs[k]).0 == before[i].name;
            assert(text_less(pairs[k].0, pairs[n - 1].0));
            law_text_order_is_strict_and_total(pairs[k].0, pairs[k].0, pairs[k].0);
        }
        assert forall|i: int| 0 <= i < plans.len() implies exists|k: int|
            0 <= k < n && (#[trigger] pairs[k]).0 == (#[trigger] plans[i]).name by {
            if i < before.len() {
                assert(plans[i] == before[i]);
                let k = choose|k: int| 0 <= k < n - 1 && (#[trigger] pairs[k]).0 == before[i].name;
                assert(pairs[k].0 == plans[i].name);
            } else {
                assert(pairs[n - 1].0 == plans[i].name);
            }
        }
        assert forall|i: int, j: int| 0 <= i < j < plans.len() implies (#[trigger] plans[i]).name
            != (#[trigger] plans[j]).name by {
            assert(plans[i] == before[i]);
            if j < before.len() {
                assert(plans[j] == before[j]);
            }
        }
    }
}

/// The plans for the streams of an export, in the order of their names.
fn make_plans(
    streams: TextMap<ParsedStream>,
    metas: &TextMap<StreamMeta>,
    cfg: &AppConfig,
    target: &SyncTarget,
) -> (plans: Vec<StreamPlan>)
    ensures
        plan_views(plans@) == first_plans(
            streams.pairs(),
            metas@,
            *cfg,
            target@,
            streams.pairs().len() as int,
        ),
        names_differ(plan_views(plans@)),
{
    let ghost pairs = streams.pairs();
    let entries = streams.into_entries();
    let n: usize = entries.len();
    proof {
        lemma_names_differ(pairs, metas@, *cfg, target@, n as int);
    }
    let mut rest = entries;
    let mut plans: Vec<StreamPlan> = Vec::new();
    let mut i: usize = 0;
    proof {
        assert(plan_views(plans@) =~= Seq::<PlanView>::empty());
    }
    while i < n
        invariant
            i <= n == pairs.len(),
            rest@.len() == n,
            forall|j: int|
                i <= j < n ==> (#[trigger] rest@[j]).0@ == pairs[j].0 && rest@[j].1 == pairs[j].1,
            plan_views(plans@) == first_plans(pairs, metas@, *cfg, target@, i as int),
        decreases n - i,
    {
        let mut row: (String, ParsedStream) = (
            String::new(),
            ParsedStream { schema: 0, entries: Vec::new() },
        );
        proof {
            assert(rest@[i as int].0@ == pairs[i as int].0);
        }
        std::mem::swap(&mut row, &mut rest[i]);
        let (name, stream) = row;
        if is_append_only(name.as_str()) {
            let text = cfg.cursor_of(
                target.install_id.as_str(),
                target.account.as_str(),
                target.slug.as_str(),
                name.as_str(),
            );
            let stored: i64 = match parse_i64(text.as_str()) {
                Some(n) => n,
                None => 0,
            };
            let meta: StreamMeta = match metas.get(name.as_str()) {
                Some(m) => *m,
                None => StreamMeta { seq: 0, base: 1 },
            };
            let total: u64 = stream.entries.len() as u64;
            let plan = StreamPlan {
                name,
                entries: stream.entries,
                meta,
                cursor: effective_cursor(stored, meta.base),
                total,
                found: 0,
                accepted: 0,
                inserted: 0,
                unknown: false,
                held: false,
            };
            let ghost before = plan_views(plans@);
            let ghost said = plan@;
            plans.push(plan);
            proof {
                assert(plan_views(plans@) =~= before.push(said));
            }
        }
        i = i + 1;
    }
    plans
}

/// How an upload begins: there is nothing to send, or there is.
pub enum Started {
    NoData(SyncResult),
    Ready(AccountSync),
}

/// Whether there is nothing to send in an export whose closed sessions are `closed`.
pub open spec fn nothing_to_send(export: SvExport, closed: Seq<JsonView>) -> bool {
    export.streams.pairs().len() == 0 && export.db_items@.len() == 0 && closed.len() == 0
}

/// Whether `s` is the upload of `export` before anything was sent.
pub open spec fn is_ready(
    s: AccountSync,
    style: PathStyle,
    inst: InstallSnap,
    t: TargetView,
    manifest: Seq<AddonRef>,
    mtime: Option<i64>,
    export: SvExport,
    cfg: AppConfig,
) -> bool {
    let sessions = views(export.sessions@);
    let closed = closed_of(sessions);
    let flavor = token_in(path_of(style, inst.addons_path@).parts, 0);
    &&& s.target@ == t
    &&& s.flavor@ == flavor
    &&& fields(s.format) == fields(export.format)
    &&& fields(s.registry) == fields(export.registry)
    &&& addon_refs(s.manifest@) == addon_refs(manifest)
    &&& plan_views(s.plans@) == first_plans(
        export.streams.pairs(),
        export.stream_meta@,
        cfg,
        t,
        export.streams.pairs().len() as int,
    )
    &&& names_differ(plan_views(s.plans@))
    &&& s.sessions@ == unsent(closed)
    &&& s.open_skipped == sessions.len() - closed.len()
    &&& s.learned@ == unsent(views(export.db_items@))
    &&& warnings_said(s.warnings@).len() == 0
    &&& texts(s.flavor_flags@) == flavor_notes(closed, flavor)
    &&& s.post_error is None
    &&& s.file_mtime == mtime
}

/// The stream that the modification time of a file without data is kept under.
pub open spec fn empty_file_stream() -> Seq<char> {
    "fishlog"@
}

/// Begins the upload of an export. Where there is nothing to send, only the modification
/// time of the file is kept, so that it is not read again before it changes.
pub fn start_account_sync(
    cfg: &mut AppConfig,
    style: PathStyle,
    inst: &InstallSnap,
    account: &str,
    exp: &AddonExport,
    manifest: &Vec<AddonRef>,
    file_mtime: Option<i64>,
    export: SvExport,
) -> (r: Started)
    ensures
        ({
            let t = TargetView {
                install_id: inst.id@,
                install_label: inst.label@,
                account: account@,
                slug: exp.slug@,
                addon: exp.addon@,
            };
            let rows = state_rows(old(cfg).sync@);
            let key = key_of(t, empty_file_stream());
            let closed = closed_of(views(export.sessions@));
            match r {
                Started::NoData(row) => {
                    &&& nothing_to_send(export, closed)
                    &&& row@ == plain_row(t, Some("no exportable data"@), None)
                    &&& state_rows(final(cfg).sync@) == with_row(
                        rows,
                        key,
                        StateRow { file_mtime, ..row_at(rows, key) },
                    )
                    &&& *final(cfg) == (AppConfig { sync: final(cfg).sync, ..*old(cfg) })
                },
                Started::Ready(s) => {
                    &&& !nothing_to_send(export, closed)
                    &&& is_ready(s, style, *inst, t, manifest@, file_mtime, export, *old(cfg))
                    &&& *final(cfg) == *old(cfg)
                },
            }
        }),
{
    let target = SyncTarget::new(inst, account, exp);
    let ghost before = *cfg;
    let ghost given = export;
    let (closed, open_skipped) = split_sessions(export.sessions);
    proof {
        assert(views(closed@).len() == closed@.len());
    }
    if export.streams.len() == 0 && export.db_items.len() == 0 && closed.len() == 0 {
        let ghost rows = state_rows(cfg.sync@);
        let ghost key = key_of(target@, empty_file_stream());
        proof {
            lemma_row_keys(cfg.sync@);
            lemma_first_at(row_keys(rows), key);
        }
        {
            let state = cfg.stream_state_mut(inst.id.as_str(), account, exp.slug, "fishlog");
            state.file_mtime = file_mtime;
        }
        proof {
            assert(state_rows(cfg.sync@) =~= with_row(
                rows,
                key,
                StateRow { file_mtime, ..row_at(rows, key) },
            ));
        }
        return Started::NoData(target.skipped_row("no exportable data"));
    }
    let flavor = flavor_token_from_path(style, inst.addons_path.as_str());
    let flavor_flags = flag_flavors(&closed, flavor.as_str());
    let plans = make_plans(export.streams, &export.stream_meta, cfg, &target);
    Started::Ready(
        AccountSync {
            target,
            flavor,
            format: export.format,
            registry: export.registry,
            manifest: clone_refs(manifest),
            plans,
            sessions: Snapshot::new(closed),
            open_skipped,
            learned: Snapshot::new(export.db_items),
            warnings: Vec::new(),
            flavor_flags,
            post_error: None,
            file_mtime,
        },
    )
}

// ---------------------------------------------------------------------------
// Chunks
// ---------------------------------------------------------------------------

/// One dataset of an upload: the cursor that its records were sliced after and the
/// counter of its stream, where it has them, and the records.
#[derive(Debug)]
pub struct Dataset {
    pub since: Option<String>,
    pub stream_meta: Option<StreamMeta>,
    pub entries: Vec<Json>,
}

/// What a dataset says.
pub struct DatasetView {
    pub since: Option<Seq<char>>,
    pub stream_meta: Option<StreamMeta>,
    pub entries: Seq<JsonView>,
}

impl View for Dataset {
    type V = DatasetView;

    open spec fn view(&self) -> DatasetView {
        DatasetView {
            since: opt_text(self.since),
            stream_meta: self.stream_meta,
            entries: views(self.entries@),
        }
    }
}

/// What a map of datasets says.
pub open spec fn datasets_said(m: TextMap<Dataset>) -> Map<Seq<char>, DatasetView> {
    Map::new(|k: Seq<char>| m@.contains_key(k), |k: Seq<char>| m@[k]@)
}

/// One upload.
#[derive(Debug)]
pub struct Envelope {
    pub schema: String,
    pub addon: String,
    pub account: String,
    pub flavor: String,
    pub format: TextMap<Json>,
    pub registry: TextMap<Json>,
    pub datasets: TextMap<Dataset>,
    pub addons_installed: Vec<AddonRef>,
}

/// What a chunk holds of one stream: how many records, and the highest number among them.
#[derive(Debug, Clone, Copy, PartialEq, Eq, Structural)]
pub struct Slice {
    pub sent: u64,
    pub cursor: i64,
}

/// One upload, and what it holds of each plan and snapshot.
#[derive(Debug)]
pub struct Chunk {
    pub envelope: Envelope,
    pub slices: Vec<Slice>,
    pub include_sessions: bool,
    pub include_learned: bool,
}

/// The records that the next chunk holds of a stream: none if the server does not know
/// it or has left it out of an answer.
pub open spec fn plan_slice(p: PlanView) -> Seq<JsonView> {
    if p.unknown || p.held {
        Seq::empty()
    } else {
        chunk_of(p.entries, p.cursor, CHUNK as nat)
    }
}

/// What the next chunk holds of a stream.
pub open spec fn slice_of(p: PlanView) -> Slice {
    Slice {
        sent: plan_slice(p).len() as u64,
        cursor: highest(plan_slice(p), p.cursor),
    }
}

/// The datasets of the first `n` streams: one for each that has records to send.
pub open spec fn plan_datasets(plans: Seq<PlanView>, n: int) -> Map<Seq<char>, DatasetView>
    decreases n,
{
    if n <= 0 {
        Map::empty()
    } else {
        let before = plan_datasets(plans, n - 1);
        let p = plans[n - 1];
        if plan_slice(p).len() > 0 {
            before.insert(
                p.name,
                DatasetView {
                    since: Some(signed_dec_of(p.cursor as int)),
                    stream_meta: Some(p.meta),
                    entries: plan_slice(p),
                },
            )
        } else {
            before
        }
    }
}

/// A dataset that is sent whole.
pub open spec fn whole_dataset(records: Seq<JsonView>) -> DatasetView {
    DatasetView { since: None, stream_meta: None, entries: records }
}

/// The datasets of the next chunk.
pub open spec fn next_datasets(s: AccountSync) -> Map<Seq<char>, DatasetView> {
    let plans = plan_views(s.plans@);
    let streams = plan_datasets(plans, plans.len() as int);
    let with_sessions = if s.sessions.is_due() {
        streams.insert(SESSIONS@, whole_dataset(s.sessions@.records))
    } else {
        streams
    };
    if s.learned.is_due() {
        with_sessions.insert(LEARNED_ITEMS@, whole_dataset(s.learned@.records))
    } else {
        with_sessions
    }
}

/// Whether one of the first `n` streams has records to send.
pub open spec fn any_fed(plans: Seq<PlanView>, n: int) -> bool {
    exists|i: int| 0 <= i < n && plan_slice(#[trigger] plans[i]).len() > 0
}

/// Whether an upload is over: a chunk could not be sent, or nothing is left to send.
pub open spec fn is_over(s: AccountSync) -> bool {
    let plans = plan_views(s.plans@);
    s.post_error is Some || !any_fed(plans, plans.len() as int) && !s.sessions.is_due()
        && !s.learned.is_due()
}

/// Whether `e` is the envelope of the next chunk: the whole registry and format ride
/// along, and nothing of another account.
pub open spec fn is_next_envelope(s: AccountSync, e: Envelope) -> bool {
    &&& e.schema@ == "gec.ingest/2"@
    &&& e.addon@ == s.target@.addon
    &&& e.account@ == s.target@.account
    &&& e.flavor@ == s.flavor@
    &&& fields(e.format) == fields(s.format)
    &&& fields(e.registry) == fields(s.registry)
    &&& datasets_said(e.datasets) == next_datasets(s)
    &&& addon_refs(e.addons_installed@) == addon_refs(s.manifest@)
}

/// Whether `slices` is what the next chunk holds of each stream.
pub open spec fn are_next_slices(plans: Seq<PlanView>, slices: Seq<Slice>) -> bool {
    &&& slices.len() == plans.len()
    &&& forall|i: int| 0 <= i < plans.len() ==> #[trigger] slices[i] == slice_of(plans[i])
}

proof fn lemma_datasets_insert(
    before: Map<Seq<char>, DatasetView>,
    old_map: Map<Seq<char>, Dataset>,
    new: TextMap<Dataset>,
    k: Seq<char>,
    d: Dataset,
)
    requires
        new@ == old_map.insert(k, d),
        before == Map::new(
            |q: Seq<char>| old_map.contains_key(q),
            |q: Seq<char>| old_map[q]@,
        ),
    ensures
        datasets_said(new) == before.insert(k, d@),
{
    assert(datasets_said(new) =~= before.insert(k, d@));
}

impl AccountSync {
    /// The next chunk to send: the next slice of every stream, and in the first chunk the
    /// snapshots. None when everything was sent, or a chunk could not be.
    pub fn next_chunk(&self) -> (c: Option<Chunk>)
        ensures
            match c {
                None => is_over(*self),
                Some(chunk) => {
                    &&& !is_over(*self)
                    &&& is_next_envelope(*self, chunk.envelope)
                    &&& are_next_slices(plan_views(self.plans@), chunk.slices@)
                    &&& chunk.include_sessions == self.sessions.is_due()
                    &&& chunk.include_learned == self.learned.is_due()
                },
            },
    {
        if self.post_error.is_some() {
            return None;
        }
        let ghost plans = plan_views(self.plans@);
        let mut datasets: TextMap<Dataset> = TextMap::new();
        let mut slices: Vec<Slice> = Vec::new();
        let mut fed: bool = false;
        let mut i: usize = 0;
        proof {
            assert(datasets_said(datasets) =~= Map::<Seq<char>, DatasetView>::empty());
        }
        while i < self.plans.len()
            invariant
                plans == plan_views(self.plans@),
                i <= self.plans@.len(),
                slices@.len() == i,
                forall|j: int| 0 <= j < i ==> #[trigger] slices@[j] == slice_of(plans[j]),
                datasets_said(datasets) == plan_datasets(plans, i as int),
                fed == any_fed(plans, i as int),
            decreases self.plans@.len() - i,
        {
            let p: &StreamPlan = &self.plans[i];
            proof {
                assert(plans[i as int] == p@);
            }
            if p.unknown || p.held {
                slices.push(Slice { sent: 0, cursor: p.cursor });
                proof {
                    assert(fed == any_fed(plans, i + 1)) by {
                        assert(plan_slice(plans[i as int]).len() == 0);
                        if any_fed(plans, i + 1) {
                            let k = choose|k: int|
                                0 <= k < i + 1 && plan_slice(#[trigger] plans[k]).len() > 0;
                            assert(k < i);
                        }
                    }
                }
            } else {
                let (entries, cursor) = slice_chunk(&p.entries, p.cursor, CHUNK);
                proof {
                    assert(views(entries@).len() == entries@.len());
                    assert(views(entries@) == plan_slice(plans[i as int]));
                }
                let sent: u64 = entries.len() as u64;
                slices.push(Slice { sent, cursor });
                if sent > 0 {
                    fed = true;
                    let d = Dataset {
                        since: Some(dec_i64(p.cursor)),
                        stream_meta: Some(p.meta),
                        entries,
                    };
                    let ghost before = datasets_said(datasets);
                    let ghost old_map = datasets@;
                    let ghost dv = d;
                    datasets.insert(p.name.clone(), d);
                    proof {
                        lemma_datasets_insert(before, old_map, datasets, p.name@, dv);
                        assert(plan_slice(plans[i as int]).len() > 0);
                    }
                } else {
                    proof {
                        assert(fed == any_fed(plans, i + 1)) by {
                            assert(plan_slice(plans[i as int]).len() == 0);
                            if any_fed(plans, i + 1) {
                                let k = choose|k: int|
                                    0 <= k < i + 1 && plan_slice(#[trigger] plans[k]).len() > 0;
                                assert(k < i);
                            }
                        }
                    }
                }
            }
            i = i + 1;
        }
        let include_sessions: bool = self.sessions.due();
        if include_sessions {
            let d = Dataset {
                since: None,
                stream_meta: None,
                entries: clone_all(&self.sessions.records),
            };
            let ghost before = datasets_said(datasets);
            let ghost old_map = datasets@;
            let ghost dv = d;
            datasets.insert(SESSIONS.to_string(), d);
            proof {
                lemma_datasets_insert(before, old_map, datasets, SESSIONS@, dv);
            }
        }
        let include_learned: bool = self.learned.due();
        if include_learned {
            let d = Dataset {
                since: None,
                stream_meta: None,
                entries: clone_all(&self.learned.records),
            };
            let ghost before = datasets_said(datasets);
            let ghost old_map = datasets@;
            let ghost dv = d;
            datasets.insert(LEARNED_ITEMS.to_string(), d);
            proof {
                lemma_datasets_insert(before, old_map, datasets, LEARNED_ITEMS@, dv);
            }
        }
        if !fed && !include_sessions && !include_learned {
            return None;
        }
        let envelope = Envelope {
            schema: "gec.ingest/2".to_string(),
            addon: self.target.addon.clone(),
            account: self.target.account.clone(),
            flavor: self.flavor.clone(),
            format: clone_fields(&self.format),
            registry: clone_fields(&self.registry),
            datasets,
            addons_installed: clone_refs(&self.manifest),
        };
        Some(Chunk { envelope, slices, include_sessions, include_learned })
    }
}

// ---------------------------------------------------------------------------
// Answers
// ---------------------------------------------------------------------------

/// The sum of two counters, which starts over where it does not fit.
pub open spec fn wrapping_sum(a: u64, b: u64) -> u64 {
    if a + b > u64::MAX {
        (a + b - 0x1_0000_0000_0000_0000) as u64
    } else {
        (a + b) as u64
    }
}

/// What a stream plan says after an answer to a chunk with `slice` of it. A stream of
/// which nothing was sent stays as it is; one that the answer leaves out is held.
pub open spec fn plan_answered(p: PlanView, slice: Slice, drained: bool, ack: Option<AckView>) -> PlanView {
    if slice.sent == 0 {
        p
    } else {
        let d = decision(drained, ack, slice.cursor, p.cursor);
        PlanView {
            found: wrapping_sum(p.found, slice.sent),
            accepted: match ack {
                Some(a) => wrapping_sum(p.accepted, a.accepted),
                None => p.accepted,
            },
            inserted: match ack {
                Some(a) => wrapping_sum(p.inserted, a.inserted),
                None => p.inserted,
            },
            unknown: p.unknown || d.unknown,
            held: p.held || d.warn == Some(AckWarn::MissingStream),
            cursor: match d.cursor {
                Some(c) => c,
                None => p.cursor,
            },
            ..p
        }
    }
}

/// What a snapshot says after an answer to a chunk that held it.
pub open spec fn snapshot_answered(s: SnapshotView, ack: Option<AckView>) -> SnapshotView {
    match ack {
        Some(a) => SnapshotView {
            sent: true,
            accepted: wrapping_sum(s.accepted, a.accepted),
            inserted: wrapping_sum(s.inserted, a.inserted),
            unknown: a.unknown,
            ..s
        },
        None => SnapshotView { sent: true, ..s },
    }
}

/// What is said of an upload that was set aside.
pub open spec fn drained_note(slug: Seq<char>) -> WarningView {
    WarningView {
        code: "drained"@,
        addon: Some(slug),
        message: "batch quarantined by the legacy drain \u{2014} acked but NOT ingested"@,
        sids: None,
        count: None,
    }
}

/// What is said of a stream that an answer leaves out.
pub open spec fn missing_note(slug: Seq<char>, name: Seq<char>) -> WarningView {
    WarningView {
        code: "missing_stream"@,
        addon: Some(slug),
        message: "stream '"@ + name
            + "' missing from a well-formed ack \u{2014} cursor held (not advanced)"@,
        sids: None,
        count: None,
    }
}

/// Whether one of the first `n` slices holds anything.
pub open spec fn any_sent(slices: Seq<Slice>, n: int) -> bool {
    exists|i: int| 0 <= i < n && (#[trigger] slices[i]).sent > 0
}

/// What is said of the first `n` streams after an answer: once for a chunk that was set
/// aside, else once for each stream that was sent and is left out.
pub open spec fn answer_notes(
    plans: Seq<PlanView>,
    slices: Seq<Slice>,
    ack: IngestAck,
    slug: Seq<char>,
    n: int,
) -> Seq<WarningView>
    decreases n,
{
    if n <= 0 {
        Seq::empty()
    } else {
        let before = answer_notes(plans, slices, ack, slug, n - 1);
        if slices[n - 1].sent == 0 {
            before
        } else if ack.drained {
            if any_sent(slices, n - 1) {
                before
            } else {
                before.push(drained_note(slug))
            }
        } else if ack.of_stream(plans[n - 1].name) is None {
            before.push(missing_note(slug, plans[n - 1].name))
        } else {
            before
        }
    }
}

fn wrapping(a: u64, b: u64) -> (c: u64)
    ensures
        c == wrapping_sum(a, b),
{
    a.wrapping_add(b)
}

fn answer_plan(p: &mut StreamPlan, slice: Slice, drained: bool, ack: Option<&StreamAck>) -> (warn:
    Option<AckWarn>)
    requires
        slice.sent > 0,
    ensures
        final(p)@ == plan_answered(old(p)@, slice, drained, crate::sync::opt_ack(ack)),
        warn == decision(drained, crate::sync::opt_ack(ack), slice.cursor, old(p)@.cursor).warn,
{
    p.found = wrapping(p.found, slice.sent);
    if let Some(a) = ack {
        p.accepted = wrapping(p.accepted, a.accepted);
        p.inserted = wrapping(p.inserted, a.inserted);
    }
    let d: AckDecision = decide_ack(drained, ack, slice.cursor, p.cursor);
    if d.unknown {
        p.unknown = true;
    }
    if let Some(AckWarn::MissingStream) = d.warn {
        p.held = true;
    }
    if let Some(c) = d.cursor {
        p.cursor = c;
    }
    d.warn
}

fn answer_snapshot(s: &mut Snapshot, ack: Option<&StreamAck>)
    ensures
        final(s)@ == snapshot_answered(old(s)@, crate::sync::opt_ack(ack)),
{
    s.sent = true;
    if let Some(a) = ack {
        s.accepted = wrapping(s.accepted, a.accepted);
        s.inserted = wrapping(s.inserted, a.inserted);
        s.unknown = a.unknown;
    }
}

fn append_warnings(to: &mut Vec<IngestWarning>, from: &Vec<IngestWarning>)
    ensures
        warnings_said(final(to)@) == warnings_said(old(to)@) + warnings_said(from@),
{
    let ghost start = warnings_said(to@);
    let mut i: usize = 0;
    proof {
        assert(warnings_said(from@).take(0) =~= Seq::<WarningView>::empty());
        assert(start =~= start + Seq::<WarningView>::empty());
    }
    while i < from.len()
        invariant
            i <= from@.len(),
            warnings_said(to@) == start + warnings_said(from@).take(i as int),
        decreases from@.len() - i,
    {
        let ghost before = warnings_said(to@);
        let w = from[i].clone();
        let ghost said = w@;
        to.push(w);
        proof {
            assert(warnings_said(to@) =~= before.push(said));
            assert(warnings_said(from@).take(i as int + 1) =~= warnings_said(from@).take(
                i as int,
            ).push(said));
            assert(warnings_said(to@) =~= start + warnings_said(from@).take(i as int + 1));
        }
        i = i + 1;
    }
    proof {
        assert(warnings_said(from@).take(i as int) =~= warnings_said(from@));
    }
}

impl AccountSync {
    /// Takes in the server's answer to a chunk: the cursor of each stream that was sent
    /// moves as the answer says, the counters grow, notes are kept, and the newest resync
    /// stamp stays in `stamp`.
    pub fn apply_ack(&mut self, chunk: &Chunk, ack: &IngestAck, stamp: &mut Option<String>)
        requires
            chunk.slices@.len() == old(self).plans@.len(),
        ensures
            opt_text(*final(stamp)) == merged(
                opt_text(*old(stamp)),
                opt_text(ack.resync_requested_at),
            ),
            final(self).plans@.len() == old(self).plans@.len(),
            forall|i: int|
                0 <= i < old(self).plans@.len() ==> (#[trigger] final(self).plans@[i])@
                    == plan_answered(
                    old(self).plans@[i]@,
                    chunk.slices@[i],
                    ack.drained,
                    ack.of_stream(old(self).plans@[i].name@),
                ),
            final(self).sessions@ == if chunk.include_sessions {
                snapshot_answered(old(self).sessions@, ack.of_stream(SESSIONS@))
            } else {
                old(self).sessions@
            },
            final(self).learned@ == if chunk.include_learned {
                snapshot_answered(old(self).learned@, ack.of_stream(LEARNED_ITEMS@))
            } else {
                old(self).learned@
            },
            warnings_said(final(self).warnings@) == notes_after(
                warnings_said(old(self).warnings@),
                warnings_said(ack.warnings@),
                answer_notes(
                    plan_views(old(self).plans@),
                    chunk.slices@,
                    *ack,
                    old(self).target@.slug,
                    chunk.slices@.len() as int,
                ),
            ),
            *final(self) == (AccountSync {
                plans: final(self).plans,
                sessions: final(self).sessions,
                learned: final(self).learned,
                warnings: final(self).warnings,
                ..*old(self)
            }),
            are_next_slices(plan_views(old(self).plans@), chunk.slices@) && chunk.include_sessions
                == old(self).sessions.is_due() && chunk.include_learned
                == old(self).learned.is_due() ==> is_answered(*old(self), *ack, *final(self)),
    {
        merge_stamp(
            stamp,
            match &ack.resync_requested_at {
                Some(s) => Some(s.as_str()),
                None => None,
            },
        );
        append_warnings(&mut self.warnings, &ack.warnings);
        let ghost before = *old(self);
        let ghost plans = plan_views(before.plans@);
        let ghost start = warnings_said(self.warnings@);
        let ghost slug = before.target@.slug;
        let mut drained_noted: bool = false;
        let mut i: usize = 0;
        proof {
            assert(start =~= start + Seq::<WarningView>::empty());
        }
        while i < chunk.slices.len()
            invariant
                before == *old(self),
                plans == plan_views(before.plans@),
                slug == before.target@.slug,
                chunk.slices@.len() == before.plans@.len(),
                i <= chunk.slices@.len(),
                self.plans@.len() == before.plans@.len(),
                forall|j: int|
                    0 <= j < i ==> (#[trigger] self.plans@[j])@ == plan_answered(
                        before.plans@[j]@,
                        chunk.slices@[j],
                        ack.drained,
                        ack.of_stream(before.plans@[j].name@),
                    ),
                forall|j: int| i <= j < before.plans@.len() ==> self.plans@[j] == before.plans@[j],
                drained_noted == (ack.drained && any_sent(chunk.slices@, i as int)),
                warnings_said(self.warnings@) == start + answer_notes(
                    plans,
                    chunk.slices@,
                    *ack,
                    slug,
                    i as int,
                ),
                *self == (AccountSync { plans: self.plans, warnings: self.warnings, ..before }),
            decreases chunk.slices@.len() - i,
        {
            let slice: Slice = chunk.slices[i];
            let ghost notes = answer_notes(plans, chunk.slices@, *ack, slug, i as int);
            let ghost said_before = warnings_said(self.warnings@);
            proof {
                assert(plans[i as int] == before.plans@[i as int]@);
                assert(any_sent(chunk.slices@, i + 1) == (any_sent(chunk.slices@, i as int)
                    || chunk.slices@[i as int].sent > 0)) by {
                    if any_sent(chunk.slices@, i + 1) {
                        let k = choose|k: int|
                            0 <= k < i + 1 && (#[trigger] chunk.slices@[k]).sent > 0;
                        assert(k == i || chunk.slices@[k].sent > 0 && k < i);
                    }
                }
            }
            if slice.sent > 0 {
                let a: Option<&StreamAck> = ack.streams.get(self.plans[i].name.as_str());
                let warn = answer_plan(&mut self.plans[i], slice, ack.drained, a);
                match warn {
                    Some(AckWarn::Drained) => {
                        if !drained_noted {
                            drained_noted = true;
                            let w = IngestWarning {
                                code: "drained".to_string(),
                                addon: Some(self.target.slug.clone()),
                                message:
                                    "batch quarantined by the legacy drain \u{2014} acked but NOT ingested".to_string(),
                                sids: None,
                                count: None,
                            };
                            let ghost said = w@;
                            self.warnings.push(w);
                            proof {
                                assert(warnings_said(self.warnings@) =~= said_before.push(said));
                                assert(start + notes.push(said) =~= (start + notes).push(said));
                            }
                        }
                    },
                    Some(AckWarn::MissingStream) => {
                        let w = IngestWarning {
                            code: "missing_stream".to_string(),
                            addon: Some(self.target.slug.clone()),
                            message: join3(
                                "stream '",
                                self.plans[i].name.as_str(),
                                "' missing from a well-formed ack \u{2014} cursor held (not advanced)",
                            ),
                            sids: None,
                            count: None,
                        };
                        let ghost said = w@;
                        self.warnings.push(w);
                        proof {
                            assert(warnings_said(self.warnings@) =~= said_before.push(said));
                            assert(start + notes.push(said) =~= (start + notes).push(said));
                        }
                    },
                    None => {},
                }
            }
            i = i + 1;
        }
        if chunk.include_sessions {
            answer_snapshot(&mut self.sessions, ack.streams.get(SESSIONS));
        }
        if chunk.include_learned {
            answer_snapshot(&mut self.learned, ack.streams.get(LEARNED_ITEMS));
        }
    }

    /// Takes in that a chunk could not be sent. Nothing more is sent, and no cursor moves.
    pub fn fail(&mut self, error: String)
        ensures
            *final(self) == (AccountSync { post_error: Some(error), ..*old(self) }),
    {
        self.post_error = Some(error);
    }
}

// ---------------------------------------------------------------------------
// The end of an upload
// ---------------------------------------------------------------------------

/// What the state of a stream says when its upload is over. The stream is stuck where
/// nothing failed, records are left, and the cursor did not move. The time of the file is
/// kept only where nothing failed.
pub open spec fn state_after(
    row: StateRow,
    p: PlanView,
    mtime: Option<i64>,
    now: i64,
    failed: bool,
) -> StateRow {
    let queued = ahead(p.entries, p.cursor).len() as u64;
    StateRow {
        total: p.total,
        cursor: signed_dec_of(p.cursor as int),
        last_accepted: p.accepted,
        queued,
        file_mtime: if failed {
            None
        } else {
            mtime
        },
        last_sync: if !failed && !p.unknown {
            Some(now)
        } else {
            row.last_sync
        },
        stuck: !failed && p.cursor <= stored_cursor(row.cursor) && queued > 0,
        ..row
    }
}

/// What the states say when the first `n` streams are kept.
pub open spec fn states_after(
    rows: Seq<StateRow>,
    t: TargetView,
    plans: Seq<PlanView>,
    mtime: Option<i64>,
    now: i64,
    failed: bool,
    n: int,
) -> Seq<StateRow>
    decreases n,
{
    if n <= 0 {
        rows
    } else {
        let before = states_after(rows, t, plans, mtime, now, failed, n - 1);
        let key = key_of(t, plans[n - 1].name);
        with_row(
            before,
            key,
            state_after(row_at(before, key), plans[n - 1], mtime, now, failed),
        )
    }
}

/// The names of a row of stream plans.
pub open spec fn plan_names(plans: Seq<PlanView>) -> Seq<Seq<char>> {
    Seq::new(plans.len(), |i: int| plans[i].name)
}

/// Whether a state belongs to the target.
pub open spec fn is_of_target(key: StreamKey, t: TargetView) -> bool {
    key.install_id == t.install_id && key.account == t.account && key.addon == t.slug
}

/// Whether a state belongs to the target, has records queued, and is of a stream that is
/// no longer in the file.
pub open spec fn is_orphan(row: StateRow, t: TargetView, present: Seq<Seq<char>>) -> bool {
    &&& is_of_target(row.key, t)
    &&& append_only(row.key.stream)
    &&& !present.contains(row.key.stream)
    &&& row.queued > 0
}

/// The states with those marked as stuck whose stream is no longer in the file.
pub open spec fn orphans_marked(
    rows: Seq<StateRow>,
    t: TargetView,
    present: Seq<Seq<char>>,
) -> Seq<StateRow> {
    Seq::new(
        rows.len(),
        |i: int|
            if is_orphan(rows[i], t, present) {
                StateRow { stuck: true, ..rows[i] }
            } else {
                rows[i]
            },
    )
}

/// The states without the times of the files of the target.
pub open spec fn times_forgotten(rows: Seq<StateRow>, t: TargetView) -> Seq<StateRow> {
    Seq::new(
        rows.len(),
        |i: int|
            if is_of_target(rows[i].key, t) {
                StateRow { file_mtime: None, ..rows[i] }
            } else {
                rows[i]
            },
    )
}

/// What the states say when an upload is over: each stream is kept, and those that are no
/// longer in the file are marked as stuck. Where the upload failed, no time of the file is
/// kept, so that it is read again.
pub open spec fn kept_states(
    rows: Seq<StateRow>,
    t: TargetView,
    plans: Seq<PlanView>,
    mtime: Option<i64>,
    now: i64,
    failed: bool,
) -> Seq<StateRow> {
    let marked = orphans_marked(
        states_after(rows, t, plans, mtime, now, failed, plans.len() as int),
        t,
        plan_names(plans),
    );
    if failed {
        times_forgotten(marked, t)
    } else {
        marked
    }
}

/// What is reported of the first `n` streams.
pub open spec fn plan_rows(
    t: TargetView,
    plans: Seq<PlanView>,
    error: Option<Seq<char>>,
    n: int,
) -> Seq<SyncRow>
    decreases n,
{
    if n <= 0 {
        Seq::empty()
    } else {
        let p = plans[n - 1];
        plan_rows(t, plans, error, n - 1).push(
            stream_row(
                t,
                p.name,
                p.found,
                p.accepted,
                p.inserted,
                signed_dec_of(p.cursor as int),
                p.unknown,
                None,
                error,
            ),
        )
    }
}

/// What is reported of the sessions: those that were closed, and how many are not.
pub open spec fn session_rows(
    t: TargetView,
    s: SnapshotView,
    open: u64,
    error: Option<Seq<char>>,
) -> Seq<SyncRow> {
    let withheld = "withheld "@ + dec_of(open as nat);
    if s.records.len() > 0 {
        seq![
            stream_row(
                t,
                SESSIONS@,
                s.records.len() as u64,
                s.accepted,
                s.inserted,
                Seq::empty(),
                s.unknown,
                if open > 0 {
                    Some(withheld + " open session(s)"@)
                } else {
                    None
                },
                if s.sent {
                    None
                } else {
                    error
                },
            ),
        ]
    } else if open > 0 {
        seq![
            stream_row(
                t,
                SESSIONS@,
                0,
                0,
                0,
                Seq::empty(),
                false,
                Some(withheld + " open session(s) \u{2014} waiting on close"@),
                None,
            ),
        ]
    } else {
        Seq::empty()
    }
}

/// What is reported of the learned items.
pub open spec fn learned_rows(t: TargetView, s: SnapshotView, error: Option<Seq<char>>) -> Seq<
    SyncRow,
> {
    if s.records.len() > 0 {
        seq![
            stream_row(
                t,
                LEARNED_ITEMS@,
                s.records.len() as u64,
                s.accepted,
                s.inserted,
                Seq::empty(),
                s.unknown,
                None,
                if s.sent {
                    None
                } else {
                    error
                },
            ),
        ]
    } else {
        Seq::empty()
    }
}

/// The text of a note.
pub open spec fn warning_text(w: WarningView) -> Seq<char> {
    match w.count {
        Some(n) => w.code + ": "@ + w.message + (" ("@ + dec_of(n as nat) + ")"@),
        None => w.code + ": "@ + w.message,
    }
}

/// What is reported of a note of the server.
pub open spec fn warning_row(t: TargetView, w: WarningView) -> SyncRow {
    SyncRow {
        addon: match w.addon {
            Some(a) => a,
            None => t.slug,
        },
        warning: Some(warning_text(w)),
        ..stream_row(t, "\u{26a0} server"@, 0, 0, 0, Seq::empty(), false, None, None)
    }
}

/// What is reported of a note on flavors.
pub open spec fn flavor_row(t: TargetView, note: Seq<char>) -> SyncRow {
    SyncRow {
        warning: Some(note),
        ..stream_row(t, "\u{26a0} flavor"@, 0, 0, 0, Seq::empty(), false, None, None)
    }
}

/// All that is reported of an upload.
pub open spec fn result_rows(s: AccountSync) -> Seq<SyncRow> {
    let t = s.target@;
    let error = opt_text(s.post_error);
    let plans = plan_views(s.plans@);
    let warnings = warnings_said(s.warnings@);
    let flags = texts(s.flavor_flags@);
    let rows = plan_rows(t, plans, error, plans.len() as int) + session_rows(
        t,
        s.sessions@,
        s.open_skipped,
        error,
    ) + learned_rows(t, s.learned@, error) + Seq::new(
        warnings.len(),
        |i: int| warning_row(t, warnings[i]),
    ) + Seq::new(flags.len(), |i: int| flavor_row(t, flags[i]));
    if rows.len() == 0 {
        seq![plain_row(t, Some("nothing new"@), None)]
    } else {
        rows
    }
}

/// Keeps how far a stream has come.
fn keep_plan(
    cfg: &mut AppConfig,
    target: &SyncTarget,
    p: &StreamPlan,
    file_mtime: Option<i64>,
    now: i64,
    failed: bool,
)
    ensures
        ({
            let rows = state_rows(old(cfg).sync@);
            let key = key_of(target@, p@.name);
            state_rows(final(cfg).sync@) == with_row(
                rows,
                key,
                state_after(row_at(rows, key), p@, file_mtime, now, failed),
            )
        }),
        *final(cfg) == (AppConfig { sync: final(cfg).sync, ..*old(cfg) }),
{
    let ghost rows = state_rows(cfg.sync@);
    let ghost key = key_of(target@, p@.name);
    proof {
        lemma_row_keys(cfg.sync@);
        lemma_first_at(row_keys(rows), key);
    }
    let queued: u64 = count_after(&p.entries, p.cursor);
    {
        let st = cfg.stream_state_mut(
            target.install_id.as_str(),
            target.account.as_str(),
            target.slug.as_str(),
            p.name.as_str(),
        );
        let prev: i64 = match parse_i64(st.cursor.as_str()) {
            Some(n) => n,
            None => 0,
        };
        st.total = p.total;
        st.cursor = dec_i64(p.cursor);
        st.last_accepted = p.accepted;
        st.queued = queued;
        st.file_mtime = if failed {
            None
        } else {
            file_mtime
        };
        if !failed && !p.unknown {
            st.last_sync = Some(now);
        }
        st.stuck = !failed && p.cursor <= prev && queued > 0;
    }
    proof {
        assert(state_rows(cfg.sync@) =~= with_row(
            rows,
            key,
            state_after(row_at(rows, key), p@, file_mtime, now, failed),
        ));
    }
}

fn is_planned(plans: &Vec<StreamPlan>, name: &str) -> (yes: bool)
    ensures
        yes == plan_names(plan_views(plans@)).contains(name@),
{
    let ghost names = plan_names(plan_views(plans@));
    let mut i: usize = 0;
    while i < plans.len()
        invariant
            names == plan_names(plan_views(plans@)),
            i <= plans@.len(),
            forall|j: int| 0 <= j < i ==> names[j] != name@,
        decreases plans@.len() - i,
    {
        proof {
            assert(names[i as int] == plans@[i as int].name@);
        }
        if same_text(plans[i].name.as_str(), name) {
            return true;
        }
        i = i + 1;
    }
    false
}

/// Marks the states as stuck whose stream is no longer in the file.
fn mark_orphans(cfg: &mut AppConfig, target: &SyncTarget, plans: &Vec<StreamPlan>)
    ensures
        state_rows(final(cfg).sync@) == orphans_marked(
            state_rows(old(cfg).sync@),
            target@,
            plan_names(plan_views(plans@)),
        ),
        *final(cfg) == (AppConfig { sync: final(cfg).sync, ..*old(cfg) }),
{
    let ghost before = cfg.sync@;
    let ghost rows = state_rows(before);
    let ghost present = plan_names(plan_views(plans@));
    let ghost marked = orphans_marked(rows, target@, present);
    let mut i: usize = 0;
    while i < cfg.sync.len()
        invariant
            before == old(cfg).sync@,
            rows == state_rows(before),
            present == plan_names(plan_views(plans@)),
            marked == orphans_marked(rows, target@, present),
            cfg.sync@.len() == before.len(),
            i <= before.len(),
            forall|j: int| 0 <= j < i ==> (#[trigger] cfg.sync@[j])@ == marked[j],
            forall|j: int| i <= j < before.len() ==> cfg.sync@[j] == before[j],
            *cfg == (AppConfig { sync: cfg.sync, ..*old(cfg) }),
        decreases before.len() - i,
    {
        let s: &StreamState = &cfg.sync[i];
        proof {
            assert(rows[i as int] == s@);
        }
        let orphan: bool = same_text(s.install_id.as_str(), target.install_id.as_str())
            && same_text(s.account.as_str(), target.account.as_str()) && same_text(
            s.addon.as_str(),
            target.slug.as_str(),
        ) && is_append_only(s.stream.as_str()) && !is_planned(plans, s.stream.as_str()) && s.queued
            > 0;
        proof {
            assert(orphan == is_orphan(rows[i as int], target@, present));
        }
        if orphan {
            cfg.sync[i].stuck = true;
        }
        i = i + 1;
    }
    proof {
        assert(state_rows(cfg.sync@) =~= marked);
    }
}

/// Forgets the times of the files of the target.
fn forget_times(cfg: &mut AppConfig, target: &SyncTarget)
    ensures
        state_rows(final(cfg).sync@) == times_forgotten(state_rows(old(cfg).sync@), target@),
        *final(cfg) == (AppConfig { sync: final(cfg).sync, ..*old(cfg) }),
{
    let ghost before = cfg.sync@;
    let ghost rows = state_rows(before);
    let ghost forgotten = times_forgotten(rows, target@);
    let mut i: usize = 0;
    while i < cfg.sync.len()
        invariant
            before == old(cfg).sync@,
            rows == state_rows(before),
            forgotten == times_forgotten(rows, target@),
            cfg.sync@.len() == before.len(),
            i <= before.len(),
            forall|j: int| 0 <= j < i ==> (#[trigger] cfg.sync@[j])@ == forgotten[j],
            forall|j: int| i <= j < before.len() ==> cfg.sync@[j] == before[j],
            *cfg == (AppConfig { sync: cfg.sync, ..*old(cfg) }),
        decreases before.len() - i,
    {
        let s: &StreamState = &cfg.sync[i];
        proof {
            assert(rows[i as int] == s@);
        }
        if same_text(s.install_id.as_str(), target.install_id.as_str()) && same_text(
            s.account.as_str(),
            target.account.as_str(),
        ) && same_text(s.addon.as_str(), target.slug.as_str()) {
            cfg.sync[i].file_mtime = None;
        }
        i = i + 1;
    }
    proof {
        assert(state_rows(cfg.sync@) =~= forgotten);
    }
}

impl AccountSync {
    /// Keeps how far the streams have come, and marks those that are stuck. After a failure
    /// the time of the file is forgotten, so that the next sync reads it again. `now` is
    /// the time in seconds since the epoch.
    pub fn persist(&self, cfg: &mut AppConfig, now: i64)
        ensures
            state_rows(final(cfg).sync@) == kept_states(
                state_rows(old(cfg).sync@),
                self.target@,
                plan_views(self.plans@),
                self.file_mtime,
                now,
                self.post_error is Some,
            ),
            *final(cfg) == (AppConfig { sync: final(cfg).sync, ..*old(cfg) }),
    {
        let ghost rows = state_rows(cfg.sync@);
        let ghost plans = plan_views(self.plans@);
        let failed: bool = self.post_error.is_some();
        let mut i: usize = 0;
        while i < self.plans.len()
            invariant
                rows == state_rows(old(cfg).sync@),
                plans == plan_views(self.plans@),
                failed == (self.post_error is Some),
                i <= self.plans@.len(),
                state_rows(cfg.sync@) == states_after(
                    rows,
                    self.target@,
                    plans,
                    self.file_mtime,
                    now,
                    failed,
                    i as int,
                ),
                *cfg == (AppConfig { sync: cfg.sync, ..*old(cfg) }),
            decreases self.plans@.len() - i,
        {
            proof {
                assert(plans[i as int] == self.plans@[i as int]@);
            }
            keep_plan(cfg, &self.target, &self.plans[i], self.file_mtime, now, failed);
            i = i + 1;
        }
        mark_orphans(cfg, &self.target, &self.plans);
        if failed {
            forget_times(cfg, &self.target);
        }
    }

    fn report_plans(&self) -> (out: Vec<SyncResult>)
        ensures
            rows_said(out@) == plan_rows(
                self.target@,
                plan_views(self.plans@),
                opt_text(self.post_error),
                self.plans@.len() as int,
            ),
    {
        let ghost plans = plan_views(self.plans@);
        let mut out: Vec<SyncResult> = Vec::new();
        let mut i: usize = 0;
        proof {
            assert(rows_said(out@) =~= Seq::<SyncRow>::empty());
        }
        while i < self.plans.len()
            invariant
                plans == plan_views(self.plans@),
                i <= self.plans@.len(),
                rows_said(out@) == plan_rows(
                    self.target@,
                    plans,
                    opt_text(self.post_error),
                    i as int,
                ),
            decreases self.plans@.len() - i,
        {
            let p: &StreamPlan = &self.plans[i];
            proof {
                assert(plans[i as int] == p@);
            }
            let r = self.target.row(
                p.name.as_str(),
                p.found,
                p.accepted,
                p.inserted,
                dec_i64(p.cursor),
                p.unknown,
                None,
                clone_opt(&self.post_error),
            );
            let ghost before = rows_said(out@);
            let ghost said = r@;
            out.push(r);
            proof {
                assert(rows_said(out@) =~= before.push(said));
            }
            i = i + 1;
        }
        out
    }

    fn report_snapshots(&self, out: &mut Vec<SyncResult>)
        ensures
            rows_said(final(out)@) == rows_said(old(out)@) + session_rows(
                self.target@,
                self.sessions@,
                self.open_skipped,
                opt_text(self.post_error),
            ) + learned_rows(self.target@, self.learned@, opt_text(self.post_error)),
    {
        let ghost start = rows_said(out@);
        let ghost sessions = session_rows(
            self.target@,
            self.sessions@,
            self.open_skipped,
            opt_text(self.post_error),
        );
        let ghost learned = learned_rows(self.target@, self.learned@, opt_text(self.post_error));
        proof {
            assert(self.sessions@.records.len() == self.sessions.records@.len());
            assert(self.learned@.records.len() == self.learned.records@.len());
        }
        let open_text = join2("withheld ", dec_u64(self.open_skipped).as_str());
        if self.sessions.records.len() > 0 {
            let skipped: Option<String> = if self.open_skipped > 0 {
                Some(join2(open_text.as_str(), " open session(s)"))
            } else {
                None
            };
            let r = self.target.row(
                SESSIONS,
                self.sessions.records.len() as u64,
                self.sessions.accepted,
                self.sessions.inserted,
                String::new(),
                self.sessions.unknown,
                skipped,
                if self.sessions.sent {
                    None
                } else {
                    clone_opt(&self.post_error)
                },
            );
            let ghost said = r@;
            out.push(r);
            proof {
                assert(rows_said(out@) =~= start.push(said));
            }
        } else if self.open_skipped > 0 {
            let r = self.target.row(
                SESSIONS,
                0,
                0,
                0,
                String::new(),
                false,
                Some(join2(open_text.as_str(), " open session(s) \u{2014} waiting on close")),
                None,
            );
            let ghost said = r@;
            out.push(r);
            proof {
                assert(rows_said(out@) =~= start.push(said));
            }
        }
        proof {
            assert(rows_said(out@) =~= start + sessions);
        }
        if self.learned.records.len() > 0 {
            let r = self.target.row(
                LEARNED_ITEMS,
                self.learned.records.len() as u64,
                self.learned.accepted,
                self.learned.inserted,
                String::new(),
                self.learned.unknown,
                None,
                if self.learned.sent {
                    None
                } else {
                    clone_opt(&self.post_error)
                },
            );
            let ghost said = r@;
            let ghost before = rows_said(out@);
            out.push(r);
            proof {
                assert(rows_said(out@) =~= before.push(said));
            }
        }
        proof {
            assert(rows_said(out@) =~= start + sessions + learned);
        }
    }

    fn report_notes(&self, out: &mut Vec<SyncResult>)
        ensures
            rows_said(final(out)@) == rows_said(old(out)@) + Seq::new(
                warnings_said(self.warnings@).len(),
                |i: int| warning_row(self.target@, warnings_said(self.warnings@)[i]),
            ) + Seq::new(
                texts(self.flavor_flags@).len(),
                |i: int| flavor_row(self.target@, texts(self.flavor_flags@)[i]),
            ),
    {
        let ghost start = rows_said(out@);
        let ghost said_warnings = Seq::new(
            warnings_said(self.warnings@).len(),
            |i: int| warning_row(self.target@, warnings_said(self.warnings@)[i]),
        );
        let ghost said_flags = Seq::new(
            texts(self.flavor_flags@).len(),
            |i: int| flavor_row(self.target@, texts(self.flavor_flags@)[i]),
        );
        let mut i: usize = 0;
        proof {
            assert(start =~= start + said_warnings.take(0));
        }
        while i < self.warnings.len()
            invariant
                i <= self.warnings@.len(),
                said_warnings == Seq::new(
                    warnings_said(self.warnings@).len(),
                    |i: int| warning_row(self.target@, warnings_said(self.warnings@)[i]),
                ),
                rows_said(out@) == start + said_warnings.take(i as int),
            decreases self.warnings@.len() - i,
        {
            let w: &IngestWarning = &self.warnings[i];
            let base = join3(w.code.as_str(), ": ", w.message.as_str());
            let text: String = match w.count {
                Some(n) => {
                    let tail = join3(" (", dec_u64(n).as_str(), ")");
                    join2(base.as_str(), tail.as_str())
                },
                None => base,
            };
            let mut r = self.target.row(
                "\u{26a0} server",
                0,
                0,
                0,
                String::new(),
                false,
                None,
                None,
            );
            if let Some(a) = &w.addon {
                r.addon = a.clone();
            }
            r.warning = Some(text);
            let ghost said = r@;
            let ghost before = rows_said(out@);
            out.push(r);
            proof {
                assert(warnings_said(self.warnings@)[i as int] == w@);
                assert(said == said_warnings[i as int]);
                assert(rows_said(out@) =~= before.push(said));
                assert(said_warnings.take(i as int + 1) =~= said_warnings.take(i as int).push(said));
                assert(rows_said(out@) =~= start + said_warnings.take(i as int + 1));
            }
            i = i + 1;
        }
        let ghost middle = rows_said(out@);
        proof {
            assert(said_warnings.take(i as int) =~= said_warnings);
            assert(middle =~= middle + said_flags.take(0));
        }
        i = 0;
        while i < self.flavor_flags.len()
            invariant
                i <= self.flavor_flags@.len(),
                said_flags == Seq::new(
                    texts(self.flavor_flags@).len(),
                    |i: int| flavor_row(self.target@, texts(self.flavor_flags@)[i]),
                ),
                rows_said(out@) == middle + said_flags.take(i as int),
            decreases self.flavor_flags@.len() - i,
        {
            let mut r = self.target.row(
                "\u{26a0} flavor",
                0,
                0,
                0,
                String::new(),
                false,
                None,
                None,
            );
            r.warning = Some(self.flavor_flags[i].clone());
            let ghost said = r@;
            let ghost before = rows_said(out@);
            out.push(r);
            proof {
                assert(texts(self.flavor_flags@)[i as int] == self.flavor_flags@[i as int]@);
                assert(said == said_flags[i as int]);
                assert(rows_said(out@) =~= before.push(said));
                assert(said_flags.take(i as int + 1) =~= said_flags.take(i as int).push(said));
                assert(rows_said(out@) =~= middle + said_flags.take(i as int + 1));
            }
            i = i + 1;
        }
        proof {
            assert(said_flags.take(i as int) =~= said_flags);
        }
    }

    /// What is reported of the upload: a row for each stream and snapshot, and one for
    /// each note.
    pub fn report(&self) -> (out: Vec<SyncResult>)
        ensures
            rows_said(out@) == result_rows(*self),
    {
        let mut out = self.report_plans();
        self.report_snapshots(&mut out);
        self.report_notes(&mut out);
        proof {
            assert(rows_said(out@).len() == out@.len());
            assert(plan_views(self.plans@).len() == self.plans@.len());
        }
        if out.len() == 0 {
            out.push(self.target.skipped_row("nothing new"));
            proof {
                assert(rows_said(out@) =~= seq![out@[0]@]);
            }
        }
        out
    }
}

// ---------------------------------------------------------------------------
// Laws of uploads
// ---------------------------------------------------------------------------

/// Whether `after` is what the upload `before` becomes by the answer `ack` to its next
/// chunk.
pub open spec fn is_answered(before: AccountSync, ack: IngestAck, after: AccountSync) -> bool {
    &&& after.plans@.len() == before.plans@.len()
    &&& forall|i: int|
        0 <= i < before.plans@.len() ==> (#[trigger] after.plans@[i])@ == plan_answered(
            before.plans@[i]@,
            slice_of(before.plans@[i]@),
            ack.drained,
            ack.of_stream(before.plans@[i].name@),
        )
    &&& after.sessions@ == if before.sessions.is_due() {
        snapshot_answered(before.sessions@, ack.of_stream(SESSIONS@))
    } else {
        before.sessions@
    }
    &&& after.learned@ == if before.learned.is_due() {
        snapshot_answered(before.learned@, ack.of_stream(LEARNED_ITEMS@))
    } else {
        before.learned@
    }
}

/// How far the cursor of a stream can still move: not at all once nothing more is sent of
/// it.
pub open spec fn plan_room(p: PlanView) -> int {
    if p.unknown || p.held {
        0
    } else {
        i64::MAX - p.cursor + 1
    }
}

/// How far the cursors of the first `n` streams can still move.
pub open spec fn plans_room(plans: Seq<StreamPlan>, n: int) -> int
    decreases n,
{
    if n <= 0 {
        0
    } else {
        plans_room(plans, n - 1) + plan_room(plans[n - 1]@)
    }
}

/// A bound on how many answers an upload can still take.
pub open spec fn room(s: AccountSync) -> int {
    plans_room(s.plans@, s.plans@.len() as int) + (if s.sessions.is_due() {
        1int
    } else {
        0
    }) + (if s.learned.is_due() {
        1int
    } else {
        0
    })
}

proof fn lemma_highest_ahead(records: Seq<JsonView>, least: i64)
    requires
        records.len() > 0,
        forall|i: int| 0 <= i < records.len() ==> is_ahead(#[trigger] records[i], least),
    ensures
        highest(records, least) > least,
    decreases records.len(),
{
    assert(is_ahead(records[records.len() - 1], least));
    if records.len() > 1 {
        let shorter = records.drop_last();
        assert forall|i: int| 0 <= i < shorter.len() implies is_ahead(
            #[trigger] shorter[i],
            least,
        ) by {
            assert(shorter[i] == records[i]);
        }
        lemma_highest_ahead(shorter, least);
    } else {
        assert(records.drop_last() =~= Seq::<JsonView>::empty());
    }
}

/// Every answer to a chunk takes a stream on of which something was sent: its cursor moves
/// up, or nothing more is sent of it. Other streams stay as they are.
pub proof fn law_answered_stream_moves_on_or_stops(
    p: PlanView,
    drained: bool,
    ack: Option<AckView>,
)
    ensures
        ({
            let q = plan_answered(p, slice_of(p), drained, ack);
            &&& plan_slice(p).len() == 0 ==> q == p
            &&& plan_slice(p).len() > 0 ==> {
                ||| q.cursor > p.cursor && !q.unknown && !q.held
                ||| q.cursor == p.cursor && plan_slice(q).len() == 0 && plan_room(q) == 0
            }
        }),
{
    if plan_slice(p).len() > 0 {
        law_chunk_is_bounded_and_ahead(p.entries, p.cursor, CHUNK as nat);
        lemma_highest_ahead(plan_slice(p), p.cursor);
        assert(slice_of(p).sent == plan_slice(p).len());
        if !drained && ack is Some && !ack->0.unknown {
            law_known_stream_moves_on(ack->0, slice_of(p).cursor, p.cursor);
        }
    }
}

proof fn lemma_plans_room(before: AccountSync, ack: IngestAck, after: AccountSync, n: int)
    requires
        is_answered(before, ack, after),
        0 <= n <= before.plans@.len(),
    ensures
        0 <= plans_room(after.plans@, n) <= plans_room(before.plans@, n),
        any_fed(plan_views(before.plans@), n) ==> plans_room(after.plans@, n) < plans_room(
            before.plans@,
            n,
        ),
    decreases n,
{
    if n > 0 {
        lemma_plans_room(before, ack, after, n - 1);
        let p = before.plans@[n - 1]@;
        assert(after.plans@[n - 1]@ == plan_answered(
            p,
            slice_of(p),
            ack.drained,
            ack.of_stream(before.plans@[n - 1].name@),
        ));
        law_answered_stream_moves_on_or_stops(p, ack.drained, ack.of_stream(p.name));
        let plans = plan_views(before.plans@);
        assert(plans[n - 1] == p);
        if any_fed(plans, n) && !any_fed(plans, n - 1) {
            let k = choose|k: int| 0 <= k < n && plan_slice(#[trigger] plans[k]).len() > 0;
            assert(k == n - 1);
        }
    }
}

/// An answer leaves less to do: while something is left to send, each answer to the next
/// chunk, whatever it says, lowers the bound on how many more there can be.
pub proof fn law_answers_use_up_an_upload(before: AccountSync, ack: IngestAck, after: AccountSync)
    requires
        is_answered(before, ack, after),
        !is_over(before),
    ensures
        0 <= room(after) < room(before),
{
    lemma_plans_room(before, ack, after, before.plans@.len() as int);
    assert(before.sessions.records@.len() == before.sessions@.records.len());
    assert(before.learned.records@.len() == before.learned@.records.len());
    assert(after.sessions.records@.len() == after.sessions@.records.len());
    assert(after.learned.records@.len() == after.learned@.records.len());
    assert(after.sessions.sent == after.sessions@.sent);
    assert(after.sessions.unknown == after.sessions@.unknown);
    assert(after.learned.sent == after.learned@.sent);
    assert(after.learned.unknown == after.learned@.unknown);
}

/// Every upload that is answered comes to its end: in a row of uploads of which each has
/// something left to send and becomes the next one by some answer, there are not more than
/// the first one has room for.
pub proof fn law_every_upload_ends(run: Seq<AccountSync>, acks: Seq<IngestAck>)
    requires
        run.len() > 0,
        acks.len() == run.len(),
        forall|i: int|
            0 <= i < run.len() - 1 ==> !is_over(#[trigger] run[i]) && is_answered(
                run[i],
                acks[i],
                run[i + 1],
            ),
    ensures
        0 <= room(run.last()),
        run.len() - 1 <= room(run[0]) - room(run.last()),
    decreases run.len(),
{
    let n = run.len();
    if n == 1 {
        lemma_room_is_positive(run[0].plans@, run[0].plans@.len() as int);
    } else {
        let shorter = run.drop_last();
        assert forall|i: int| 0 <= i < shorter.len() - 1 implies !is_over(#[trigger] shorter[i])
            && is_answered(shorter[i], acks.drop_last()[i], shorter[i + 1]) by {
            assert(!is_over(run[i]));
        }
        law_every_upload_ends(shorter, acks.drop_last());
        assert(!is_over(run[n - 2]) && is_answered(run[n - 2], acks[n - 2], run[n - 1]));
        law_answers_use_up_an_upload(run[n - 2], acks[n - 2], run[n - 1]);
    }
}

proof fn lemma_room_is_positive(plans: Seq<StreamPlan>, n: int)
    requires
        0 <= n <= plans.len(),
    ensures
        plans_room(plans, n) >= 0,
    decreases n,
{
    if n > 0 {
        lemma_room_is_positive(plans, n - 1);
    }
}

/// An answer never moves a cursor back and never touches the records of a stream; once
/// the server does not know a stream or has left it out, nothing more is sent of it.
pub proof fn law_answers_keep_streams(p: PlanView, slice: Slice, drained: bool, ack: Option<AckView>)
    ensures
        ({
            let q = plan_answered(p, slice, drained, ack);
            &&& q.cursor >= p.cursor
            &&& q.entries == p.entries
            &&& q.name == p.name
            &&& q.meta == p.meta
            &&& q.total == p.total
            &&& p.unknown ==> q.unknown
            &&& p.held ==> q.held
            &&& q.unknown || q.held ==> plan_slice(q).len() == 0
            &&& slice.sent > 0 && !drained && ack is None ==> q.held && q.cursor == p.cursor
        }),
{
}

/// A snapshot rides once: after an answer to a chunk that held it, it is not sent again.
pub proof fn law_snapshot_rides_once(s: SnapshotView, ack: Option<AckView>)
    ensures
        snapshot_answered(s, ack).sent,
        snapshot_answered(s, ack).records == s.records,
{
}

/// A failure to send is never taken for a stuck stream, nor is a stream that has nothing
/// left; a stream is stuck exactly if nothing failed, records are left, and the cursor
/// did not move.
pub proof fn law_stuck_means_it_will_not_drain(
    row: StateRow,
    p: PlanView,
    mtime: Option<i64>,
    now: i64,
    failed: bool,
)
    requires
        ahead(p.entries, p.cursor).len() <= u64::MAX,
    ensures
        ({
            let after = state_after(row, p, mtime, now, failed);
            &&& failed ==> !after.stuck
            &&& ahead(p.entries, p.cursor).len() == 0 ==> !after.stuck
            &&& p.cursor > stored_cursor(row.cursor) ==> !after.stuck
            &&& !failed && ahead(p.entries, p.cursor).len() > 0 && p.cursor <= stored_cursor(
                row.cursor,
            ) ==> after.stuck
        }),
{
}

/// Keeping an upload touches no state of another install, account or addon, and forgets
/// none.
pub proof fn law_other_states_stay(
    rows: Seq<StateRow>,
    t: TargetView,
    plans: Seq<PlanView>,
    mtime: Option<i64>,
    now: i64,
    failed: bool,
)
    ensures
        ({
            let after = kept_states(rows, t, plans, mtime, now, failed);
            &&& rows.len() <= after.len()
            &&& forall|i: int| 0 <= i < rows.len() ==> (#[trigger] after[i]).key == rows[i].key
            &&& forall|i: int|
                0 <= i < rows.len() && !is_of_target(rows[i].key, t) ==> (#[trigger] after[i])
                    == rows[i]
            &&& forall|i: int|
                rows.len() <= i < after.len() ==> is_of_target((#[trigger] after[i]).key, t)
        }),
{
    lemma_other_states(rows, t, plans, mtime, now, failed, plans.len() as int);
}

proof fn lemma_other_states(
    rows: Seq<StateRow>,
    t: TargetView,
    plans: Seq<PlanView>,
    mtime: Option<i64>,
    now: i64,
    failed: bool,
    n: int,
)
    requires
        0 <= n <= plans.len(),
    ensures
        ({
            let after = states_after(rows, t, plans, mtime, now, failed, n);
            &&& rows.len() <= after.len()
            &&& forall|i: int| 0 <= i < rows.len() ==> (#[trigger] after[i]).key == rows[i].key
            &&& forall|i: int|
                0 <= i < rows.len() && !is_of_target(rows[i].key, t) ==> (#[trigger] after[i])
                    == rows[i]
            &&& forall|i: int|
                rows.len() <= i < after.len() ==> is_of_target((#[trigger] after[i]).key, t)
        }),
    decreases n,
{
    if n > 0 {
        lemma_other_states(rows, t, plans, mtime, now, failed, n - 1);
        let before = states_after(rows, t, plans, mtime, now, failed, n - 1);
        let key = key_of(t, plans[n - 1].name);
        let p = first_at(row_keys(before), key);
        lemma_first_at(row_keys(before), key);
        if p < before.len() {
            assert(row_keys(before)[p] == key);
            assert(before[p].key == key);
        }
    }
}

/// A failed upload is tried again: after it, no time of the file lets the next sync pass
/// over it, whether it has changed or not.
pub proof fn law_failed_upload_is_tried_again(
    rows: Seq<StateRow>,
    t: TargetView,
    plans: Seq<PlanView>,
    mtime: Option<i64>,
    now: i64,
    later: Option<i64>,
)
    ensures
        !unchanged(kept_states(rows, t, plans, mtime, now, true), t, later),
{
    let after = kept_states(rows, t, plans, mtime, now, true);
    let key = (t.install_id, t.account, t.slug);
    let p = first_at(file_keys(after), key);
    lemma_first_at(file_keys(after), key);
    if p < after.len() {
        assert(file_keys(after)[p] == key);
        assert(is_of_target(after[p].key, t));
    }
}

/// A stream that an answer leaves out is stuck when nothing failed: where its cursor stands
/// where it was kept, and records are left.
pub proof fn law_held_stream_is_stuck(
    row: StateRow,
    p: PlanView,
    slice: Slice,
    mtime: Option<i64>,
    now: i64,
)
    requires
        slice.sent > 0,
        p.cursor == stored_cursor(row.cursor),
        0 < ahead(p.entries, p.cursor).len() <= u64::MAX,
    ensures
        ({
            let q = plan_answered(p, slice, false, None);
            let after = state_after(row, q, mtime, now, false);
            &&& plan_slice(q).len() == 0
            &&& after.stuck
            &&& stored_cursor(after.cursor) == p.cursor
            &&& after.queued == ahead(p.entries, p.cursor).len()
        }),
{
    crate::sync::law_cursor_text_reads_back(p.cursor);
}

/// What was kept of a stream is found again: the state of each stream of the upload holds
/// its cursor, from which the next upload of it goes on.
pub proof fn law_kept_cursor_is_found_again(
    rows: Seq<StateRow>,
    t: TargetView,
    plans: Seq<PlanView>,
    mtime: Option<i64>,
    now: i64,
    failed: bool,
    k: int,
)
    requires
        0 <= k < plans.len(),
        names_differ(plans),
    ensures
        ({
            let after = kept_states(rows, t, plans, mtime, now, failed);
            let row = row_at(after, key_of(t, plans[k].name));
            &&& stored_cursor(row.cursor) == plans[k].cursor
            &&& row.file_mtime == if failed {
                None
            } else {
                mtime
            }
            &&& row.total == plans[k].total
        }),
{
    let n = plans.len() as int;
    let states = states_after(rows, t, plans, mtime, now, failed, n);
    let after = kept_states(rows, t, plans, mtime, now, failed);
    let key = key_of(t, plans[k].name);
    lemma_kept_cursor(rows, t, plans, mtime, now, failed, n, k);
    assert(row_keys(after) =~= row_keys(states));
    lemma_first_at(row_keys(states), key);
    crate::sync::law_cursor_text_reads_back(plans[k].cursor);
}

proof fn lemma_kept_cursor(
    rows: Seq<StateRow>,
    t: TargetView,
    plans: Seq<PlanView>,
    mtime: Option<i64>,
    now: i64,
    failed: bool,
    n: int,
    k: int,
)
    requires
        0 <= k < n <= plans.len(),
        names_differ(plans),
    ensures
        ({
            let states = states_after(rows, t, plans, mtime, now, failed, n);
            let key = key_of(t, plans[k].name);
            let p = first_at(row_keys(states), key);
            &&& p < states.len()
            &&& states[p].cursor == signed_dec_of(plans[k].cursor as int)
            &&& states[p].file_mtime == if failed {
                None
            } else {
                mtime
            }
            &&& states[p].total == plans[k].total
        }),
    decreases n,
{
    let before = states_after(rows, t, plans, mtime, now, failed, n - 1);
    let states = states_after(rows, t, plans, mtime, now, failed, n);
    let last = key_of(t, plans[n - 1].name);
    let key = key_of(t, plans[k].name);
    let q = first_at(row_keys(before), last);
    lemma_first_at(row_keys(before), last);
    lemma_first_at(row_keys(states), key);
    if q < before.len() {
        assert(row_keys(before)[q] == before[q].key);
        assert(row_keys(states) =~= row_keys(before));
    } else {
        assert(row_keys(states) =~= row_keys(before).push(last));
    }
    if k == n - 1 {
        if q < before.len() {
            assert(states[q].cursor == signed_dec_of(plans[k].cursor as int));
        } else {
            assert(row_keys(states)[before.len() as int] == last);
            assert forall|j: int| 0 <= j < before.len() implies row_keys(states)[j] != last by {
                assert(row_keys(states)[j] == row_keys(before)[j]);
            }
            assert(first_at(row_keys(states), key) == before.len());
        }
    } else {
        assert(plans[k].name != plans[n - 1].name);
        assert(key != last);
        lemma_kept_cursor(rows, t, plans, mtime, now, failed, n - 1, k);
        let p = first_at(row_keys(before), key);
        lemma_first_at(row_keys(before), key);
        assert(row_keys(states)[p] == key);
        assert forall|j: int| 0 <= j < p implies row_keys(states)[j] != key by {
            assert(row_keys(states)[j] == row_keys(before)[j]);
        }
        assert(first_at(row_keys(states), key) == p);
        if q < before.len() {
            assert(row_keys(before)[q] == last);
            assert(p != q);
        }
    }
}

// ---------------------------------------------------------------------------
// What an upload is for
// ---------------------------------------------------------------------------

/// A session counts as closed exactly where it states when it was closed; the closed ones
/// are all kept, in their order.
pub proof fn law_closed_sessions_state_it(sessions: Seq<JsonView>, m: Map<Seq<char>, JsonView>)
    ensures
        closed_of(sessions) == sessions.filter(|s: JsonView| is_closed(s)),
        is_closed(JsonView::Obj(m)) <==> m.contains_key("closedAt"@) && m["closedAt"@] != JsonView::Null,
        forall|s: JsonView| !(s is Obj) ==> !#[trigger] is_closed(s),
    decreases sessions.len(),
{
    reveal(Seq::filter);
    if sessions.len() > 0 {
        law_closed_sessions_state_it(sessions.drop_last(), m);
    } else {
        assert(closed_of(sessions) =~= sessions);
    }
}

/// A snapshot that is due rides whole in the next chunk: its dataset has exactly its
/// records, all of them in their order, and neither a cursor nor a counter.
pub proof fn law_snapshots_ride_whole(s: AccountSync)
    ensures
        s.sessions.is_due() ==> next_datasets(s).contains_key("sessions"@) && next_datasets(
            s,
        )["sessions"@].entries == views(s.sessions.records@) && next_datasets(
            s,
        )["sessions"@].since is None && next_datasets(s)["sessions"@].stream_meta is None,
        s.learned.is_due() ==> next_datasets(s).contains_key("learned_items"@) && next_datasets(
            s,
        )["learned_items"@].entries == views(s.learned.records@) && next_datasets(
            s,
        )["learned_items"@].since is None && next_datasets(s)["learned_items"@].stream_meta is None,
        s.sessions.is_due() <==> s.sessions.records@.len() > 0 && !s.sessions.sent
            && !s.sessions.unknown,
        s.learned.is_due() <==> s.learned.records@.len() > 0 && !s.learned.sent && !s.learned.unknown,
{
    law_four_streams_are_sent_whole(Seq::empty());
}

/// Over the whole of an upload that is answered, every closed session of the export is in the
/// sessions dataset of some chunk that was sent, and every learned item in the dataset of
/// learned items of some chunk. The upload is the row of its states, each of which becomes
/// the next by some answer, until nothing is left to send.
pub proof fn law_every_session_and_item_is_sent(
    run: Seq<AccountSync>,
    acks: Seq<IngestAck>,
    style: PathStyle,
    inst: InstallSnap,
    t: TargetView,
    manifest: Seq<AddonRef>,
    mtime: Option<i64>,
    export: SvExport,
    cfg: AppConfig,
)
    requires
        run.len() > 0,
        acks.len() == run.len(),
        is_ready(run[0], style, inst, t, manifest, mtime, export, cfg),
        forall|i: int|
            0 <= i < run.len() - 1 ==> !is_over(#[trigger] run[i]) && is_answered(
                run[i],
                acks[i],
                run[i + 1],
            ),
        is_over(run.last()),
    ensures
        forall|k: int|
            0 <= k < export.sessions@.len() && is_closed((#[trigger] export.sessions@[k])@)
                ==> rides_in(run, "sessions"@, export.sessions@[k]@),
        forall|k: int|
            0 <= k < export.db_items@.len() ==> rides_in(
                run,
                "learned_items"@,
                (#[trigger] export.db_items@[k])@,
            ),
{
    let s = run[0];
    law_snapshots_ride_whole(s);
    let sessions = views(export.sessions@);
    law_only_closed_sessions_are_sent(sessions);
    assert(s.sessions@.records == views(s.sessions.records@));
    assert(s.learned@.records == views(s.learned.records@));
    assert(s.post_error is None);
    assert forall|k: int| 0 <= k < export.sessions@.len() && is_closed(
        (#[trigger] export.sessions@[k])@,
    ) implies rides_in(run, "sessions"@, export.sessions@[k]@) by {
        assert(sessions[k] == export.sessions@[k]@);
        assert(closed_of(sessions).contains(sessions[k]));
        assert(s.sessions.is_due());
        assert(run.len() > 1);
        assert(rides_at(run, 0, "sessions"@, sessions[k]));
    }
    let items = views(export.db_items@);
    assert forall|k: int| 0 <= k < export.db_items@.len() implies rides_in(
        run,
        "learned_items"@,
        (#[trigger] export.db_items@[k])@,
    ) by {
        assert(items[k] == export.db_items@[k]@);
        assert(s.learned.is_due());
        assert(items.contains(items[k]));
        assert(run.len() > 1);
        assert(rides_at(run, 0, "learned_items"@, items[k]));
    }
}

/// Whether the chunk that is sent from the state at `i` holds `record` in the dataset `name`.
pub open spec fn rides_at(run: Seq<AccountSync>, i: int, name: Seq<char>, record: JsonView) -> bool {
    &&& next_datasets(run[i]).contains_key(name)
    &&& next_datasets(run[i])[name].entries.contains(record)
}

/// Whether one of the chunks of an upload holds `record` in the dataset `name`.
pub open spec fn rides_in(run: Seq<AccountSync>, name: Seq<char>, record: JsonView) -> bool {
    exists|i: int| 0 <= i < run.len() - 1 && #[trigger] rides_at(run, i, name, record)
}

proof fn lemma_plan_dataset(plans: Seq<PlanView>, n: int, k: int)
    requires
        0 <= k < plans.len(),
        0 <= n <= plans.len(),
        names_differ(plans),
    ensures
        k < n && plan_slice(plans[k]).len() > 0 ==> plan_datasets(plans, n).contains_key(
            plans[k].name,
        ) && plan_datasets(plans, n)[plans[k].name] == (DatasetView {
            since: Some(signed_dec_of(plans[k].cursor as int)),
            stream_meta: Some(plans[k].meta),
            entries: plan_slice(plans[k]),
        }),
        k >= n || plan_slice(plans[k]).len() == 0 ==> !plan_datasets(plans, n).contains_key(
            plans[k].name,
        ),
    decreases n,
{
    if n > 0 {
        lemma_plan_dataset(plans, n - 1, k);
        if k != n - 1 {
            if k < n - 1 {
                assert(plans[k].name != plans[n - 1].name);
            } else {
                assert(plans[n - 1].name != plans[k].name);
            }
        }
    }
}

/// The next chunk holds of a stream the records that come next: those numbered above its
/// cursor, in order, all of them or the first 4000, with the cursor that they follow and
/// the counter of the stream. Of a stream that the server does not know or left out, and of
/// one that has nothing ahead of its cursor, it holds nothing.
pub proof fn law_next_chunk_holds_what_comes_next(s: AccountSync, k: int)
    requires
        0 <= k < s.plans@.len(),
        names_differ(plan_views(s.plans@)),
        append_only(s.plans@[k].name@),
    ensures
        ({
            let p = s.plans@[k]@;
            let all = p.entries.filter(
                |e: JsonView| seq_of(e) is Some && seq_of(e)->0 > p.cursor,
            );
            let sets = next_datasets(s);
            &&& sets.contains_key(p.name) <==> !p.unknown && !p.held && all.len() > 0
            &&& sets.contains_key(p.name) ==> {
                let d = sets[p.name];
                &&& d.entries == all.take(
                    if all.len() <= 4000 {
                        all.len() as int
                    } else {
                        4000
                    },
                )
                &&& d.since is Some
                &&& i64_of(d.since->0) == Some(p.cursor)
                &&& d.stream_meta == Some(p.meta)
            }
        }),
{
    let p = s.plans@[k]@;
    let plans = plan_views(s.plans@);
    assert(plans[k] == p);
    lemma_plan_dataset(plans, plans.len() as int, k);
    law_chunk_is_what_comes_next(p.entries, p.cursor, CHUNK as nat);
    crate::sync::law_cursor_text_reads_back(p.cursor);
}

/// Over the whole of an upload, every record of a stream with a number above the cursor
/// that it began at is sent in some chunk, where the server knew the stream to the end and
/// never moved its cursor past what was sent to it.
pub proof fn law_every_record_of_a_stream_is_sent(
    run: Seq<AccountSync>,
    acks: Seq<IngestAck>,
    k: int,
    e: JsonView,
)
    requires
        run.len() > 0,
        acks.len() == run.len(),
        forall|i: int|
            0 <= i < run.len() - 1 ==> !is_over(#[trigger] run[i]) && is_answered(
                run[i],
                acks[i],
                run[i + 1],
            ),
        is_over(run.last()),
        run.last().post_error is None,
        0 <= k < run[0].plans@.len(),
        names_differ(plan_views(run[0].plans@)),
        append_only(run[0].plans@[k].name@),
        ascending(run[0].plans@[k]@.entries),
        !run.last().plans@[k].unknown && !run.last().plans@[k].held,
        forall|i: int|
            0 <= i < run.len() - 1 ==> (#[trigger] run[i + 1]).plans@[k].cursor <= highest(
                plan_slice(run[i].plans@[k]@),
                run[i].plans@[k].cursor,
            ),
        run[0].plans@[k]@.entries.contains(e),
        is_ahead(e, run[0].plans@[k].cursor),
    ensures
        rides_in(run, run[0].plans@[k].name@, e),
    decreases run.len(),
{
    let s = run[0];
    let p = s.plans@[k]@;
    let plans = plan_views(s.plans@);
    assert(plans[k] == p);
    lemma_is_among_ahead(p.entries, p.cursor, e);
    let all = ahead(p.entries, p.cursor);
    law_chunk_is_bounded_and_ahead(p.entries, p.cursor, CHUNK as nat);
    if run.len() == 1 {
        assert(run.last() == s);
        assert(plan_slice(plans[k]).len() > 0);
        assert(any_fed(plans, plans.len() as int));
    } else {
        let next = run[0int + 1];
        assert(is_answered(run[0], acks[0], run[0int + 1]));
        lemma_kept_over_run(run, acks, k, run.len() - 1);
        let chunk = plan_slice(p);
        assert(!p.unknown && !p.held);
        lemma_plan_dataset(plans, plans.len() as int, k);
        law_four_streams_are_sent_whole(p.name);
        if chunk.contains(e) {
            assert(rides_at(run, 0, p.name, e));
        } else {
            law_chunks_follow_each_other(p.entries, p.cursor, CHUNK as nat);
            let h = highest(chunk, p.cursor);
            let rest = ahead(p.entries, h);
            let j = all.index_of(e);
            assert(all[j] == (chunk + rest)[j]);
            if j < chunk.len() {
                assert(chunk[j] == e);
            }
            assert(rest[j - chunk.len()] == e);
            lemma_ahead_means_ahead(p.entries, h, j - chunk.len());
            assert(next.plans@[k].cursor <= h);
            assert(next.plans@[k]@ == plan_answered(
                p,
                slice_of(p),
                acks[0].drained,
                acks[0].of_stream(s.plans@[k].name@),
            ));
            let later = run.drop_first();
            let after = acks.drop_first();
            assert(later[0] == next);
            assert(later.last() == run.last());
            assert forall|i: int| 0 <= i < later.len() - 1 implies !is_over(#[trigger] later[i])
                && is_answered(later[i], after[i], later[i + 1]) by {
                assert(later[i] == run[i + 1]);
                assert(later[i + 1] == run[i + 1 + 1]);
                assert(!is_over(run[i + 1]));
            }
            assert forall|i: int| 0 <= i < later.len() - 1 implies (#[trigger] later[i
                + 1]).plans@[k].cursor <= highest(
                plan_slice(later[i].plans@[k]@),
                later[i].plans@[k].cursor,
            ) by {
                assert(later[i] == run[i + 1]);
                assert(later[i + 1] == run[(i + 1) + 1]);
            }
            let others = plan_views(next.plans@);
            assert forall|a: int, b: int| 0 <= a < b < others.len() implies (#[trigger] others[a]).name
                != (#[trigger] others[b]).name by {
                assert(next.plans@[a]@.name == plans[a].name);
                assert(next.plans@[b]@.name == plans[b].name);
            }
            assert(next.plans@[k].name@ == next.plans@[k]@.name);
            law_every_record_of_a_stream_is_sent(later, after, k, e);
            let i = choose|i: int|
                0 <= i < later.len() - 1 && #[trigger] rides_at(later, i, p.name, e);
            assert(later[i] == run[i + 1]);
            assert(rides_at(run, i + 1, p.name, e));
        }
    }
}

proof fn lemma_kept_over_run(run: Seq<AccountSync>, acks: Seq<IngestAck>, k: int, n: int)
    requires
        0 <= n < run.len(),
        acks.len() == run.len(),
        forall|i: int|
            0 <= i < run.len() - 1 ==> !is_over(#[trigger] run[i]) && is_answered(
                run[i],
                acks[i],
                run[i + 1],
            ),
        0 <= k < run[0].plans@.len(),
    ensures
        run[n].plans@.len() == run[0].plans@.len(),
        run[0].plans@[k].unknown ==> run[n].plans@[k].unknown,
        run[0].plans@[k].held ==> run[n].plans@[k].held,
    decreases n,
{
    if n > 0 {
        lemma_kept_over_run(run, acks, k, n - 1);
        assert(!is_over(run[n - 1]) && is_answered(run[n - 1], acks[n - 1], run[n - 1 + 1]));
        let p = run[n - 1].plans@[k]@;
        let q = run[n].plans@[k]@;
        assert(q == plan_answered(
            p,
            slice_of(p),
            acks[n - 1].drained,
            acks[n - 1].of_stream(run[n - 1].plans@[k].name@),
        ));
        assert(q.unknown == run[n].plans@[k].unknown);
        assert(q.held == run[n].plans@[k].held);
        assert(p.unknown == run[n - 1].plans@[k].unknown);
        assert(p.held == run[n - 1].plans@[k].held);
    }
}

proof fn lemma_is_among_ahead(entries: Seq<JsonView>, cursor: i64, e: JsonView)
    requires
        entries.contains(e),
        is_ahead(e, cursor),
    ensures
        ahead(entries, cursor).contains(e),
    decreases entries.len(),
{
    let all = ahead(entries, cursor);
    let i = entries.index_of(e);
    let shorter = entries.drop_last();
    let before = ahead(shorter, cursor);
    if i == entries.len() - 1 {
        assert(all[all.len() - 1] == e);
    } else {
        assert(shorter[i] == e);
        lemma_is_among_ahead(shorter, cursor, e);
        let j = before.index_of(e);
        assert(all[j] == e);
    }
}

proof fn lemma_ahead_means_ahead(entries: Seq<JsonView>, cursor: i64, i: int)
    requires
        0 <= i < ahead(entries, cursor).len(),
    ensures
        is_ahead(ahead(entries, cursor)[i], cursor),
{
    let all = ahead(entries, cursor);
    law_chunk_is_bounded_and_ahead(entries, cursor, all.len());
    let chunk = chunk_of(entries, cursor, all.len());
    assert(chunk =~= all);
    assert(is_ahead(chunk[i], cursor));
}

/// An upload begins with a plan for every stream of the export that is added to record by
/// record: with all of its entries, and from the record behind the one that was acknowledged
/// last, or from the first that still exists where that comes later.
pub proof fn law_every_stream_is_planned(
    pairs: Seq<(Seq<char>, ParsedStream)>,
    metas: Map<Seq<char>, StreamMeta>,
    cfg: AppConfig,
    t: TargetView,
    n: int,
    i: int,
)
    requires
        0 <= i < n <= pairs.len(),
        append_only(pairs[i].0),
        pairs[i].1.entries@.len() <= u64::MAX,
    ensures
        exists|k: int|
            0 <= k < first_plans(pairs, metas, cfg, t, n).len() && {
                let p = #[trigger] first_plans(pairs, metas, cfg, t, n)[k];
                let stored = i64_of(cfg.cursor_at(key_of(t, pairs[i].0)));
                let base = if metas.contains_key(pairs[i].0) {
                    metas[pairs[i].0].base
                } else {
                    1
                };
                &&& p.name == pairs[i].0
                &&& p.entries == views(pairs[i].1.entries@)
                &&& p.total == pairs[i].1.entries@.len()
                &&& p.found == 0 && p.accepted == 0 && p.inserted == 0
                &&& !p.unknown && !p.held
                &&& p.meta.base == base
                &&& metas.contains_key(p.name) ==> p.meta == metas[p.name]
                &&& p.cursor >= base - 1
                &&& p.cursor >= if stored is Some {
                    stored->0
                } else {
                    0
                }
                &&& p.cursor == base - 1 || stored is Some && p.cursor == stored->0 || stored is None
                    && p.cursor == 0
            },
    decreases n,
{
    let before = first_plans(pairs, metas, cfg, t, n - 1);
    let all = first_plans(pairs, metas, cfg, t, n);
    if i == n - 1 {
        assert(all[all.len() - 1].name == pairs[i].0);
    } else {
        law_every_stream_is_planned(pairs, metas, cfg, t, n - 1, i);
        let k = choose|k: int|
            0 <= k < before.len() && {
                let p = #[trigger] before[k];
                let stored = i64_of(cfg.cursor_at(key_of(t, pairs[i].0)));
                let base = if metas.contains_key(pairs[i].0) {
                    metas[pairs[i].0].base
                } else {
                    1
                };
                &&& p.name == pairs[i].0
                &&& p.entries == views(pairs[i].1.entries@)
                &&& p.total == pairs[i].1.entries@.len()
                &&& p.found == 0 && p.accepted == 0 && p.inserted == 0
                &&& !p.unknown && !p.held
                &&& p.meta.base == base
                &&& metas.contains_key(p.name) ==> p.meta == metas[p.name]
                &&& p.cursor >= base - 1
                &&& p.cursor >= if stored is Some {
                    stored->0
                } else {
                    0
                }
                &&& p.cursor == base - 1 || stored is Some && p.cursor == stored->0 || stored is None
                    && p.cursor == 0
            };
        assert(all[k] == before[k]);
    }
}

/// No stream that is sent whole has a plan, nor any that is not in the export.
pub proof fn law_only_growing_streams_are_planned(
    pairs: Seq<(Seq<char>, ParsedStream)>,
    metas: Map<Seq<char>, StreamMeta>,
    cfg: AppConfig,
    t: TargetView,
    n: int,
    k: int,
)
    requires
        0 <= n <= pairs.len(),
        0 <= k < first_plans(pairs, metas, cfg, t, n).len(),
    ensures
        append_only(first_plans(pairs, metas, cfg, t, n)[k].name),
        exists|i: int|
            0 <= i < n && (#[trigger] pairs[i]).0 == first_plans(pairs, metas, cfg, t, n)[k].name,
        first_plans(pairs, metas, cfg, t, n).len() <= n,
    decreases n,
{
    if n > 0 {
        let before = first_plans(pairs, metas, cfg, t, n - 1);
        if k < before.len() {
            law_only_growing_streams_are_planned(pairs, metas, cfg, t, n - 1, k);
        } else {
            assert(pairs[n - 1].0 == first_plans(pairs, metas, cfg, t, n)[k].name);
            if before.len() > 0 {
                law_only_growing_streams_are_planned(pairs, metas, cfg, t, n - 1, 0);
            }
        }
    }
}

/// An answer is counted: what was sent of a stream, and what the server says that it took
/// and that was new to it. What was sent of it before stays counted.
pub proof fn law_answers_are_counted(p: PlanView, slice: Slice, drained: bool, ack: Option<AckView>)
    requires
        slice.sent > 0,
        p.found + slice.sent <= u64::MAX,
        ack matches Some(a) ==> p.accepted + a.accepted <= u64::MAX && p.inserted + a.inserted
            <= u64::MAX,
    ensures
        ({
            let q = plan_answered(p, slice, drained, ack);
            &&& q.found == p.found + slice.sent
            &&& ack matches Some(a) ==> q.accepted == p.accepted + a.accepted && q.inserted
                == p.inserted + a.inserted
            &&& ack is None ==> q.accepted == p.accepted && q.inserted == p.inserted
            &&& !drained && ack is Some && ack->0.unknown ==> q.unknown && q.cursor == p.cursor
            &&& drained || ack is Some && !ack->0.unknown ==> q.unknown == p.unknown && q.held
                == p.held
            &&& drained && slice.cursor >= p.cursor ==> q.cursor == slice.cursor
        }),
{
}

/// The answer to a snapshot is counted, and tells whether the server knows it.
pub proof fn law_snapshot_answers_are_counted(s: SnapshotView, ack: Option<AckView>)
    requires
        ack matches Some(a) ==> s.accepted + a.accepted <= u64::MAX && s.inserted + a.inserted
            <= u64::MAX,
    ensures
        ack matches Some(a) ==> snapshot_answered(s, ack).accepted == s.accepted + a.accepted
            && snapshot_answered(s, ack).inserted == s.inserted + a.inserted && snapshot_answered(
            s,
            ack,
        ).unknown == a.unknown,
        ack is None ==> snapshot_answered(s, ack).accepted == s.accepted && snapshot_answered(
            s,
            ack,
        ).inserted == s.inserted && snapshot_answered(s, ack).unknown == s.unknown,
{
}

/// Every stream that was sent and that an answer leaves out is noted by its name, and
/// nothing else is; a chunk that was set aside is noted once, whatever it held.
pub proof fn law_what_goes_missing_is_noted(
    plans: Seq<PlanView>,
    slices: Seq<Slice>,
    ack: IngestAck,
    slug: Seq<char>,
    n: int,
)
    requires
        0 <= n <= plans.len(),
        n <= slices.len(),
    ensures
        ack.drained ==> answer_notes(plans, slices, ack, slug, n) == if any_sent(slices, n) {
            seq![drained_note(slug)]
        } else {
            Seq::empty()
        },
        !ack.drained ==> forall|i: int|
            0 <= i < n && (#[trigger] slices[i]).sent > 0 && ack.of_stream(plans[i].name) is None
                ==> answer_notes(plans, slices, ack, slug, n).contains(
                missing_note(slug, plans[i].name),
            ),
        !ack.drained && (forall|i: int|
            0 <= i < n && (#[trigger] slices[i]).sent > 0 ==> ack.of_stream(plans[i].name) is Some)
            ==> answer_notes(plans, slices, ack, slug, n).len() == 0,
    decreases n,
{
    let all = answer_notes(plans, slices, ack, slug, n);
    if n > 0 {
        law_what_goes_missing_is_noted(plans, slices, ack, slug, n - 1);
        let before = answer_notes(plans, slices, ack, slug, n - 1);
        if ack.drained {
            if any_sent(slices, n) {
                if any_sent(slices, n - 1) {
                    let i = choose|i: int| 0 <= i < n - 1 && (#[trigger] slices[i]).sent > 0;
                    assert(slices[i].sent > 0);
                } else {
                    let i = choose|i: int| 0 <= i < n && (#[trigger] slices[i]).sent > 0;
                    assert(i == n - 1);
                }
            } else {
                assert(!(slices[n - 1].sent > 0));
                if any_sent(slices, n - 1) {
                    let i = choose|i: int| 0 <= i < n - 1 && (#[trigger] slices[i]).sent > 0;
                    assert(slices[i].sent > 0);
                }
            }
            assert(all =~= if any_sent(slices, n) {
                seq![drained_note(slug)]
            } else {
                Seq::empty()
            });
        } else {
            assert forall|i: int|
                0 <= i < n && (#[trigger] slices[i]).sent > 0 && ack.of_stream(plans[i].name)
                    is None implies all.contains(missing_note(slug, plans[i].name)) by {
                let note = missing_note(slug, plans[i].name);
                if i < n - 1 {
                    let j = before.index_of(note);
                    assert(all[j] == note);
                } else {
                    assert(all[all.len() - 1] == note);
                }
            }
            if forall|i: int|
                0 <= i < n && (#[trigger] slices[i]).sent > 0 ==> ack.of_stream(plans[i].name)
                    is Some {
                assert(slices[n - 1].sent > 0 ==> ack.of_stream(plans[n - 1].name) is Some);
            }
        }
    } else {
        assert(!any_sent(slices, n));
        assert(all =~= Seq::empty());
    }
}

/// The state that is kept of a stream tells where the next upload goes on, how many records
/// are still ahead of that, and how many there are; the time of the sync where nothing
/// failed and the server knows the stream; and the time of the file where nothing failed.
pub proof fn law_kept_state_tells_how_far_it_came(
    row: StateRow,
    p: PlanView,
    mtime: Option<i64>,
    now: i64,
    failed: bool,
)
    requires
        p.entries.len() <= u64::MAX,
    ensures
        ({
            let after = state_after(row, p, mtime, now, failed);
            &&& after.key == row.key
            &&& i64_of(after.cursor) == Some(p.cursor)
            &&& after.queued == p.entries.filter(
                |e: JsonView| seq_of(e) is Some && seq_of(e)->0 > p.cursor,
            ).len()
            &&& after.total == p.total
            &&& after.last_accepted == p.accepted
            &&& !failed && !p.unknown ==> after.last_sync == Some(now)
            &&& failed || p.unknown ==> after.last_sync == row.last_sync
            &&& !failed ==> after.file_mtime == mtime
            &&& failed ==> after.file_mtime is None
        }),
{
    crate::sync::law_cursor_text_reads_back(p.cursor);
    law_chunk_is_what_comes_next(p.entries, p.cursor, 0);
    lemma_ahead_is_no_longer(p.entries, p.cursor);
}

proof fn lemma_ahead_is_no_longer(entries: Seq<JsonView>, cursor: i64)
    ensures
        ahead(entries, cursor).len() <= entries.len(),
    decreases entries.len(),
{
    if entries.len() > 0 {
        lemma_ahead_is_no_longer(entries.drop_last(), cursor);
    }
}

/// A stream that is no longer in the file and had records queued is marked as stuck; no
/// other state of any stream changes by that.
pub proof fn law_lost_streams_are_marked(
    rows: Seq<StateRow>,
    t: TargetView,
    present: Seq<Seq<char>>,
    i: int,
)
    requires
        0 <= i < rows.len(),
    ensures
        ({
            let after = orphans_marked(rows, t, present);
            let r = rows[i];
            let lost = r.key.install_id == t.install_id && r.key.account == t.account && r.key.addon
                == t.slug && append_only(r.key.stream) && !present.contains(r.key.stream) && r.queued
                > 0;
            &&& after.len() == rows.len()
            &&& lost ==> after[i] == (StateRow { stuck: true, ..r })
            &&& !lost ==> after[i] == r
        }),
{
}

/// A file is passed over only where its time is the one that was kept, and never where no
/// time was kept; where all states of the file kept one time, it is passed over exactly at
/// that time.
pub proof fn law_time_of_the_file_decides(
    rows: Seq<StateRow>,
    t: TargetView,
    mtime: Option<i64>,
    kept: Option<i64>,
)
    requires
        exists|i: int| 0 <= i < rows.len() && is_of_target((#[trigger] rows[i]).key, t),
        forall|i: int|
            0 <= i < rows.len() && is_of_target((#[trigger] rows[i]).key, t) ==> rows[i].file_mtime
                == kept,
    ensures
        unchanged(rows, t, mtime) <==> kept is Some && mtime == kept,
        !unchanged(Seq::empty(), t, mtime),
        !unchanged(rows, t, None),
{
    let keys = file_keys(rows);
    let key = (t.install_id, t.account, t.slug);
    lemma_first_at(keys, key);
    let i = choose|i: int| 0 <= i < rows.len() && is_of_target((#[trigger] rows[i]).key, t);
    assert(keys[i] == key);
    assert(keys.contains(key));
    let p = first_at(keys, key);
    assert(keys[p] == key);
    assert(is_of_target(rows[p].key, t));
    lemma_first_at(file_keys(Seq::empty()), key);
}

/// The report has a row for each stream of an upload, with what was sent of it, what the
/// server took, and where its cursor is; and the error on each where the upload failed.
pub proof fn law_every_stream_is_reported(s: AccountSync, k: int)
    requires
        0 <= k < s.plans@.len(),
    ensures
        ({
            let rows = result_rows(s);
            let p = s.plans@[k]@;
            &&& rows.len() >= s.plans@.len()
            &&& rows[k].install_id == s.target@.install_id
            &&& rows[k].install_label == s.target@.install_label
            &&& rows[k].account == s.target@.account
            &&& rows[k].addon == s.target@.slug
            &&& rows[k].stream == p.name
            &&& rows[k].found == p.found
            &&& rows[k].accepted == p.accepted
            &&& rows[k].inserted == p.inserted
            &&& i64_of(rows[k].cursor) == Some(p.cursor)
            &&& rows[k].unknown == p.unknown
            &&& rows[k].error == opt_text(s.post_error)
            &&& rows[k].skipped is None && rows[k].warning is None
        }),
{
    let plans = plan_views(s.plans@);
    lemma_plan_rows(s.target@, plans, opt_text(s.post_error), plans.len() as int, k);
    crate::sync::law_cursor_text_reads_back(s.plans@[k]@.cursor);
}

proof fn lemma_plan_rows(
    t: TargetView,
    plans: Seq<PlanView>,
    error: Option<Seq<char>>,
    n: int,
    k: int,
)
    requires
        0 <= k < plans.len(),
        0 <= n <= plans.len(),
    ensures
        plan_rows(t, plans, error, n).len() == n,
        k < n ==> plan_rows(t, plans, error, n)[k] == stream_row(
            t,
            plans[k].name,
            plans[k].found,
            plans[k].accepted,
            plans[k].inserted,
            signed_dec_of(plans[k].cursor as int),
            plans[k].unknown,
            None,
            error,
        ),
    decreases n,
{
    if n > 0 {
        lemma_plan_rows(t, plans, error, n - 1, k);
    }
}

/// The sessions are reported in one row with how many were closed and what the server took
/// of them; how many are still open is told whenever there are any. Where there is no
/// session at all, there is no row. A failure is told only if they were not sent before it.
pub proof fn law_sessions_are_reported(
    t: TargetView,
    s: SnapshotView,
    open: u64,
    error: Option<Seq<char>>,
)
    requires
        s.records.len() <= u64::MAX,
    ensures
        ({
            let rows = session_rows(t, s, open, error);
            &&& rows.len() == 0 <==> s.records.len() == 0 && open == 0
            &&& rows.len() <= 1
            &&& rows.len() == 1 ==> {
                &&& rows[0].stream == "sessions"@
                &&& rows[0].found == s.records.len()
                &&& rows[0].skipped is Some <==> open > 0
                &&& open > 0 ==> begins_with(rows[0].skipped->0, "withheld "@ + dec_of(open as nat))
                &&& s.records.len() > 0 ==> rows[0].accepted == s.accepted && rows[0].inserted
                    == s.inserted && rows[0].unknown == s.unknown && rows[0].error == if s.sent {
                    None
                } else {
                    error
                }
            }
        }),
{
    let withheld = "withheld "@ + dec_of(open as nat);
    let a = withheld + " open session(s)"@;
    let b = withheld + " open session(s) \u{2014} waiting on close"@;
    assert(a.subrange(0, withheld.len() as int) =~= withheld);
    assert(b.subrange(0, withheld.len() as int) =~= withheld);
}

/// The learned items are reported in one row where there are any.
pub proof fn law_items_are_reported(t: TargetView, s: SnapshotView, error: Option<Seq<char>>)
    requires
        s.records.len() <= u64::MAX,
    ensures
        ({
            let rows = learned_rows(t, s, error);
            &&& s.records.len() == 0 ==> rows.len() == 0
            &&& s.records.len() > 0 ==> {
                &&& rows.len() == 1
                &&& rows[0].stream == "learned_items"@
                &&& rows[0].found == s.records.len()
                &&& rows[0].accepted == s.accepted
                &&& rows[0].inserted == s.inserted
                &&& rows[0].unknown == s.unknown
                &&& rows[0].error == if s.sent {
                    None
                } else {
                    error
                }
            }
        }),
{
}

/// Everything is reported: a row for each stream, those of the sessions and the learned
/// items, and one for each note of the server and on flavors; and where there is nothing
/// else, one that says so.
pub proof fn law_report_is_complete(s: AccountSync)
    ensures
        ({
            let rows = result_rows(s);
            let error = opt_text(s.post_error);
            let n = s.plans@.len() + session_rows(
                s.target@,
                s.sessions@,
                s.open_skipped,
                error,
            ).len() + learned_rows(s.target@, s.learned@, error).len();
            let all = n + s.warnings@.len() + s.flavor_flags@.len();
            &&& all > 0 ==> rows.len() == all
            &&& all == 0 ==> rows.len() == 1 && rows[0].skipped is Some && rows[0].error is None
            &&& forall|i: int|
                0 <= i < s.warnings@.len() ==> rows[n + i].warning == Some(
                    warning_text((#[trigger] s.warnings@[i])@),
                )
            &&& forall|i: int|
                0 <= i < s.flavor_flags@.len() ==> rows[n + s.warnings@.len() + i].warning == Some(
                    (#[trigger] s.flavor_flags@[i])@,
                )
        }),
{
    let plans = plan_views(s.plans@);
    let error = opt_text(s.post_error);
    if plans.len() > 0 {
        lemma_plan_rows(s.target@, plans, error, plans.len() as int, 0);
    }
    let rows = result_rows(s);
    let n = s.plans@.len() + session_rows(s.target@, s.sessions@, s.open_skipped, error).len()
        + learned_rows(s.target@, s.learned@, error).len();
    let warnings = warnings_said(s.warnings@);
    let flags = texts(s.flavor_flags@);
    assert forall|i: int| 0 <= i < s.warnings@.len() implies rows[n + i].warning == Some(
        warning_text((#[trigger] s.warnings@[i])@),
    ) by {
        assert(rows[n + i] == warning_row(s.target@, warnings[i]));
    }
    assert forall|i: int| 0 <= i < s.flavor_flags@.len() implies rows[n + s.warnings@.len()
        + i].warning == Some((#[trigger] s.flavor_flags@[i])@) by {
        assert(rows[n + s.warnings@.len() + i] == flavor_row(s.target@, flags[i]));
    }
}

/// Each closed session whose flavor does not fit the folder is noted, in their order, and no
/// other is. The flavor of a session is the integer that its game environment states.
pub proof fn law_misfits_are_noted(sessions: Seq<JsonView>, flavor: Seq<char>)
    ensures
        flavor_notes(sessions, flavor) == sessions.filter(
            |s: JsonView| flavors_agree(flavor, recorded_flavor(s)) == Some(false),
        ).map_values(|s: JsonView| flavor_note(s, flavor)),
    decreases sessions.len(),
{
    let misfit = |s: JsonView| flavors_agree(flavor, recorded_flavor(s)) == Some(false);
    let note = |s: JsonView| flavor_note(s, flavor);
    reveal(Seq::filter);
    if sessions.len() > 0 {
        law_misfits_are_noted(sessions.drop_last(), flavor);
        let before = sessions.drop_last().filter(misfit);
        assert(before.push(sessions.last()).map_values(note) =~= before.map_values(note).push(
            note(sessions.last()),
        ));
    } else {
        assert(sessions.filter(misfit).map_values(note) =~= Seq::empty());
    }
}

/// A session states its flavor under `gameEnv`, and its id under `sid`.
pub proof fn law_session_states_flavor_and_id(
    m: Map<Seq<char>, JsonView>,
    env: Map<Seq<char>, JsonView>,
    n: i64,
    id: Seq<char>,
)
    ensures
        ({
            let e = JsonView::Obj(env.insert("flavor"@, JsonView::Int(n as int)));
            &&& recorded_flavor(JsonView::Obj(m.insert("gameEnv"@, e))) == Some(n)
            &&& recorded_flavor(
                JsonView::Obj(m.insert("gameEnv"@, JsonView::Obj(env.remove("flavor"@)))),
            ) is None
            &&& recorded_flavor(JsonView::Obj(m.remove("gameEnv"@))) is None
            &&& session_id(JsonView::Obj(m.insert("sid"@, JsonView::Str(id)))) == id
            &&& session_id(JsonView::Obj(m.remove("sid"@))) == "?"@
        }),
{
}

/// What a chunk carries names whose it is and holds what is due: the addon, the account, the
/// flavor, the whole format and registry, and the datasets of the streams and snapshots.
pub proof fn law_envelope_holds_what_is_due(s: AccountSync, e: Envelope, k: int)
    requires
        is_next_envelope(s, e),
    ensures
        e.schema@ == "gec.ingest/2"@,
        e.addon@ == s.target.addon@,
        e.account@ == s.target.account@,
        e.flavor@ == s.flavor@,
        fields(e.format) == fields(s.format),
        fields(e.registry) == fields(s.registry),
        addon_refs(e.addons_installed@) == addon_refs(s.manifest@),
        s.sessions.is_due() ==> e.datasets@.contains_key("sessions"@) && views(
            e.datasets@["sessions"@].entries@,
        ) == views(s.sessions.records@),
        s.learned.is_due() ==> e.datasets@.contains_key("learned_items"@) && views(
            e.datasets@["learned_items"@].entries@,
        ) == views(s.learned.records@),
        0 <= k < s.plans@.len() && names_differ(plan_views(s.plans@)) && append_only(
            s.plans@[k].name@,
        ) && !s.plans@[k].unknown && !s.plans@[k].held && ahead(
            s.plans@[k]@.entries,
            s.plans@[k].cursor,
        ).len() > 0 ==> e.datasets@.contains_key(s.plans@[k].name@) && views(
            e.datasets@[s.plans@[k].name@].entries@,
        ).is_prefix_of(ahead(s.plans@[k]@.entries, s.plans@[k].cursor)) && views(
            e.datasets@[s.plans@[k].name@].entries@,
        ).len() > 0,
{
    law_snapshots_ride_whole(s);
    let sets = datasets_said(e.datasets);
    assert(sets == next_datasets(s));
    if s.sessions.is_due() {
        assert(sets.contains_key("sessions"@));
        assert(sets["sessions"@] == e.datasets@["sessions"@]@);
    }
    if s.learned.is_due() {
        assert(sets.contains_key("learned_items"@));
        assert(sets["learned_items"@] == e.datasets@["learned_items"@]@);
    }
    if 0 <= k < s.plans@.len() && names_differ(plan_views(s.plans@)) && append_only(
        s.plans@[k].name@,
    ) {
        let p = s.plans@[k]@;
        law_next_chunk_holds_what_comes_next(s, k);
        law_chunk_is_what_comes_next(p.entries, p.cursor, 4000);
        if sets.contains_key(p.name) {
            assert(sets[p.name] == e.datasets@[p.name]@);
            let all = ahead(p.entries, p.cursor);
            let n = sets[p.name].entries.len() as int;
            assert(sets[p.name].entries =~= all.subrange(0, n));
        }
    }
}

/// What is counted of a stream in a chunk is what the chunk holds of it: as many records, and
/// the highest of their numbers.
pub proof fn law_slice_counts_what_rides(s: AccountSync, slices: Seq<Slice>, k: int)
    requires
        are_next_slices(plan_views(s.plans@), slices),
        0 <= k < s.plans@.len(),
        names_differ(plan_views(s.plans@)),
        append_only(s.plans@[k].name@),
    ensures
        slices.len() == s.plans@.len(),
        ({
            let sets = next_datasets(s);
            let name = s.plans@[k].name@;
            &&& slices[k].sent == if sets.contains_key(name) {
                sets[name].entries.len()
            } else {
                0
            }
            &&& sets.contains_key(name) ==> slices[k].cursor == highest(
                sets[name].entries,
                s.plans@[k].cursor,
            )
            &&& !sets.contains_key(name) ==> slices[k].cursor == s.plans@[k].cursor
        }),
{
    let plans = plan_views(s.plans@);
    let p = plans[k];
    assert(slices[k] == slice_of(p));
    lemma_plan_dataset(plans, plans.len() as int, k);
    law_chunk_is_bounded_and_ahead(p.entries, p.cursor, CHUNK as nat);
    law_four_streams_are_sent_whole(p.name);
}

/// There is something to send exactly where a stream, a learned item or a closed session is
/// there; and an upload that has any session or item to send is not over before it began.
pub proof fn law_anything_is_reason_to_send(
    s: AccountSync,
    style: PathStyle,
    inst: InstallSnap,
    t: TargetView,
    manifest: Seq<AddonRef>,
    mtime: Option<i64>,
    export: SvExport,
    cfg: AppConfig,
)
    requires
        is_ready(s, style, inst, t, manifest, mtime, export, cfg),
    ensures
        nothing_to_send(export, closed_of(views(export.sessions@))) <==> export.streams.pairs().len()
            == 0 && export.db_items@.len() == 0 && closed_of(views(export.sessions@)).len() == 0,
        export.db_items@.len() > 0 || closed_of(views(export.sessions@)).len() > 0 ==> !is_over(s),
        s.target@ == t,
        s.file_mtime == mtime,
        s.open_skipped + closed_of(views(export.sessions@)).len() == export.sessions@.len(),
        fields(s.registry) == fields(export.registry),
        fields(s.format) == fields(export.format),
{
    assert(s.sessions@.records == views(s.sessions.records@));
    assert(s.learned@.records == views(s.learned.records@));
}

/// An upload is over exactly where it failed or nothing is left: no snapshot is due, and no
/// stream that the server takes has a record above its cursor.
pub proof fn law_upload_is_over_when_nothing_is_left(s: AccountSync, k: int)
    ensures
        s.post_error is Some ==> is_over(s),
        s.sessions.is_due() && s.post_error is None ==> !is_over(s),
        s.learned.is_due() && s.post_error is None ==> !is_over(s),
        0 <= k < s.plans@.len() && s.post_error is None && !s.plans@[k].unknown && !s.plans@[k].held
            && ahead(s.plans@[k]@.entries, s.plans@[k].cursor).len() > 0 ==> !is_over(s),
        is_over(s) && s.post_error is None && 0 <= k < s.plans@.len() && !s.plans@[k].unknown
            && !s.plans@[k].held ==> ahead(s.plans@[k]@.entries, s.plans@[k].cursor).len() == 0,
        !s.sessions.is_due() && !s.learned.is_due() && (forall|j: int|
            0 <= j < s.plans@.len() ==> (#[trigger] s.plans@[j]).unknown || s.plans@[j].held || ahead(
                s.plans@[j]@.entries,
                s.plans@[j].cursor,
            ).len() == 0) ==> is_over(s),
{
    let plans = plan_views(s.plans@);
    if (forall|j: int|
        0 <= j < s.plans@.len() ==> (#[trigger] s.plans@[j]).unknown || s.plans@[j].held || ahead(
            s.plans@[j]@.entries,
            s.plans@[j].cursor,
        ).len() == 0) && any_fed(plans, plans.len() as int) {
        let j = choose|j: int| 0 <= j < plans.len() && plan_slice(#[trigger] plans[j]).len() > 0;
        assert(plans[j] == s.plans@[j]@);
        assert(s.plans@[j].unknown || s.plans@[j].held || ahead(
            s.plans@[j]@.entries,
            s.plans@[j].cursor,
        ).len() == 0);
        law_chunk_is_bounded_and_ahead(plans[j].entries, plans[j].cursor, CHUNK as nat);
    }
    if 0 <= k < s.plans@.len() {
        let p = plans[k];
        assert(p == s.plans@[k]@);
        law_chunk_is_bounded_and_ahead(p.entries, p.cursor, CHUNK as nat);
        if ahead(p.entries, p.cursor).len() > 0 && !p.unknown && !p.held {
            assert(plan_slice(plans[k]).len() > 0);
            assert(any_fed(plans, plans.len() as int));
        }
    }
}

/// A note is told with its code, its message and, where it has one, its count; it is told of
/// the addon that it names, and of the one that was uploaded where it names none.
pub proof fn law_notes_are_told_in_full(t: TargetView, w: WarningView)
    ensures
        w.count is None ==> warning_row(t, w).warning == Some(w.code + ": "@ + w.message),
        w.count matches Some(n) ==> warning_row(t, w).warning == Some(
            w.code + ": "@ + w.message + (" ("@ + dec_of(n as nat) + ")"@),
        ),
        w.addon matches Some(a) ==> warning_row(t, w).addon == a,
        w.addon is None ==> warning_row(t, w).addon == t.slug,
        warning_row(t, w).install_id == t.install_id && warning_row(t, w).account == t.account,
        warning_row(t, w).error is None && warning_row(t, w).skipped is None,
{
}

/// The note on a misfit names the session, the flavor of the folder and the one that the
/// session states.
pub proof fn law_misfit_is_named(s: JsonView, flavor: Seq<char>)
    requires
        recorded_flavor(s) is Some,
    ensures
        flavor_note(s, flavor) == "session "@ + session_id(s) + ": directory flavor '"@ + flavor + (
        "' \u{2260} recorded gameEnv.flavor "@ + signed_dec_of(recorded_flavor(s)->0 as int)
            + " \u{2014} file may be attributed to the wrong install"@),
{
}

/// The notes on an upload after an answer: those that there were, those of the server, and
/// those on what went missing.
pub open spec fn notes_after(
    before: Seq<WarningView>,
    server: Seq<WarningView>,
    missing: Seq<WarningView>,
) -> Seq<WarningView> {
    before + server + missing
}

/// No note is lost: those that there were stay where they were, and behind them come those of
/// the server and those on what went missing, each of them in order.
pub proof fn law_no_note_is_lost(
    before: Seq<WarningView>,
    server: Seq<WarningView>,
    missing: Seq<WarningView>,
)
    ensures
        ({
            let all = notes_after(before, server, missing);
            &&& all.len() == before.len() + server.len() + missing.len()
            &&& before.is_prefix_of(all)
            &&& forall|i: int| 0 <= i < server.len() ==> all[before.len() + i] == #[trigger] server[i]
            &&& missing.is_suffix_of(all)
        }),
{
    let all = notes_after(before, server, missing);
    assert(all.subrange(0, before.len() as int) =~= before);
    assert(all.subrange(all.len() - missing.len(), all.len() as int) =~= missing);
    assert forall|i: int| 0 <= i < server.len() implies all[before.len() + i] == #[trigger] server[i] by {
    }
}

} // verus!
