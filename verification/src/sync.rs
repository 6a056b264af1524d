//! The rules of the data sync: which records of a stream are sent, what an
//! acknowledgement does to a cursor, and which accounts and addons take part.
use vstd::prelude::*;

use crate::config::opt_str;
use crate::json::{field, int_value, views, Json, JsonView};
use crate::number::{i64_of, parse_i64, signed_dec_of};
use crate::paths::{
    is_bare_share,
    is_part,
    join_of,
    join_path,
    law_joined_part_comes_last,
    law_parent_undoes_join,
    law_plain_path_is_the_same,
    parent,
    parent_of,
    path_of,
    path_text,
    PathStyle,
};
use crate::seqs::{clone_opt, clone_texts, contains, opt_text};
use crate::text::{
    begins_with,
    contains_text,
    is_less,
    law_text_order_is_strict_and_total,
    lowercase_of,
    occurs_in,
    same_text,
    stands_at,
    starts_with,
    text_less,
    texts,
    to_lowercase,
    trim,
    trim_of,
};
use crate::textmap::TextMap;

verus! {

// ---------------------------------------------------------------------------
// Addons and streams
// ---------------------------------------------------------------------------

/// An addon whose export is swept: its slug, its name on the wire and on disk, and the
/// Lua global that its file assigns.
#[derive(Debug, Clone, Copy)]
pub struct AddonExport {
    pub slug: &'static str,
    pub addon: &'static str,
    pub global: &'static str,
}

/// The slugs, names and globals of the addons whose exports are swept.
pub open spec fn export_table() -> Seq<(Seq<char>, Seq<char>, Seq<char>)> {
    seq![("sbf"@, "SBF"@, "SBFData"@), ("haul"@, "Haul"@, "HaulData"@)]
}

/// What an addon export says.
pub open spec fn export_row(e: AddonExport) -> (Seq<char>, Seq<char>, Seq<char>) {
    (e.slug@, e.addon@, e.global@)
}

/// The addons whose exports are swept. An addon needs one row here, and nothing else.
pub fn exports() -> (v: Vec<AddonExport>)
    ensures
        v@.len() == 2,
        forall|i: int| 0 <= i < 2 ==> export_row(#[trigger] v@[i]) == export_table()[i],
{
    let mut v: Vec<AddonExport> = Vec::new();
    v.push(AddonExport { slug: "sbf", addon: "SBF", global: "SBFData" });
    v.push(AddonExport { slug: "haul", addon: "Haul", global: "HaulData" });
    v
}

/// The dataset of the session records.
pub const SESSIONS: &'static str = "sessions";

/// The dataset of the learned items.
pub const LEARNED_ITEMS: &'static str = "learned_items";

/// Whether the records of a stream are numbered and only ever added. The others are keyed
/// by an identity of their own and have no cursor.
pub open spec fn append_only(stream: Seq<char>) -> bool {
    stream != SESSIONS@ && stream != LEARNED_ITEMS@ && stream != "learned_spells"@ && stream
        != "places"@
}

/// Whether the records of a stream are numbered and only ever added.
pub fn is_append_only(stream: &str) -> (yes: bool)
    ensures
        yes == append_only(stream@),
{
    !same_text(stream, SESSIONS) && !same_text(stream, LEARNED_ITEMS) && !same_text(
        stream,
        "learned_spells",
    ) && !same_text(stream, "places")
}

/// How many records of a stream one upload may hold.
pub const CHUNK: usize = 4000;

// ---------------------------------------------------------------------------
// Records ahead of a cursor
// ---------------------------------------------------------------------------

/// The number of a record, if it has one.
pub open spec fn seq_of(e: JsonView) -> Option<i64> {
    match field(e, "seq"@) {
        Some(v) => int_value(v),
        None => None,
    }
}

/// Whether a record is numbered, and higher than `cursor`.
pub open spec fn is_ahead(e: JsonView, cursor: i64) -> bool {
    seq_of(e) is Some && seq_of(e)->0 > cursor
}

/// The records that are ahead of `cursor`, in order. Those without a number are set
/// aside.
pub open spec fn ahead(entries: Seq<JsonView>, cursor: i64) -> Seq<JsonView>
    decreases entries.len(),
{
    if entries.len() == 0 {
        Seq::empty()
    } else {
        let before = ahead(entries.drop_last(), cursor);
        if is_ahead(entries.last(), cursor) {
            before.push(entries.last())
        } else {
            before
        }
    }
}

/// The highest number among `records`, or `least` if that is higher.
pub open spec fn highest(records: Seq<JsonView>, least: i64) -> i64
    decreases records.len(),
{
    if records.len() == 0 {
        least
    } else {
        let before = highest(records.drop_last(), least);
        if seq_of(records.last()) is Some && seq_of(records.last())->0 > before {
            seq_of(records.last())->0
        } else {
            before
        }
    }
}

/// How many records a chunk with the given limit holds when `n` are to be had.
pub open spec fn chunk_len(n: nat, limit: nat) -> int {
    if n <= limit {
        n as int
    } else {
        limit as int
    }
}

/// The next records to send after `cursor`: as many of those ahead as the limit allows.
pub open spec fn chunk_of(entries: Seq<JsonView>, cursor: i64, limit: nat) -> Seq<JsonView> {
    ahead(entries, cursor).take(chunk_len(ahead(entries, cursor).len(), limit))
}

/// The number of a record, if it has one.
pub fn entry_seq(e: &Json) -> (n: Option<i64>)
    ensures
        n == seq_of(e@),
{
    match e.get("seq") {
        Some(v) => v.as_i64(),
        None => None,
    }
}

/// Where the slices of a stream begin: the stored cursor, or just below what was deleted
/// on purpose if that is higher. The lowest record that is left is then ahead of it.
pub fn effective_cursor(stored: i64, base: i64) -> (cursor: i64)
    ensures
        cursor == if stored >= base - 1 {
            stored as int
        } else {
            base - 1
        },
{
    if base == i64::MIN || stored >= base - 1 {
        stored
    } else {
        base - 1
    }
}

proof fn lemma_ahead_grows(entries: Seq<JsonView>, i: int, cursor: i64)
    requires
        0 <= i <= entries.len(),
    ensures
        ahead(entries.take(i), cursor).len() <= ahead(entries, cursor).len(),
        ahead(entries.take(i), cursor).len() <= i,
        ahead(entries.take(i), cursor) == ahead(entries, cursor).take(
            ahead(entries.take(i), cursor).len() as int,
        ),
    decreases entries.len(),
{
    if i == entries.len() {
        assert(entries.take(i) =~= entries);
        lemma_ahead_len(entries, cursor);
        assert(ahead(entries, cursor).take(ahead(entries, cursor).len() as int) =~= ahead(
            entries,
            cursor,
        ));
    } else {
        let shorter = entries.drop_last();
        lemma_ahead_grows(shorter, i, cursor);
        assert(shorter.take(i) =~= entries.take(i));
        let n = ahead(entries.take(i), cursor).len() as int;
        assert(ahead(shorter, cursor).take(n) =~= ahead(entries, cursor).take(n));
    }
}

proof fn lemma_ahead_len(entries: Seq<JsonView>, cursor: i64)
    ensures
        ahead(entries, cursor).len() <= entries.len(),
    decreases entries.len(),
{
    if entries.len() > 0 {
        lemma_ahead_len(entries.drop_last(), cursor);
    }
}

/// How many records are ahead of `cursor`.
pub fn count_after(entries: &[Json], cursor: i64) -> (n: u64)
    ensures
        n == ahead(views(entries@), cursor).len(),
{
    let ghost all = views(entries@);
    let mut n: u64 = 0;
    let mut i: usize = 0;
    proof {
        assert(all.take(0) =~= Seq::<JsonView>::empty());
    }
    while i < entries.len()
        invariant
            all == views(entries@),
            i <= entries@.len(),
            n == ahead(all.take(i as int), cursor).len(),
            n <= i,
        decreases entries@.len() - i,
    {
        proof {
            assert(all.take(i as int + 1).drop_last() =~= all.take(i as int));
            assert(all.take(i as int + 1).last() == entries@[i as int]@);
        }
        if let Some(s) = entry_seq(&entries[i]) {
            if s > cursor {
                n = n + 1;
            }
        }
        i = i + 1;
    }
    proof {
        assert(all.take(i as int) =~= all);
    }
    n
}

/// The next records to send after `after`, at most `limit` of them and as they stand, and
/// the highest number among them (`after` if there are none).
pub fn slice_chunk(entries: &[Json], after: i64, limit: usize) -> (r: (Vec<Json>, i64))
    ensures
        views(r.0@) == chunk_of(views(entries@), after, limit as nat),
        r.1 == highest(chunk_of(views(entries@), after, limit as nat), after),
{
    let ghost all = views(entries@);
    let mut out: Vec<Json> = Vec::new();
    let mut max_seq: i64 = after;
    let mut i: usize = 0;
    proof {
        assert(all.take(0) =~= Seq::<JsonView>::empty());
        assert(views(out@) =~= Seq::<JsonView>::empty());
    }
    if limit == 0 {
        proof {
            assert(chunk_of(all, after, 0) =~= Seq::<JsonView>::empty());
        }
        return (out, max_seq);
    }
    while i < entries.len()
        invariant
            all == views(entries@),
            i <= entries@.len(),
            views(out@) == ahead(all.take(i as int), after),
            out@.len() < limit,
            max_seq == highest(views(out@), after),
        decreases entries@.len() - i,
    {
        proof {
            assert(all.take(i as int + 1).drop_last() =~= all.take(i as int));
            assert(all.take(i as int + 1).last() == entries@[i as int]@);
        }
        if let Some(s) = entry_seq(&entries[i]) {
            if s > after {
                let ghost before = out@;
                let copy = entries[i].clone();
                let ghost said = copy@;
                out.push(copy);
                proof {
                    assert(views(out@) =~= views(before).push(said));
                    assert(views(out@).drop_last() =~= views(before));
                }
                if s > max_seq {
                    max_seq = s;
                }
                if out.len() >= limit {
                    proof {
                        lemma_ahead_grows(all, i as int + 1, after);
                        assert(out@.len() == views(out@).len());
                        assert(views(out@) == chunk_of(all, after, limit as nat));
                    }
                    return (out, max_seq);
                }
            }
        }
        i = i + 1;
    }
    proof {
        assert(all.take(i as int) =~= all);
        assert(out@.len() == views(out@).len());
        assert(ahead(all, after).take(ahead(all, after).len() as int) =~= ahead(all, after));
    }
    (out, max_seq)
}

// ---------------------------------------------------------------------------
// Laws of slicing
// ---------------------------------------------------------------------------

/// Whether the numbers of the records ascend, leaving aside records that have none.
pub open spec fn ascending(entries: Seq<JsonView>) -> bool {
    forall|i: int, j: int|
        0 <= i < j < entries.len() && seq_of(#[trigger] entries[i]) is Some && seq_of(
            #[trigger] entries[j],
        ) is Some ==> seq_of(entries[i])->0 < seq_of(entries[j])->0
}

proof fn lemma_ahead_members(entries: Seq<JsonView>, cursor: i64)
    ensures
        forall|i: int| 0 <= i < ahead(entries, cursor).len() ==> is_ahead(
            #[trigger] ahead(entries, cursor)[i],
            cursor,
        ),
        forall|i: int| 0 <= i < ahead(entries, cursor).len() ==> entries.contains(
            #[trigger] ahead(entries, cursor)[i],
        ),
    decreases entries.len(),
{
    if entries.len() > 0 {
        lemma_ahead_members(entries.drop_last(), cursor);
        let before = ahead(entries.drop_last(), cursor);
        let all = ahead(entries, cursor);
        assert forall|i: int| 0 <= i < all.len() implies entries.contains(#[trigger] all[i]) by {
            if i < before.len() {
                assert(entries.drop_last().contains(before[i]));
                let j = choose|j: int|
                    0 <= j < entries.drop_last().len() && entries.drop_last()[j] == before[i];
                assert(entries[j] == all[i]);
            } else {
                assert(entries[entries.len() - 1] == all[i]);
            }
        }
    }
}

proof fn lemma_ahead_ascends(entries: Seq<JsonView>, cursor: i64)
    requires
        ascending(entries),
    ensures
        forall|i: int, j: int|
            0 <= i < j < ahead(entries, cursor).len() ==> seq_of(
                #[trigger] ahead(entries, cursor)[i],
            )->0 < seq_of(#[trigger] ahead(entries, cursor)[j])->0,
    decreases entries.len(),
{
    if entries.len() > 0 {
        let shorter = entries.drop_last();
        let before = ahead(shorter, cursor);
        let all = ahead(entries, cursor);
        assert(ascending(shorter)) by {
            assert forall|i: int, j: int|
                0 <= i < j < shorter.len() && seq_of(#[trigger] shorter[i]) is Some && seq_of(
                    #[trigger] shorter[j],
                ) is Some implies seq_of(shorter[i])->0 < seq_of(shorter[j])->0 by {
                assert(shorter[i] == entries[i] && shorter[j] == entries[j]);
            }
        }
        lemma_ahead_ascends(shorter, cursor);
        lemma_ahead_members(shorter, cursor);
        assert forall|i: int, j: int| 0 <= i < j < all.len() implies seq_of(#[trigger] all[i])->0
            < seq_of(#[trigger] all[j])->0 by {
            assert(all[i] == before[i]);
            if j < before.len() {
                assert(all[j] == before[j]);
            } else {
                assert(shorter.contains(before[i]));
                let a = choose|a: int| 0 <= a < shorter.len() && shorter[a] == before[i];
                assert(entries[a] == before[i]);
                assert(is_ahead(before[i], cursor));
                assert(entries[entries.len() - 1] == all[j]);
            }
        }
    }
}

proof fn lemma_highest_is_last(records: Seq<JsonView>, least: i64)
    requires
        forall|i: int| 0 <= i < records.len() ==> is_ahead(#[trigger] records[i], least),
        forall|i: int, j: int|
            0 <= i < j < records.len() ==> seq_of(#[trigger] records[i])->0 < seq_of(
                #[trigger] records[j],
            )->0,
    ensures
        records.len() == 0 ==> highest(records, least) == least,
        records.len() > 0 ==> highest(records, least) == seq_of(records.last())->0,
    decreases records.len(),
{
    if records.len() > 0 {
        let shorter = records.drop_last();
        lemma_highest_is_last(shorter, least);
        if shorter.len() > 0 {
            assert(shorter.last() == records[records.len() - 2]);
        }
    }
}

/// A record stays ahead of a higher cursor exactly if it was ahead of the lower one and
/// its number is above the higher.
proof fn lemma_ahead_twice(entries: Seq<JsonView>, low: i64, high: i64)
    requires
        low <= high,
    ensures
        ahead(entries, high) == ahead(ahead(entries, low), high),
    decreases entries.len(),
{
    if entries.len() > 0 {
        lemma_ahead_twice(entries.drop_last(), low, high);
        let before = ahead(entries.drop_last(), low);
        if is_ahead(entries.last(), low) {
            assert(ahead(entries, low).drop_last() =~= before);
        }
    }
}

proof fn lemma_ahead_of_ascending(records: Seq<JsonView>, n: int, cursor: i64)
    requires
        0 <= n <= records.len(),
        forall|i: int| 0 <= i < records.len() ==> seq_of(#[trigger] records[i]) is Some,
        forall|i: int| 0 <= i < n ==> seq_of(#[trigger] records[i])->0 <= cursor,
        forall|i: int| n <= i < records.len() ==> seq_of(#[trigger] records[i])->0 > cursor,
    ensures
        ahead(records, cursor) == records.skip(n),
    decreases records.len(),
{
    if records.len() > 0 {
        let shorter = records.drop_last();
        if n < records.len() {
            lemma_ahead_of_ascending(shorter, n, cursor);
            assert(records.skip(n) =~= shorter.skip(n).push(records.last()));
        } else {
            lemma_ahead_of_ascending(shorter, n - 1, cursor);
            assert(records.skip(n) =~= Seq::<JsonView>::empty());
            assert(shorter.skip(n - 1) =~= Seq::<JsonView>::empty());
        }
    } else {
        assert(records.skip(n) =~= Seq::<JsonView>::empty());
    }
}

/// Chunks follow each other without gap or overlap: where the numbers of a stream
/// ascend, what is ahead of the highest number of one chunk is what was ahead of its
/// cursor, without that chunk. Holes in the numbering and records without a number do
/// not stop this.
pub proof fn law_chunks_follow_each_other(entries: Seq<JsonView>, cursor: i64, limit: nat)
    requires
        ascending(entries),
    ensures
        ({
            let chunk = chunk_of(entries, cursor, limit);
            let next = highest(chunk, cursor);
            &&& next >= cursor
            &&& ahead(entries, next) == ahead(entries, cursor).skip(chunk.len() as int)
            &&& ahead(entries, cursor) == chunk + ahead(entries, next)
        }),
{
    let all = ahead(entries, cursor);
    let chunk = chunk_of(entries, cursor, limit);
    let next = highest(chunk, cursor);
    let n = chunk.len() as int;
    lemma_ahead_members(entries, cursor);
    lemma_ahead_ascends(entries, cursor);
    assert forall|i: int| 0 <= i < n implies is_ahead(#[trigger] chunk[i], cursor) by {
        assert(chunk[i] == all[i]);
    }
    assert forall|i: int, j: int| 0 <= i < j < n implies seq_of(#[trigger] chunk[i])->0 < seq_of(
        #[trigger] chunk[j],
    )->0 by {
        assert(chunk[i] == all[i] && chunk[j] == all[j]);
    }
    lemma_highest_is_last(chunk, cursor);
    if n > 0 {
        assert(chunk.last() == all[n - 1]);
        assert(is_ahead(all[n - 1], cursor));
        assert forall|i: int| 0 <= i < all.len() implies seq_of(#[trigger] all[i]) is Some by {
            assert(is_ahead(all[i], cursor));
        }
        lemma_ahead_of_ascending(all, n, next);
    } else {
        assert(all.skip(0) =~= all);
        assert forall|i: int| 0 <= i < all.len() implies seq_of(#[trigger] all[i]) is Some
            && seq_of(all[i])->0 > cursor by {
            assert(is_ahead(all[i], cursor));
        }
        lemma_ahead_of_ascending(all, 0, next);
    }
    lemma_ahead_twice(entries, cursor, next);
    assert(all =~= chunk + all.skip(n));
}

/// A chunk holds records ahead of its cursor only, at most as many as the limit allows,
/// and at least one while any is left and the limit leaves room for one.
pub proof fn law_chunk_is_bounded_and_ahead(entries: Seq<JsonView>, cursor: i64, limit: nat)
    ensures
        ({
            let chunk = chunk_of(entries, cursor, limit);
            &&& chunk.len() <= limit
            &&& (chunk.len() == 0 <==> ahead(entries, cursor).len() == 0 || limit == 0)
            &&& forall|i: int| 0 <= i < chunk.len() ==> is_ahead(#[trigger] chunk[i], cursor)
                && entries.contains(chunk[i])
        }),
{
    lemma_ahead_members(entries, cursor);
    let all = ahead(entries, cursor);
    let chunk = chunk_of(entries, cursor, limit);
    assert forall|i: int| 0 <= i < chunk.len() implies is_ahead(#[trigger] chunk[i], cursor)
        && entries.contains(chunk[i]) by {
        assert(chunk[i] == all[i]);
    }
}

/// What is sent in `n` chunks, each after the highest number of the one before.
pub open spec fn sent_in_chunks(
    entries: Seq<JsonView>,
    cursor: i64,
    limit: nat,
    n: nat,
) -> Seq<JsonView>
    decreases n,
{
    if n == 0 {
        Seq::empty()
    } else {
        let chunk = chunk_of(entries, cursor, limit);
        chunk + sent_in_chunks(entries, highest(chunk, cursor), limit, (n - 1) as nat)
    }
}

/// A stream is sent whole: where its numbers ascend and a chunk has room for a record,
/// enough chunks in a row hold exactly the records that were ahead of the cursor, in order
/// and each once.
pub proof fn law_everything_is_sent_once(
    entries: Seq<JsonView>,
    cursor: i64,
    limit: nat,
    n: nat,
)
    requires
        ascending(entries),
        limit > 0,
        n >= ahead(entries, cursor).len(),
    ensures
        sent_in_chunks(entries, cursor, limit, n) == ahead(entries, cursor),
    decreases n,
{
    if n > 0 {
        let chunk = chunk_of(entries, cursor, limit);
        let next = highest(chunk, cursor);
        law_chunks_follow_each_other(entries, cursor, limit);
        law_chunk_is_bounded_and_ahead(entries, cursor, limit);
        law_everything_is_sent_once(entries, next, limit, (n - 1) as nat);
    } else {
        assert(ahead(entries, cursor) =~= Seq::empty());
    }
}

/// The lowest record that was not deleted on purpose is ahead of the cursor unless it was
/// sent before; one that was deleted never is.
pub proof fn law_base_record_is_sent(e: JsonView, stored: i64, base: i64, cursor: i64)
    requires
        seq_of(e) is Some,
        cursor == if stored >= base - 1 {
            stored as int
        } else {
            base - 1
        },
    ensures
        seq_of(e)->0 == base && stored < base ==> is_ahead(e, cursor),
        seq_of(e)->0 < base ==> !is_ahead(e, cursor),
{
}

// ---------------------------------------------------------------------------
// Acknowledgements
// ---------------------------------------------------------------------------

/// What the server says of one stream of an upload.
#[derive(Debug)]
pub struct StreamAck {
    pub accepted: u64,
    pub inserted: u64,
    pub cursor: Option<String>,
    pub unknown: bool,
    pub duplicate: bool,
}

/// What an acknowledgement of a stream says.
pub struct AckView {
    pub accepted: u64,
    pub inserted: u64,
    pub cursor: Option<Seq<char>>,
    pub unknown: bool,
    pub duplicate: bool,
}

impl View for StreamAck {
    type V = AckView;

    open spec fn view(&self) -> AckView {
        AckView {
            accepted: self.accepted,
            inserted: self.inserted,
            cursor: opt_text(self.cursor),
            unknown: self.unknown,
            duplicate: self.duplicate,
        }
    }
}

impl Default for StreamAck {
    fn default() -> (a: Self)
        ensures
            a@ == (AckView {
                accepted: 0,
                inserted: 0,
                cursor: None,
                unknown: false,
                duplicate: false,
            }),
    {
        StreamAck { accepted: 0, inserted: 0, cursor: None, unknown: false, duplicate: false }
    }
}

/// The view of an optional acknowledgement.
pub open spec fn opt_ack(a: Option<&StreamAck>) -> Option<AckView> {
    match a {
        Some(x) => Some(x@),
        None => None,
    }
}

/// A note on what became of a stream.
#[derive(Debug, Clone, Copy, PartialEq, Eq, Structural)]
pub enum AckWarn {
    /// The upload was acknowledged and set aside, but not taken in.
    Drained,
    /// The acknowledgement leaves out a stream that was sent.
    MissingStream,
}

/// What an acknowledgement means for one stream: the cursor to move to (none: it stays),
/// whether the server does not know the stream, and what to tell the user.
#[derive(Debug, PartialEq, Eq)]
pub struct AckDecision {
    pub cursor: Option<i64>,
    pub unknown: bool,
    pub warn: Option<AckWarn>,
}

/// The higher of two cursors.
pub open spec fn higher(a: i64, b: i64) -> i64 {
    if a >= b {
        a
    } else {
        b
    }
}

/// What an acknowledgement means for a stream that stands at `current`, of which records
/// up to `computed` were sent. An upload that was set aside moves the cursor, with a
/// note. A stream that the server does not know stays where it is. One that it does know
/// moves to the server's cursor where that is higher than the current one, else past what
/// was sent. One that is left out stays, with a note.
pub open spec fn decision(
    drained: bool,
    ack: Option<AckView>,
    computed: i64,
    current: i64,
) -> AckDecision {
    if drained {
        AckDecision {
            cursor: Some(higher(computed, current)),
            unknown: false,
            warn: Some(AckWarn::Drained),
        }
    } else {
        match ack {
            None => AckDecision {
                cursor: None,
                unknown: false,
                warn: Some(AckWarn::MissingStream),
            },
            Some(a) => if a.unknown {
                AckDecision { cursor: None, unknown: true, warn: None }
            } else {
                let acked = match a.cursor {
                    Some(c) => i64_of(c),
                    None => None,
                };
                AckDecision {
                    cursor: Some(
                        if acked is Some && acked->0 > current {
                            acked->0
                        } else {
                            higher(computed, current)
                        },
                    ),
                    unknown: false,
                    warn: None,
                }
            },
        }
    }
}

/// What an acknowledgement means for a stream.
pub fn decide_ack(
    drained: bool,
    ack: Option<&StreamAck>,
    computed_cursor: i64,
    current_cursor: i64,
) -> (d: AckDecision)
    ensures
        d == decision(drained, opt_ack(ack), computed_cursor, current_cursor),
{
    let past: i64 = if computed_cursor >= current_cursor {
        computed_cursor
    } else {
        current_cursor
    };
    if drained {
        return AckDecision { cursor: Some(past), unknown: false, warn: Some(AckWarn::Drained) };
    }
    match ack {
        None => AckDecision {
            cursor: None,
            unknown: false,
            warn: Some(AckWarn::MissingStream),
        },
        Some(a) => {
            if a.unknown {
                return AckDecision { cursor: None, unknown: true, warn: None };
            }
            let acked: Option<i64> = match &a.cursor {
                Some(c) => parse_i64(c.as_str()),
                None => None,
            };
            let next: i64 = match acked {
                Some(c) => if c > current_cursor {
                    c
                } else {
                    past
                },
                None => past,
            };
            AckDecision { cursor: Some(next), unknown: false, warn: None }
        },
    }
}

/// A cursor never goes back, and moves only where the upload was set aside or the server
/// knows the stream: one that an acknowledgement leaves out is never passed over in
/// silence.
pub proof fn law_cursor_never_goes_back(
    drained: bool,
    ack: Option<AckView>,
    computed: i64,
    current: i64,
)
    ensures
        ({
            let d = decision(drained, ack, computed, current);
            &&& d.cursor matches Some(c) ==> c >= current
            &&& (d.cursor is Some <==> drained || ack is Some && !ack->0.unknown)
            &&& (d.warn == Some(AckWarn::MissingStream) <==> !drained && ack is None)
            &&& (d.warn == Some(AckWarn::Drained) <==> drained)
            &&& (d.unknown <==> !drained && ack is Some && ack->0.unknown)
        }),
{
}

/// A known stream always moves on: to the server's own cursor where that is higher than
/// the current one, else past what was sent.
pub proof fn law_known_stream_moves_on(ack: AckView, computed: i64, current: i64)
    requires
        !ack.unknown,
        computed > current,
    ensures
        ({
            let c = decision(false, Some(ack), computed, current).cursor->0;
            let acked = match ack.cursor {
                Some(t) => i64_of(t),
                None => None,
            };
            &&& c > current
            &&& c == if acked is Some && acked->0 > current {
                acked->0
            } else {
                computed
            }
        }),
{
}

/// A cursor that was stored as text reads back as it was.
pub proof fn law_cursor_text_reads_back(cursor: i64)
    ensures
        i64_of(signed_dec_of(cursor as int)) == Some(cursor),
{
    crate::number::law_numeral_round_trip(cursor);
}

// ---------------------------------------------------------------------------
// The resync stamp
// ---------------------------------------------------------------------------

/// The newer of the stamp so far and one that came in, which counts only if it is not
/// blank.
pub open spec fn merged(acc: Option<Seq<char>>, incoming: Option<Seq<char>>) -> Option<Seq<char>> {
    if incoming is None || trim_of(incoming->0).len() == 0 {
        acc
    } else if acc is None || text_less(acc->0, trim_of(incoming->0)) {
        Some(trim_of(incoming->0))
    } else {
        acc
    }
}

/// Keeps the newer of the stamp so far and the one that came in.
pub fn merge_stamp(acc: &mut Option<String>, incoming: Option<&str>)
    ensures
        opt_text(*final(acc)) == merged(opt_text(*old(acc)), opt_str(incoming)),
{
    let s: String = match incoming {
        Some(s) => trim(s),
        None => return,
    };
    if s.as_str().is_empty() {
        return;
    }
    let replace: bool = match acc {
        Some(cur) => is_less(cur.as_str(), s.as_str()),
        None => true,
    };
    if replace {
        *acc = Some(s);
    }
}

/// Merging keeps the newest stamp: the result is older than neither, it is one of the
/// two, and merging the same stamp again changes nothing.
pub proof fn law_merge_keeps_the_newest(acc: Option<Seq<char>>, incoming: Option<Seq<char>>)
    ensures
        ({
            let m = merged(acc, incoming);
            &&& m == acc || m == Some(trim_of(incoming->0))
            &&& acc is Some ==> m is Some && !text_less(m->0, acc->0)
            &&& incoming is Some && trim_of(incoming->0).len() > 0 ==> m is Some && !text_less(
                m->0,
                trim_of(incoming->0),
            )
            &&& merged(m, incoming) == m
        }),
{
    if acc is Some {
        law_text_order_is_strict_and_total(acc->0, acc->0, acc->0);
    }
    if incoming is Some {
        let t = trim_of(incoming->0);
        law_text_order_is_strict_and_total(t, t, t);
        if acc is Some {
            law_text_order_is_strict_and_total(acc->0, t, t);
        }
    }
}

// ---------------------------------------------------------------------------
// Accounts
// ---------------------------------------------------------------------------

/// The texts of `all` that stand in `chosen`, in order.
pub open spec fn kept(all: Seq<Seq<char>>, chosen: Seq<Seq<char>>) -> Seq<Seq<char>>
    decreases all.len(),
{
    if all.len() == 0 {
        Seq::empty()
    } else {
        let before = kept(all.drop_last(), chosen);
        if chosen.contains(all.last()) {
            before.push(all.last())
        } else {
            before
        }
    }
}

/// The accounts that sync: those of the discovered that the user selected. An empty
/// selection means none.
pub fn effective_accounts(selected: &[String], discovered: &[String]) -> (out: Vec<String>)
    ensures
        texts(out@) == kept(texts(discovered@), texts(selected@)),
{
    let ghost all = texts(discovered@);
    let mut out: Vec<String> = Vec::new();
    let mut i: usize = 0;
    proof {
        assert(all.take(0) =~= Seq::<Seq<char>>::empty());
        assert(texts(out@) =~= Seq::<Seq<char>>::empty());
    }
    while i < discovered.len()
        invariant
            all == texts(discovered@),
            i <= discovered@.len(),
            texts(out@) == kept(all.take(i as int), texts(selected@)),
        decreases discovered@.len() - i,
    {
        proof {
            assert(all.take(i as int + 1).drop_last() =~= all.take(i as int));
            assert(all.take(i as int + 1).last() == discovered@[i as int]@);
        }
        if contains(selected, discovered[i].as_str()) {
            let ghost before = texts(out@);
            out.push(discovered[i].clone());
            proof {
                assert(texts(out@) =~= before.push(discovered@[i as int]@));
            }
        }
        i = i + 1;
    }
    proof {
        assert(all.take(i as int) =~= all);
    }
    out
}

/// The accounts that sync are exactly those that are both discovered and selected: none
/// that the user did not select, and none with an empty selection.
pub proof fn law_effective_accounts_are_the_intersection(
    discovered: Seq<Seq<char>>,
    selected: Seq<Seq<char>>,
)
    ensures
        forall|a: Seq<char>| #[trigger]
            kept(discovered, selected).contains(a) <==> discovered.contains(a) && selected.contains(
                a,
            ),
        selected.len() == 0 ==> kept(discovered, selected).len() == 0,
    decreases discovered.len(),
{
    let all = kept(discovered, selected);
    if discovered.len() > 0 {
        let shorter = discovered.drop_last();
        law_effective_accounts_are_the_intersection(shorter, selected);
        let before = kept(shorter, selected);
        assert forall|a: Seq<char>| #[trigger] all.contains(a) <==> discovered.contains(a)
            && selected.contains(a) by {
            if all.contains(a) {
                let i = choose|i: int| 0 <= i < all.len() && all[i] == a;
                if i < before.len() {
                    assert(before[i] == a);
                    assert(before.contains(a));
                    let k = choose|k: int| 0 <= k < shorter.len() && shorter[k] == a;
                    assert(discovered[k] == a);
                } else {
                    assert(discovered[discovered.len() - 1] == a);
                }
            }
            if discovered.contains(a) && selected.contains(a) {
                let k = choose|k: int| 0 <= k < discovered.len() && discovered[k] == a;
                if k < shorter.len() {
                    assert(shorter[k] == a);
                    assert(before.contains(a));
                    let i = choose|i: int| 0 <= i < before.len() && before[i] == a;
                    assert(all[i] == a);
                } else {
                    assert(all[all.len() - 1] == a);
                }
            }
        }
    }
}

/// The folder of the accounts that belongs to an addon folder.
pub open spec fn account_dir_of(style: PathStyle, addons_path: Seq<char>) -> Option<Seq<char>> {
    match parent_of(style, addons_path) {
        Some(interface) => match parent_of(style, interface) {
            Some(root) => Some(join_of(style, join_of(style, root, "WTF"@), "Account"@)),
            None => None,
        },
        None => None,
    }
}

/// The folder of the accounts that belongs to an addon folder: `WTF/Account` beside its
/// `Interface`.
pub fn wtf_account_dir(style: PathStyle, addons_path: &str) -> (dir: Option<String>)
    ensures
        match dir {
            Some(d) => account_dir_of(style, addons_path@) == Some(d@),
            None => account_dir_of(style, addons_path@) is None,
        },
{
    let interface: String = match parent(style, addons_path) {
        Some(p) => p,
        None => return None,
    };
    let root: String = match parent(style, interface.as_str()) {
        Some(p) => p,
        None => return None,
    };
    let wtf = join_path(style, root.as_str(), "WTF");
    Some(join_path(style, wtf.as_str(), "Account"))
}

/// An entry of the folder of the accounts.
#[derive(Debug)]
pub struct FolderEntry {
    pub name: String,
    pub is_dir: bool,
    /// Whether it holds a `SavedVariables` folder.
    pub has_saved_variables: bool,
}

/// Whether no text comes before the one that stands ahead of it.
pub open spec fn sorted(v: Seq<Seq<char>>) -> bool {
    forall|i: int, j: int| 0 <= i < j < v.len() ==> !text_less(#[trigger] v[j], #[trigger] v[i])
}

/// The names of the account folders among the first `n` entries.
pub open spec fn account_names(entries: Seq<FolderEntry>, n: int) -> Seq<Seq<char>>
    decreases n,
{
    if n <= 0 {
        Seq::empty()
    } else {
        let before = account_names(entries, n - 1);
        let e = entries[n - 1];
        if e.is_dir && e.has_saved_variables {
            before.push(e.name@)
        } else {
            before
        }
    }
}

/// Puts `s` in its place among the sorted `v`.
fn insert_sorted(v: &mut Vec<String>, s: String)
    requires
        sorted(texts(old(v)@)),
    ensures
        sorted(texts(final(v)@)),
        texts(final(v)@).to_multiset() == texts(old(v)@).to_multiset().insert(s@),
{
    let ghost before = texts(v@);
    let ghost key = s@;
    let mut i: usize = v.len();
    while i > 0 && is_less(s.as_str(), v[i - 1].as_str())
        invariant
            i <= v@.len(),
            before == texts(v@),
            key == s@,
            forall|j: int| i <= j < v@.len() ==> text_less(key, #[trigger] before[j]),
        decreases i,
    {
        proof {
            assert(before[i - 1] == v@[i - 1]@);
        }
        i = i - 1;
    }
    v.insert(i, s);
    proof {
        let after = texts(v@);
        assert(after =~= before.insert(i as int, key));
        assert forall|a: int, b: int| 0 <= a < b < after.len() implies !text_less(
            #[trigger] after[b],
            #[trigger] after[a],
        ) by {
            law_text_order_is_strict_and_total(key, key, key);
            if a < i && b < i {
                assert(after[a] == before[a] && after[b] == before[b]);
            } else if a > i {
                assert(after[a] == before[a - 1] && after[b] == before[b - 1]);
            } else if a == i {
                assert(after[b] == before[b - 1]);
                law_text_order_is_strict_and_total(key, before[b - 1], key);
            } else if b > i {
                assert(after[a] == before[a] && after[b] == before[b - 1]);
            } else {
                assert(after[a] == before[a]);
                assert(!text_less(key, before[i - 1]));
                law_text_order_is_strict_and_total(key, before[a], before[i - 1]);
                if a < i - 1 {
                    assert(!text_less(before[i - 1], before[a]));
                    law_text_order_is_strict_and_total(before[a], before[i - 1], key);
                }
            }
        }
        vstd::seq_lib::to_multiset_insert(before, i as int, key);
    }
}

/// The account folders among `entries`: those that hold saved variables, sorted.
pub fn account_folders(entries: &Vec<FolderEntry>) -> (out: Vec<String>)
    ensures
        sorted(texts(out@)),
        texts(out@).to_multiset() == account_names(
            entries@,
            entries@.len() as int,
        ).to_multiset(),
{
    let mut out: Vec<String> = Vec::new();
    let mut i: usize = 0;
    proof {
        assert(texts(out@) =~= Seq::<Seq<char>>::empty());
    }
    while i < entries.len()
        invariant
            i <= entries@.len(),
            sorted(texts(out@)),
            texts(out@).to_multiset() == account_names(entries@, i as int).to_multiset(),
        decreases entries@.len() - i,
    {
        if entries[i].is_dir && entries[i].has_saved_variables {
            insert_sorted(&mut out, entries[i].name.clone());
            proof {
                vstd::seq_lib::to_multiset_build(
                    account_names(entries@, i as int),
                    entries@[i as int].name@,
                );
            }
        }
        i = i + 1;
    }
    out
}

/// The accounts that belong to an addon folder, sorted: the account folders among
/// `entries`, which are those of its `WTF/Account`. There are none where the addon folder
/// stands too high to have one.
pub fn discover_accounts(
    style: PathStyle,
    addons_path: &str,
    entries: &Vec<FolderEntry>,
) -> (out: Vec<String>)
    ensures
        sorted(texts(out@)),
        account_dir_of(style, addons_path@) is None ==> out@.len() == 0,
        account_dir_of(style, addons_path@) is Some ==> texts(out@).to_multiset()
            == account_names(entries@, entries@.len() as int).to_multiset(),
{
    match wtf_account_dir(style, addons_path) {
        Some(_) => account_folders(entries),
        None => Vec::new(),
    }
}

// ---------------------------------------------------------------------------
// Flavors and the running game
// ---------------------------------------------------------------------------

/// Whether a session's recorded flavor (a project id) agrees with the flavor folder that
/// its file was found in. Retail is project 1, and every other project is a classic one;
/// nothing is said of other folders, nor without a recorded flavor.
pub open spec fn flavors_agree(token: Seq<char>, recorded: Option<i64>) -> Option<bool> {
    match recorded {
        None => None,
        Some(f) => if token == "retail"@ || token == "mainline"@ {
            Some(f == 1)
        } else if begins_with(token, "classic"@) || token == "era"@ || token == "tbc"@ || token
            == "wrath"@ {
            Some(f != 1)
        } else {
            None
        },
    }
}

/// Whether a session's recorded flavor agrees with the flavor folder of its file.
pub fn flavor_token_matches(token: &str, rec_flavor: Option<i64>) -> (r: Option<bool>)
    ensures
        r == flavors_agree(token@, rec_flavor),
{
    let f: i64 = match rec_flavor {
        Some(f) => f,
        None => return None,
    };
    if same_text(token, "retail") || same_text(token, "mainline") {
        Some(f == 1)
    } else if starts_with(token, "classic") || same_text(token, "era") || same_text(token, "tbc")
        || same_text(token, "wrath") {
        Some(f != 1)
    } else {
        None
    }
}

/// Whether the list of processes `listing` shows the game.
pub open spec fn game_listed(windows: bool, listing: Seq<char>) -> bool {
    let text = lowercase_of(listing);
    if windows {
        occurs_in("wow.exe"@, text) || occurs_in("wowclassic.exe"@, text)
    } else {
        occurs_in("world of warcraft"@, text) || occurs_in("wow.exe"@, text)
    }
}

/// Whether the game runs, by the list of processes `listing`; not if there is no list.
pub fn wow_running(windows: bool, listing: Option<&str>) -> (yes: bool)
    ensures
        yes == (listing is Some && game_listed(windows, listing->0@)),
{
    match listing {
        Some(l) => {
            let text = to_lowercase(l);
            if windows {
                contains_text(text.as_str(), "wow.exe") || contains_text(
                    text.as_str(),
                    "wowclassic.exe",
                )
            } else {
                contains_text(text.as_str(), "world of warcraft") || contains_text(
                    text.as_str(),
                    "wow.exe",
                )
            }
        },
        None => false,
    }
}

// ---------------------------------------------------------------------------
// What goes over the wire, and what the user sees
// ---------------------------------------------------------------------------

/// An installed addon and its version.
#[derive(Debug, PartialEq)]
pub struct AddonRef {
    pub name: String,
    pub version: String,
}

/// The names and versions of a row of addons.
pub open spec fn addon_refs(v: Seq<AddonRef>) -> Seq<(Seq<char>, Seq<char>)> {
    Seq::new(v.len(), |i: int| (v[i].name@, v[i].version@))
}

/// A copy of a row of addons.
pub fn clone_refs(v: &Vec<AddonRef>) -> (w: Vec<AddonRef>)
    ensures
        addon_refs(w@) == addon_refs(v@),
{
    let mut w: Vec<AddonRef> = Vec::new();
    let mut i: usize = 0;
    while i < v.len()
        invariant
            i <= v@.len(),
            w@.len() == i,
            forall|j: int|
                0 <= j < i ==> (#[trigger] w@[j]).name@ == v@[j].name@ && w@[j].version@
                    == v@[j].version@,
        decreases v@.len() - i,
    {
        w.push(AddonRef { name: v[i].name.clone(), version: v[i].version.clone() });
        i = i + 1;
    }
    proof {
        assert(addon_refs(w@) =~= addon_refs(v@));
    }
    w
}

/// The exported addons, up to the one at `n`, that are installed.
pub open spec fn manifest_of(versions: Seq<Option<String>>, n: int) -> Seq<(Seq<char>, Seq<char>)>
    decreases n,
{
    if n <= 0 {
        Seq::empty()
    } else {
        let before = manifest_of(versions, n - 1);
        match versions[n - 1] {
            Some(v) => before.push((export_table()[n - 1].1, v@)),
            None => before,
        }
    }
}

/// The installed addons of an install. `versions` holds the installed version of each
/// exported addon, if it is installed.
pub fn build_manifest(versions: &Vec<Option<String>>) -> (out: Vec<AddonRef>)
    requires
        versions@.len() == 2,
    ensures
        addon_refs(out@) == manifest_of(versions@, 2),
{
    let table = exports();
    let mut out: Vec<AddonRef> = Vec::new();
    let mut i: usize = 0;
    proof {
        assert(addon_refs(out@) =~= Seq::<(Seq<char>, Seq<char>)>::empty());
    }
    while i < 2
        invariant
            i <= 2,
            versions@.len() == 2,
            table@.len() == 2,
            forall|j: int| 0 <= j < 2 ==> export_row(#[trigger] table@[j]) == export_table()[j],
            addon_refs(out@) == manifest_of(versions@, i as int),
        decreases 2 - i,
    {
        if let Some(v) = &versions[i] {
            let ghost before = addon_refs(out@);
            out.push(AddonRef { name: table[i].addon.to_string(), version: v.clone() });
            proof {
                assert(export_row(table@[i as int]) == export_table()[i as int]);
                assert(addon_refs(out@) =~= before.push((export_table()[i as int].1, v@)));
            }
        }
        i = i + 1;
    }
    out
}

/// A note of the server on the quality of the data. It does not stop anything.
#[derive(Debug, PartialEq)]
pub struct IngestWarning {
    pub code: String,
    pub addon: Option<String>,
    pub message: String,
    pub sids: Option<Vec<String>>,
    pub count: Option<u64>,
}

/// What a note says.
pub struct WarningView {
    pub code: Seq<char>,
    pub addon: Option<Seq<char>>,
    pub message: Seq<char>,
    pub sids: Option<Seq<Seq<char>>>,
    pub count: Option<u64>,
}

impl View for IngestWarning {
    type V = WarningView;

    open spec fn view(&self) -> WarningView {
        WarningView {
            code: self.code@,
            addon: opt_text(self.addon),
            message: self.message@,
            sids: match self.sids {
                Some(v) => Some(texts(v@)),
                None => None,
            },
            count: self.count,
        }
    }
}

/// What a row of notes says.
pub open spec fn warnings_said(v: Seq<IngestWarning>) -> Seq<WarningView> {
    Seq::new(v.len(), |i: int| v[i]@)
}

impl Clone for IngestWarning {
    fn clone(&self) -> (copy: Self)
        ensures
            copy@ == self@,
    {
        IngestWarning {
            code: self.code.clone(),
            addon: clone_opt(&self.addon),
            message: self.message.clone(),
            sids: match &self.sids {
                Some(v) => Some(clone_texts(v)),
                None => None,
            },
            count: self.count,
        }
    }
}

/// What the server says of an upload.
#[derive(Debug)]
pub struct IngestAck {
    pub streams: TextMap<StreamAck>,
    /// Whether the upload was set aside and not taken in.
    pub drained: bool,
    /// When the server last asked for all data to be sent again.
    pub resync_requested_at: Option<String>,
    pub warnings: Vec<IngestWarning>,
}

impl IngestAck {
    /// What the acknowledgement says of the stream `name`.
    pub open spec fn of_stream(self, name: Seq<char>) -> Option<AckView> {
        if self.streams@.contains_key(name) {
            Some(self.streams@[name]@)
        } else {
            None
        }
    }
}

/// What became of one stream in a sync.
#[derive(Debug, PartialEq)]
pub struct SyncResult {
    pub install_id: String,
    pub install_label: String,
    pub account: String,
    /// The addon's slug.
    pub addon: String,
    pub stream: String,
    /// Records that were sent.
    pub found: u64,
    /// Records that the server accepted.
    pub accepted: u64,
    /// Records that were new to the server.
    pub inserted: u64,
    pub cursor: String,
    /// Whether the server does not know the stream.
    pub unknown: bool,
    /// Why nothing was read or sent.
    pub skipped: Option<String>,
    pub error: Option<String>,
    /// A note on the quality of the data, which was accepted all the same.
    pub warning: Option<String>,
}

/// What a sync result says.
pub struct SyncRow {
    pub install_id: Seq<char>,
    pub install_label: Seq<char>,
    pub account: Seq<char>,
    pub addon: Seq<char>,
    pub stream: Seq<char>,
    pub found: u64,
    pub accepted: u64,
    pub inserted: u64,
    pub cursor: Seq<char>,
    pub unknown: bool,
    pub skipped: Option<Seq<char>>,
    pub error: Option<Seq<char>>,
    pub warning: Option<Seq<char>>,
}

impl View for SyncResult {
    type V = SyncRow;

    open spec fn view(&self) -> SyncRow {
        SyncRow {
            install_id: self.install_id@,
            install_label: self.install_label@,
            account: self.account@,
            addon: self.addon@,
            stream: self.stream@,
            found: self.found,
            accepted: self.accepted,
            inserted: self.inserted,
            cursor: self.cursor@,
            unknown: self.unknown,
            skipped: opt_text(self.skipped),
            error: opt_text(self.error),
            warning: opt_text(self.warning),
        }
    }
}

/// What a row of sync results says.
pub open spec fn rows_said(v: Seq<SyncResult>) -> Seq<SyncRow> {
    Seq::new(v.len(), |i: int| v[i]@)
}

// ---------------------------------------------------------------------------
// What the rules are for
// ---------------------------------------------------------------------------

/// Every stream is added to record by record, but for those that are sent whole.
pub proof fn law_four_streams_are_sent_whole(stream: Seq<char>)
    ensures
        !append_only(stream) <==> stream == "sessions"@ || stream == "learned_items"@ || stream
            == "learned_spells"@ || stream == "places"@,
        SESSIONS@ != LEARNED_ITEMS@,
{
    reveal_strlit("sessions");
    reveal_strlit("learned_items");
    assert(SESSIONS@.len() != LEARNED_ITEMS@.len());
}

/// The number of a record is the integer under `seq`; a record without one has none.
pub proof fn law_record_has_the_number_it_states(m: Map<Seq<char>, JsonView>, n: int)
    ensures
        i64::MIN <= n <= i64::MAX ==> seq_of(
            JsonView::Obj(m.insert("seq"@, JsonView::Int(n))),
        ) == Some(n as i64),
        seq_of(JsonView::Obj(m.remove("seq"@))) is None,
        forall|v: JsonView|
            !(v is Int) ==> (#[trigger] seq_of(JsonView::Obj(m.insert("seq"@, v)))) is None,
{
}

/// What is sent of a stream is every record with a number above the cursor, in order, and
/// no other; each chunk begins where the one before it ended and is as long as it may be.
pub proof fn law_chunk_is_what_comes_next(entries: Seq<JsonView>, cursor: i64, limit: nat)
    ensures
        ahead(entries, cursor) == entries.filter(
            |e: JsonView| seq_of(e) is Some && seq_of(e)->0 > cursor,
        ),
        chunk_of(entries, cursor, limit).is_prefix_of(ahead(entries, cursor)),
        chunk_of(entries, cursor, limit).len() == limit || chunk_of(entries, cursor, limit) == ahead(
            entries,
            cursor,
        ),
        chunk_of(entries, cursor, limit).len() <= limit,
{
    lemma_ahead_is_filtered(entries, cursor);
    let all = ahead(entries, cursor);
    let chunk = chunk_of(entries, cursor, limit);
    assert(chunk =~= all.subrange(0, chunk.len() as int));
    if all.len() <= limit {
        assert(chunk =~= all);
    }
}

proof fn lemma_ahead_is_filtered(entries: Seq<JsonView>, cursor: i64)
    ensures
        ahead(entries, cursor) == entries.filter(
            |e: JsonView| seq_of(e) is Some && seq_of(e)->0 > cursor,
        ),
    decreases entries.len(),
{
    reveal(Seq::filter);
    if entries.len() > 0 {
        lemma_ahead_is_filtered(entries.drop_last(), cursor);
    } else {
        assert(ahead(entries, cursor) =~= entries);
    }
}

/// The highest number among records is that of one of them, and none of them has a higher
/// one; where none has a number above the least, it is the least.
pub proof fn law_highest_is_the_greatest(records: Seq<JsonView>, least: i64)
    ensures
        highest(records, least) >= least,
        forall|i: int|
            0 <= i < records.len() && seq_of(#[trigger] records[i]) is Some ==> seq_of(records[i])->0
                <= highest(records, least),
        highest(records, least) > least ==> exists|i: int|
            0 <= i < records.len() && seq_of(#[trigger] records[i]) == Some(highest(records, least)),
    decreases records.len(),
{
    if records.len() > 0 {
        let shorter = records.drop_last();
        law_highest_is_the_greatest(shorter, least);
        let h = highest(records, least);
        assert forall|i: int| 0 <= i < records.len() && seq_of(#[trigger] records[i]) is Some implies seq_of(
            records[i],
        )->0 <= h by {
            if i < shorter.len() {
                assert(shorter[i] == records[i]);
            }
        }
        if h > least {
            if seq_of(records.last()) == Some(h) {
                assert(seq_of(records[records.len() - 1]) == Some(h));
            } else {
                let i = choose|i: int|
                    0 <= i < shorter.len() && seq_of(#[trigger] shorter[i]) == Some(
                        highest(shorter, least),
                    );
                assert(records[i] == shorter[i]);
            }
        }
    }
}

/// An answer moves a cursor to where the server says it is, if that is ahead, and else to
/// the last record that was sent; a chunk that was set aside moves it there too. Where the
/// stream is not known or is left out, the cursor stays.
pub proof fn law_answer_moves_the_cursor(
    drained: bool,
    ack: Option<AckView>,
    computed: i64,
    current: i64,
    said: i64,
)
    requires
        computed >= current,
    ensures
        drained ==> decision(drained, ack, computed, current).cursor == Some(computed),
        !drained && ack is Some && !ack->0.unknown && ack->0.cursor is Some && i64_of(
            ack->0.cursor->0,
        ) == Some(said) ==> decision(drained, ack, computed, current).cursor == Some(
            if said > current {
                said
            } else {
                computed
            },
        ),
        !drained && ack is Some && !ack->0.unknown && (ack->0.cursor is None || i64_of(
            ack->0.cursor->0,
        ) is None) ==> decision(drained, ack, computed, current).cursor == Some(computed),
        !drained && (ack is None || ack->0.unknown) ==> decision(
            drained,
            ack,
            computed,
            current,
        ).cursor is None,
{
}

/// A resync request that is blank or absent changes nothing; any other is kept if none was,
/// or if it comes behind the one that was.
pub proof fn law_blank_stamp_changes_nothing(acc: Option<Seq<char>>, incoming: Seq<char>)
    ensures
        merged(acc, None) == acc,
        trim_of(incoming).len() == 0 ==> merged(acc, Some(incoming)) == acc,
        trim_of(incoming).len() > 0 ==> merged(None, Some(incoming)) == Some(trim_of(incoming)),
        acc is Some && trim_of(incoming).len() > 0 ==> merged(acc, Some(incoming)) == if text_less(
            acc->0,
            trim_of(incoming),
        ) {
            Some(trim_of(incoming))
        } else {
            acc
        },
{
}

/// The accounts that take part come in the order in which they were found, each as often
/// as it was found, and all that were chosen.
pub proof fn law_chosen_accounts_keep_their_order(all: Seq<Seq<char>>, chosen: Seq<Seq<char>>)
    ensures
        kept(all, chosen) == all.filter(|a: Seq<char>| chosen.contains(a)),
    decreases all.len(),
{
    reveal(Seq::filter);
    if all.len() > 0 {
        law_chosen_accounts_keep_their_order(all.drop_last(), chosen);
    } else {
        assert(kept(all, chosen) =~= all);
    }
}

/// An account is a folder that has saved variables in it; every such folder is one, and
/// nothing else is.
pub proof fn law_accounts_are_folders_with_saved_variables(entries: Seq<FolderEntry>, n: int)
    requires
        0 <= n <= entries.len(),
    ensures
        account_names(entries, n) == entries.take(n).filter(
            |e: FolderEntry| e.is_dir && e.has_saved_variables,
        ).map_values(|e: FolderEntry| e.name@),
    decreases n,
{
    let keep = |e: FolderEntry| e.is_dir && e.has_saved_variables;
    let get = |e: FolderEntry| e.name@;
    if n > 0 {
        law_accounts_are_folders_with_saved_variables(entries, n - 1);
        crate::seqs::lemma_filter_take(entries, n, keep);
        let before = entries.take(n - 1).filter(keep);
        assert(before.push(entries[n - 1]).map_values(get) =~= before.map_values(get).push(
            get(entries[n - 1]),
        ));
    } else {
        reveal(Seq::filter);
        assert(entries.take(0).filter(keep).map_values(get) =~= Seq::empty());
    }
}

/// The accounts of an install stand beside its interface folder: below the folder that the
/// addons are two levels down in, under `WTF` and `Account`.
pub proof fn law_accounts_stand_beside_the_addons(
    style: PathStyle,
    root: Seq<char>,
    interface: Seq<char>,
    addons: Seq<char>,
)
    requires
        is_part(style, interface),
        is_part(style, addons),
        !is_bare_share(style, root),
        root.len() > 0 || style == PathStyle::Unix,
    ensures
        ({
            let dir = account_dir_of(
                style,
                join_of(style, join_of(style, root, interface), addons),
            );
            let plain = path_text(style, path_of(style, root));
            dir == Some(join_of(style, join_of(style, plain, "WTF"@), "Account"@))
        }),
{
    let inner = join_of(style, root, interface);
    let plain = path_text(style, path_of(style, inner));
    law_joined_part_comes_last(style, root, interface);
    law_parent_undoes_join(style, inner, addons);
    law_plain_path_is_the_same(style, inner);
    let v = path_of(style, plain);
    assert(v.parts.drop_last() =~= path_of(style, root).parts);
}

/// A folder of the retail game agrees with sessions of flavor 1 and no others, and a folder
/// of a classic game with all others; of any other folder, or where a session states no
/// flavor, nothing is said.
pub proof fn law_flavor_must_fit_the_folder(token: Seq<char>, flavor: i64)
    ensures
        flavors_agree(token, None) is None,
        token == "retail"@ || token == "mainline"@ ==> flavors_agree(token, Some(flavor)) == Some(
            flavor == 1,
        ),
        token != "retail"@ && token != "mainline"@ && (begins_with(token, "classic"@) || token
            == "era"@ || token == "tbc"@ || token == "wrath"@) ==> flavors_agree(token, Some(flavor))
            == Some(flavor != 1),
        token != "retail"@ && token != "mainline"@ && !begins_with(token, "classic"@) && token
            != "era"@ && token != "tbc"@ && token != "wrath"@ ==> flavors_agree(token, Some(flavor))
            is None,
{
}

/// The game is seen wherever its name stands in the list of processes, whatever stands
/// before or behind it there, and it is not seen where no name of it stands.
pub proof fn law_game_is_seen_anywhere_in_the_list(
    listing: Seq<char>,
    before: Seq<char>,
    behind: Seq<char>,
)
    ensures
        lowercase_of(listing) == before + "wow.exe"@ + behind ==> game_listed(true, listing)
            && game_listed(false, listing),
        lowercase_of(listing) == before + "wowclassic.exe"@ + behind ==> game_listed(true, listing),
        lowercase_of(listing) == before + "world of warcraft"@ + behind ==> game_listed(
            false,
            listing,
        ),
        !occurs_in("wow.exe"@, lowercase_of(listing)) ==> game_listed(true, listing) == occurs_in(
            "wowclassic.exe"@,
            lowercase_of(listing),
        ) && game_listed(false, listing) == occurs_in("world of warcraft"@, lowercase_of(listing)),
{
    let text = lowercase_of(listing);
    let i = before.len() as int;
    if text == before + "wow.exe"@ + behind {
        assert(text.subrange(i, i + "wow.exe"@.len()) =~= "wow.exe"@);
        assert(stands_at(text, "wow.exe"@, i));
    }
    if text == before + "wowclassic.exe"@ + behind {
        assert(text.subrange(i, i + "wowclassic.exe"@.len()) =~= "wowclassic.exe"@);
        assert(stands_at(text, "wowclassic.exe"@, i));
    }
    if text == before + "world of warcraft"@ + behind {
        assert(text.subrange(i, i + "world of warcraft"@.len()) =~= "world of warcraft"@);
        assert(stands_at(text, "world of warcraft"@, i));
    }
}

/// Whether `pair` is the name and the version of one of the first `n` addons.
pub open spec fn is_listed(versions: Seq<Option<String>>, pair: (Seq<char>, Seq<char>), n: int) -> bool {
    exists|i: int|
        0 <= i < n && (#[trigger] versions[i]) is Some && pair == (
            export_table()[i].1,
            versions[i]->0@,
        )
}

/// The manifest lists each addon that is there by its own name, with its version, and no
/// addon that is not there.
pub proof fn law_manifest_lists_what_is_there(versions: Seq<Option<String>>, n: int)
    requires
        0 <= n <= versions.len(),
        n <= export_table().len(),
    ensures
        forall|i: int|
            0 <= i < n && (#[trigger] versions[i]) is Some ==> manifest_of(versions, n).contains(
                (export_table()[i].1, versions[i]->0@),
            ),
        forall|k: int|
            0 <= k < manifest_of(versions, n).len() ==> is_listed(
                versions,
                #[trigger] manifest_of(versions, n)[k],
                n,
            ),
        manifest_of(versions, n).len() <= n,
    decreases n,
{
    if n > 0 {
        law_manifest_lists_what_is_there(versions, n - 1);
        let before = manifest_of(versions, n - 1);
        let all = manifest_of(versions, n);
        assert forall|i: int| 0 <= i < n && (#[trigger] versions[i]) is Some implies all.contains(
            (export_table()[i].1, versions[i]->0@),
        ) by {
            let pair = (export_table()[i].1, versions[i]->0@);
            if i < n - 1 {
                assert(before.contains(pair));
                let k = before.index_of(pair);
                assert(all[k] == pair);
            } else {
                assert(all[all.len() - 1] == pair);
            }
        }
        assert forall|k: int| 0 <= k < all.len() implies is_listed(versions, #[trigger] all[k], n) by {
            if k < before.len() {
                assert(all[k] == before[k]);
                assert(is_listed(versions, before[k], n - 1));
            } else {
                assert(versions[n - 1] is Some);
            }
        }
    }
}

/// Names that are sorted ascend: of any two, the one that stands first is the lower one, or
/// they are the same.
pub proof fn law_sorted_names_ascend(v: Seq<Seq<char>>, i: int, j: int)
    requires
        sorted(v),
        0 <= i < j < v.len(),
    ensures
        v[i] == v[j] || text_less(v[i], v[j]),
{
    law_text_order_is_strict_and_total(v[i], v[j], v[i]);
}

} // verus!
