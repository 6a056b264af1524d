//! What a saved file holds, in numbers.
use vstd::prelude::*;

use crate::json::{field, text_field, views, Json, JsonView};
use crate::textmap::{keys_ascend, TextMap};

verus! {

/// How many items the field `items` of a value lists.
pub open spec fn items_listed(v: JsonView) -> nat {
    match field(v, "items"@) {
        Some(JsonView::Arr(items)) => items.len(),
        _ => 0,
    }
}

/// The domains of a registry in the order of their names, each with how many items it
/// lists.
pub fn registry_counts(registry: &TextMap<Json>) -> (counts: Vec<(String, usize)>)
    ensures
        counts@.len() == registry.pairs().len(),
        keys_ascend(registry.pairs()),
        forall|i: int|
            0 <= i < counts@.len() ==> (#[trigger] counts@[i]).0@ == registry.pairs()[i].0
                && counts@[i].1 == items_listed(registry.pairs()[i].1@),
{
    let n: usize = registry.len();
    let mut counts: Vec<(String, usize)> = Vec::new();
    let mut i: usize = 0;
    while i < n
        invariant
            n == registry.pairs().len(),
            i <= n,
            counts@.len() == i,
            forall|j: int|
                0 <= j < i ==> (#[trigger] counts@[j]).0@ == registry.pairs()[j].0
                    && counts@[j].1 == items_listed(registry.pairs()[j].1@),
        decreases n - i,
    {
        let mut listed: usize = 0;
        if let Some(v) = registry.value_at(i).get("items") {
            if let Some(items) = v.as_array() {
                listed = items.len();
            }
        }
        counts.push((registry.key_at(i).clone(), listed));
        i = i + 1;
    }
    counts
}

/// The kind of an entry: its field `k`.
pub open spec fn kind_of(e: JsonView) -> Seq<char> {
    match text_field(e, "k"@) {
        Some(k) => k,
        None => "(none)"@,
    }
}

/// How many of the first `n` entries are of the kind `k`.
pub open spec fn times(entries: Seq<JsonView>, k: Seq<char>, n: int) -> nat
    decreases n,
{
    if n <= 0 {
        0
    } else {
        times(entries, k, n - 1) + if kind_of(entries[n - 1]) == k {
            1nat
        } else {
            0
        }
    }
}

/// Whether `m` holds for each kind how often it is among the first `n` entries.
pub open spec fn counts_kinds(m: Map<Seq<char>, usize>, entries: Seq<JsonView>, n: int) -> bool {
    forall|k: Seq<char>|
        (#[trigger] m.contains_key(k)) == (times(entries, k, n) > 0) && (m.contains_key(k)
            ==> m[k] == times(entries, k, n))
}

proof fn lemma_times_bounded(entries: Seq<JsonView>, k: Seq<char>, n: int)
    requires
        0 <= n,
    ensures
        times(entries, k, n) <= n,
    decreases n,
{
    if n > 0 {
        lemma_times_bounded(entries, k, n - 1);
    }
}

/// The kinds of the entries of a stream, each with how often it occurs.
pub fn kind_counts(entries: &Vec<Json>) -> (counts: TextMap<usize>)
    ensures
        counts_kinds(counts@, views(entries@), entries@.len() as int),
{
    let ghost said = views(entries@);
    let mut counts: TextMap<usize> = TextMap::new();
    let mut i: usize = 0;
    while i < entries.len()
        invariant
            said == views(entries@),
            i <= entries@.len(),
            counts_kinds(counts@, said, i as int),
        decreases entries@.len() - i,
    {
        proof {
            assert(said[i as int] == entries@[i as int]@);
        }
        let kind: String = match entries[i].get_str("k") {
            Some(k) => k.to_string(),
            None => "(none)".to_string(),
        };
        let before: usize = match counts.get(kind.as_str()) {
            Some(n) => *n,
            None => 0,
        };
        let ghost old_counts = counts@;
        let ghost key = kind@;
        proof {
            lemma_times_bounded(said, key, i as int);
            assert(old_counts.contains_key(key) == (times(said, key, i as int) > 0));
            assert(before == times(said, key, i as int));
        }
        counts.insert(kind, before + 1);
        proof {
            assert forall|k: Seq<char>|
                (#[trigger] counts@.contains_key(k)) == (times(said, k, i + 1) > 0) && (
                counts@.contains_key(k) ==> counts@[k] == times(said, k, i + 1)) by {
                assert(old_counts.contains_key(k) == (times(said, k, i as int) > 0));
            }
        }
        i = i + 1;
    }
    counts
}

/// Kinds are counted one by one: how often a kind is found is how many entries state it,
/// and the counts hold every kind that any entry is of, and no other.
pub proof fn law_kinds_are_counted(entries: Seq<JsonView>, k: Seq<char>, n: int)
    requires
        0 <= n <= entries.len(),
    ensures
        times(entries, k, n) == entries.take(n).filter(|e: JsonView| kind_of(e) == k).len(),
        forall|m: Map<Seq<char>, usize>| #[trigger]
            counts_kinds(m, entries, n) ==> (m.contains_key(k) <==> exists|i: int|
                0 <= i < n && kind_of(#[trigger] entries[i]) == k) && (m.contains_key(k) ==> m[k]
                == entries.take(n).filter(|e: JsonView| kind_of(e) == k).len()),
    decreases n,
{
    let keep = |e: JsonView| kind_of(e) == k;
    if n > 0 {
        law_kinds_are_counted(entries, k, n - 1);
        crate::seqs::lemma_filter_take(entries, n, keep);
    } else {
        reveal(Seq::filter);
    }
    lemma_times_positive(entries, k, n);
    assert forall|m: Map<Seq<char>, usize>| #[trigger] counts_kinds(m, entries, n) implies (
    m.contains_key(k) <==> exists|i: int| 0 <= i < n && kind_of(#[trigger] entries[i]) == k) && (
    m.contains_key(k) ==> m[k] == entries.take(n).filter(keep).len()) by {
        assert(m.contains_key(k) == (times(entries, k, n) > 0));
    }
}

proof fn lemma_times_positive(entries: Seq<JsonView>, k: Seq<char>, n: int)
    requires
        0 <= n <= entries.len(),
    ensures
        times(entries, k, n) > 0 <==> exists|i: int|
            0 <= i < n && kind_of(#[trigger] entries[i]) == k,
    decreases n,
{
    if n > 0 {
        lemma_times_positive(entries, k, n - 1);
        if times(entries, k, n) > 0 && times(entries, k, n - 1) == 0 {
            assert(kind_of(entries[n - 1]) == k);
        }
        if exists|i: int| 0 <= i < n && kind_of(#[trigger] entries[i]) == k {
            let i = choose|i: int| 0 <= i < n && kind_of(#[trigger] entries[i]) == k;
            if i < n - 1 {
                assert(kind_of(entries[i]) == k);
            }
        }
    }
}

/// The kind of an entry is the text under `k`, and an entry without one is of no kind; the
/// items of a domain are those of its list.
pub proof fn law_kinds_and_items_are_as_stated(
    m: Map<Seq<char>, JsonView>,
    k: Seq<char>,
    items: Seq<JsonView>,
)
    ensures
        kind_of(JsonView::Obj(m.insert("k"@, JsonView::Str(k)))) == k,
        kind_of(JsonView::Obj(m.remove("k"@))) == "(none)"@,
        items_listed(JsonView::Obj(m.insert("items"@, JsonView::Arr(items)))) == items.len(),
        items_listed(JsonView::Obj(m.remove("items"@))) == 0,
{
}

} // verus!
