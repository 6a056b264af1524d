//! Searching in sequences.
use vstd::prelude::*;

use crate::text::{same_text, texts};

verus! {

/// Where `k` first stands in `keys`; their number if it does not.
pub open spec fn first_at<K>(keys: Seq<K>, k: K) -> int
    decreases keys.len(),
{
    if keys.len() == 0 || keys[0] == k {
        0
    } else {
        1 + first_at(keys.drop_first(), k)
    }
}

/// What `first_at` finds: the key stands there, and at no earlier place.
pub proof fn lemma_first_at<K>(keys: Seq<K>, k: K)
    ensures
        0 <= first_at(keys, k) <= keys.len(),
        first_at(keys, k) < keys.len() ==> keys[first_at(keys, k)] == k,
        forall|j: int| 0 <= j < first_at(keys, k) ==> keys[j] != k,
        first_at(keys, k) < keys.len() <==> keys.contains(k),
    decreases keys.len(),
{
    if keys.len() > 0 && keys[0] != k {
        let rest = keys.drop_first();
        lemma_first_at(rest, k);
        assert forall|j: int| 0 <= j < first_at(keys, k) implies keys[j] != k by {
            if j > 0 {
                assert(keys[j] == rest[j - 1]);
            }
        }
        if keys.contains(k) {
            let j = choose|j: int| 0 <= j < keys.len() && keys[j] == k;
            assert(rest[j - 1] == k);
        }
        if first_at(keys, k) < keys.len() {
            assert(keys[first_at(keys, k)] == rest[first_at(rest, k)]);
        }
    }
}

/// Where `s` first stands in `v`; the length of `v` if it does not.
pub fn position(v: &[String], s: &str) -> (p: usize)
    ensures
        p == first_at(texts(v@), s@),
{
    proof {
        lemma_first_at(texts(v@), s@);
    }
    let mut i: usize = 0;
    while i < v.len()
        invariant
            i <= v@.len(),
            i <= first_at(texts(v@), s@) <= v@.len(),
            first_at(texts(v@), s@) < v@.len() ==> texts(v@)[first_at(texts(v@), s@)] == s@,
            forall|j: int| 0 <= j < first_at(texts(v@), s@) ==> texts(v@)[j] != s@,
        decreases v@.len() - i,
    {
        if same_text(v[i].as_str(), s) {
            proof {
                assert(texts(v@)[i as int] == s@);
            }
            return i;
        }
        proof {
            assert(texts(v@)[i as int] != s@);
        }
        i = i + 1;
    }
    i
}

/// Whether `s` stands in `v`.
pub fn contains(v: &[String], s: &str) -> (yes: bool)
    ensures
        yes == texts(v@).contains(s@),
{
    proof {
        lemma_first_at(texts(v@), s@);
    }
    position(v, s) < v.len()
}

/// A copy of a row of texts.
pub fn clone_texts(v: &Vec<String>) -> (w: Vec<String>)
    ensures
        w@ == v@,
{
    let mut w: Vec<String> = Vec::new();
    let mut i: usize = 0;
    while i < v.len()
        invariant
            i <= v@.len(),
            w@ == v@.take(i as int),
        decreases v@.len() - i,
    {
        w.push(v[i].clone());
        proof {
            assert(v@.take(i as int + 1) =~= v@.take(i as int).push(v@[i as int]));
        }
        i = i + 1;
    }
    proof {
        assert(v@.take(i as int) =~= v@);
    }
    w
}

/// A copy of an optional text.
pub fn clone_opt(s: &Option<String>) -> (t: Option<String>)
    ensures
        t == *s,
{
    match s {
        Some(x) => Some(x.clone()),
        None => None,
    }
}

/// The view of an optional text.
pub open spec fn opt_text(s: Option<String>) -> Option<Seq<char>> {
    match s {
        Some(t) => Some(t@),
        None => None,
    }
}

/// Whether two optional texts are the same.
pub fn same_opt(a: &Option<String>, b: &Option<String>) -> (same: bool)
    ensures
        same == (opt_text(*a) == opt_text(*b)),
{
    match a {
        Some(s) => match b {
            Some(t) => same_text(s.as_str(), t.as_str()),
            None => false,
        },
        None => b.is_none(),
    }
}

/// Where keys are found when one more was put behind them.
pub proof fn lemma_first_at_push<K>(keys: Seq<K>, k: K, other: K)
    requires
        !keys.contains(k),
    ensures
        first_at(keys.push(k), k) == keys.len(),
        other != k ==> (first_at(keys.push(k), other) < keys.len() + 1 <==> first_at(keys, other)
            < keys.len()),
        first_at(keys, other) < keys.len() ==> first_at(keys.push(k), other) == first_at(
            keys,
            other,
        ),
{
    let longer = keys.push(k);
    lemma_first_at(keys, k);
    lemma_first_at(keys, other);
    lemma_first_at(longer, k);
    lemma_first_at(longer, other);
    assert(longer[keys.len() as int] == k);
    let a = first_at(longer, k);
    if a < keys.len() {
        assert(longer[a] == keys[a]);
    }
    let b = first_at(longer, other);
    let c = first_at(keys, other);
    if c < keys.len() {
        assert(longer[c] == other);
        if b < c {
            assert(keys[b] == longer[b]);
        }
    } else if b < keys.len() {
        assert(keys[b] == longer[b]);
    }
}

/// What a filter keeps of one element more.
pub proof fn lemma_filter_take<A>(s: Seq<A>, n: int, keep: spec_fn(A) -> bool)
    requires
        0 < n <= s.len(),
    ensures
        s.take(n).filter(keep) == if keep(s[n - 1]) {
            s.take(n - 1).filter(keep).push(s[n - 1])
        } else {
            s.take(n - 1).filter(keep)
        },
{
    reveal(Seq::filter);
    assert(s.take(n).drop_last() =~= s.take(n - 1));
    assert(s.take(n).last() == s[n - 1]);
}

/// A key stands where it first stands exactly where it is the only one before that place;
/// so keys that all differ are each found at their own place.
pub proof fn law_different_keys_are_each_found<K>(keys: Seq<K>, i: int)
    requires
        0 <= i < keys.len(),
        forall|j: int| 0 <= j < i ==> keys[j] != keys[i],
    ensures
        first_at(keys, keys[i]) == i,
{
    lemma_first_at(keys, keys[i]);
}

} // verus!
