//! A map from texts to values, kept in the order of its keys.
use vstd::prelude::*;

use crate::text::{is_less, same_text, text_less};
use crate::text::law_text_order_is_strict_and_total;

verus! {

/// Whether `k` is the key of one of `pairs`.
pub open spec fn has_key<V>(pairs: Seq<(Seq<char>, V)>, k: Seq<char>) -> bool {
    exists|i: int| 0 <= i < pairs.len() && #[trigger] pairs[i].0 == k
}

/// Where in `pairs` the key `k` stands.
pub open spec fn key_index<V>(pairs: Seq<(Seq<char>, V)>, k: Seq<char>) -> int {
    choose|i: int| 0 <= i < pairs.len() && #[trigger] pairs[i].0 == k
}

/// The map that `pairs` lists.
pub open spec fn map_of<V>(pairs: Seq<(Seq<char>, V)>) -> Map<Seq<char>, V> {
    Map::new(|k: Seq<char>| has_key(pairs, k), |k: Seq<char>| pairs[key_index(pairs, k)].1)
}

/// Whether the keys of `pairs` strictly ascend.
pub open spec fn keys_ascend<V>(pairs: Seq<(Seq<char>, V)>) -> bool {
    forall|i: int, j: int|
        0 <= i < j < pairs.len() ==> text_less(#[trigger] pairs[i].0, #[trigger] pairs[j].0)
}

/// Where keys ascend, each stands in one place only.
pub proof fn lemma_key_once<V>(pairs: Seq<(Seq<char>, V)>, i: int)
    requires
        keys_ascend(pairs),
        0 <= i < pairs.len(),
    ensures
        has_key(pairs, pairs[i].0),
        key_index(pairs, pairs[i].0) == i,
        map_of(pairs).contains_key(pairs[i].0),
        map_of(pairs)[pairs[i].0] == pairs[i].1,
{
    let k = pairs[i].0;
    assert(has_key(pairs, k));
    let j = key_index(pairs, k);
    law_text_order_is_strict_and_total(k, k, k);
    assert(text_less(pairs[j].0, pairs[i].0) || text_less(pairs[i].0, pairs[j].0) || i == j);
}

/// A value is smaller than the map that holds it.
pub proof fn lemma_values_smaller<V>(m: TextMap<V>)
    ensures
        forall|i: int|
            0 <= i < m.pairs().len() ==> decreases_to!(m => (#[trigger] m.pairs()[i]).1),
        forall|k: Seq<char>| #[trigger] m@.contains_key(k) ==> decreases_to!(m => m@[k]),
{
    assert forall|i: int| 0 <= i < m.pairs().len() implies decreases_to!(m => (#[trigger] m.pairs()[i]).1) by {
        assert(decreases_to!(m => m.entries));
        assert(decreases_to!(m.entries => m.entries@[i]));
        assert(decreases_to!(m.entries@[i] => m.entries@[i].1));
    }
    assert forall|k: Seq<char>| #[trigger] m@.contains_key(k) implies decreases_to!(m => m@[k]) by {
        assert(has_key(m.pairs(), k));
        let i = key_index(m.pairs(), k);
        assert(m.pairs()[i].1 == m@[k]);
    }
}

/// A map from texts to values. Its entries stand in the order of their keys.
#[derive(Debug, PartialEq)]
pub struct TextMap<V> {
    pub(crate) entries: Vec<(String, V)>,
}

impl<V> TextMap<V> {
    /// The entries in the order of their keys.
    pub closed spec fn pairs(self) -> Seq<(Seq<char>, V)> {
        Seq::new(self.entries@.len(), |i: int| (self.entries@[i].0@, self.entries@[i].1))
    }

    #[verifier::type_invariant]
    pub(crate) closed spec fn ordered(self) -> bool {
        keys_ascend(self.pairs())
    }
}

impl<V> View for TextMap<V> {
    type V = Map<Seq<char>, V>;

    open spec fn view(&self) -> Map<Seq<char>, V> {
        map_of(self.pairs())
    }
}

impl<V> TextMap<V> {
    /// The empty map.
    pub fn new() -> (m: Self)
        ensures
            m@ == Map::<Seq<char>, V>::empty(),
            m.pairs().len() == 0,
    {
        let m = TextMap { entries: Vec::new() };
        proof {
            assert(m@ =~= Map::<Seq<char>, V>::empty());
        }
        m
    }

    /// How many entries there are. They stand in the order of their keys.
    pub fn len(&self) -> (n: usize)
        ensures
            n == self.pairs().len(),
            keys_ascend(self.pairs()),
    {
        proof {
            use_type_invariant(self);
        }
        self.entries.len()
    }

    /// The key of the entry at `i`.
    pub fn key_at(&self, i: usize) -> (k: &String)
        requires
            i < self.pairs().len(),
        ensures
            k@ == self.pairs()[i as int].0,
    {
        &self.entries[i].0
    }

    /// The value of the entry at `i`.
    pub fn value_at(&self, i: usize) -> (v: &V)
        requires
            i < self.pairs().len(),
        ensures
            *v == self.pairs()[i as int].1,
    {
        &self.entries[i].1
    }

    /// The first position whose key is not before `k`.
    fn position(&self, k: &str) -> (p: usize)
        ensures
            p <= self.pairs().len(),
            forall|i: int| 0 <= i < p ==> text_less(#[trigger] self.pairs()[i].0, k@),
            forall|i: int| p <= i < self.pairs().len() ==> !text_less(#[trigger] self.pairs()[i].0, k@),
    {
        proof {
            use_type_invariant(self);
        }
        let mut lo: usize = 0;
        let mut hi: usize = self.entries.len();
        while lo < hi
            invariant
                keys_ascend(self.pairs()),
                lo <= hi <= self.pairs().len(),
                self.pairs().len() == self.entries@.len(),
                forall|i: int| 0 <= i < lo ==> text_less(#[trigger] self.pairs()[i].0, k@),
                forall|i: int|
                    hi <= i < self.pairs().len() ==> !text_less(#[trigger] self.pairs()[i].0, k@),
            decreases hi - lo,
        {
            let mid: usize = lo + (hi - lo) / 2;
            let less = is_less(self.entries[mid].0.as_str(), k);
            proof {
                let m = self.pairs()[mid as int].0;
                assert forall|i: int| 0 <= i < self.pairs().len() implies {
                    &&& i <= mid && less ==> text_less(#[trigger] self.pairs()[i].0, k@)
                    &&& i >= mid && !less ==> !text_less(self.pairs()[i].0, k@)
                } by {
                    law_text_order_is_strict_and_total(self.pairs()[i].0, m, k@);
                    law_text_order_is_strict_and_total(m, self.pairs()[i].0, k@);
                }
            }
            if less {
                lo = mid + 1;
            } else {
                hi = mid;
            }
        }
        lo
    }

    proof fn lemma_found(pairs: Seq<(Seq<char>, V)>, p: int, k: Seq<char>)
        requires
            keys_ascend(pairs),
            0 <= p <= pairs.len(),
            forall|i: int| 0 <= i < p ==> text_less(#[trigger] pairs[i].0, k),
            forall|i: int| p <= i < pairs.len() ==> !text_less(#[trigger] pairs[i].0, k),
        ensures
            has_key(pairs, k) <==> p < pairs.len() && pairs[p].0 == k,
            forall|i: int| p < i < pairs.len() ==> text_less(k, #[trigger] pairs[i].0),
            p < pairs.len() && pairs[p].0 != k ==> text_less(k, pairs[p].0),
    {
        if has_key(pairs, k) {
            let i = key_index(pairs, k);
            law_text_order_is_strict_and_total(k, k, k);
            assert(i >= p);
            if i > p {
                assert(text_less(pairs[p].0, pairs[i].0));
            }
        }
        if p < pairs.len() {
            law_text_order_is_strict_and_total(pairs[p].0, k, k);
            assert forall|i: int| p < i < pairs.len() implies text_less(
                k,
                #[trigger] pairs[i].0,
            ) by {
                assert(text_less(pairs[p].0, pairs[i].0));
                law_text_order_is_strict_and_total(k, pairs[p].0, pairs[i].0);
            }
        }
    }

    /// The value of the key `k`, if it is there.
    pub fn get(&self, k: &str) -> (v: Option<&V>)
        ensures
            v matches Some(x) ==> self@.contains_key(k@) && *x == self@[k@],
            v is None ==> !self@.contains_key(k@),
    {
        let p: usize = self.position(k);
        proof {
            use_type_invariant(self);
            Self::lemma_found(self.pairs(), p as int, k@);
        }
        if p < self.entries.len() && same_text(self.entries[p].0.as_str(), k) {
            proof {
                lemma_key_once(self.pairs(), p as int);
            }
            Some(&self.entries[p].1)
        } else {
            None
        }
    }

    /// Whether the key `k` is there.
    pub fn contains(&self, k: &str) -> (yes: bool)
        ensures
            yes == self@.contains_key(k@),
    {
        self.get(k).is_some()
    }

    /// Gives the key `k` the value `v`, in place of any that it had.
    pub fn insert(&mut self, k: String, v: V)
        ensures
            final(self)@ == old(self)@.insert(k@, v),
    {
        let p: usize = self.position(k.as_str());
        let ghost before = self.pairs();
        let ghost key = k@;
        let mut entries: Vec<(String, V)> = Vec::new();
        proof {
            use_type_invariant(&*self);
            Self::lemma_found(before, p as int, key);
        }
        std::mem::swap(&mut entries, &mut self.entries);
        let ghost olds = entries@;
        if p < entries.len() && same_text(entries[p].0.as_str(), k.as_str()) {
            entries.set(p, (k, v));
        } else {
            entries.insert(p, (k, v));
        }
        proof {
            let m = TextMap { entries };
            let after = m.pairs();
            if has_key(before, key) {
                assert(after =~= before.update(p as int, (key, v)));
            } else {
                assert(after =~= before.insert(p as int, (key, v)));
            }
            assert(keys_ascend(after));
            assert(after[p as int] == (key, v));
            lemma_key_once(after, p as int);
            assert forall|q: Seq<char>| q != key implies {
                &&& #[trigger] has_key(after, q) == has_key(before, q)
                &&& has_key(before, q) ==> after[key_index(after, q)].1 == before[key_index(
                    before,
                    q,
                )].1
            } by {
                if has_key(before, q) {
                    let i = key_index(before, q);
                    let j = if has_key(before, key) || i < p {
                        i
                    } else {
                        i + 1
                    };
                    assert(after[j] == before[i]);
                    lemma_key_once(after, j);
                }
                if has_key(after, q) {
                    let j = key_index(after, q);
                    let i = if has_key(before, key) || j < p {
                        j
                    } else {
                        j - 1
                    };
                    assert(before[i] == after[j]);
                }
            }
            assert(map_of(after) =~= map_of(before).insert(key, v));
        }
        self.entries = entries;
    }

    /// Gives the key `k` the value `v` unless it has one.
    pub fn insert_if_absent(&mut self, k: String, v: V)
        ensures
            final(self)@ == if old(self)@.contains_key(k@) {
                old(self)@
            } else {
                old(self)@.insert(k@, v)
            },
    {
        if !self.contains(k.as_str()) {
            self.insert(k, v);
        }
    }

    /// Takes the key `k` and its value out, if it is there.
    pub fn remove(&mut self, k: &str)
        ensures
            final(self)@ == old(self)@.remove(k@),
    {
        let p: usize = self.position(k);
        let ghost before = self.pairs();
        let mut entries: Vec<(String, V)> = Vec::new();
        proof {
            use_type_invariant(&*self);
            Self::lemma_found(before, p as int, k@);
        }
        std::mem::swap(&mut entries, &mut self.entries);
        if p < entries.len() && same_text(entries[p].0.as_str(), k) {
            entries.remove(p);
            proof {
                let m = TextMap { entries };
                let after = m.pairs();
                assert(after =~= before.remove(p as int));
                assert(keys_ascend(after));
                law_text_order_is_strict_and_total(k@, k@, k@);
                assert forall|q: Seq<char>| #[trigger] has_key(after, q) == (q != k@ && has_key(
                    before,
                    q,
                )) by {
                    if has_key(after, q) {
                        let j = key_index(after, q);
                        let i = if j < p {
                            j
                        } else {
                            j + 1
                        };
                        assert(before[i] == after[j]);
                        lemma_key_once(before, i);
                        lemma_key_once(before, p as int);
                    }
                    if q != k@ && has_key(before, q) {
                        let i = key_index(before, q);
                        let j = if i < p {
                            i
                        } else {
                            i - 1
                        };
                        assert(after[j] == before[i]);
                    }
                }
                assert forall|q: Seq<char>| #[trigger] has_key(after, q) implies after[key_index(
                    after,
                    q,
                )].1 == before[key_index(before, q)].1 by {
                    let j = key_index(after, q);
                    let i = if j < p {
                        j
                    } else {
                        j + 1
                    };
                    assert(before[i] == after[j]);
                    lemma_key_once(before, i);
                }
                assert(map_of(after) =~= map_of(before).remove(k@));
            }
        } else {
            proof {
                assert(!map_of(before).contains_key(k@));
                assert(map_of(before) =~= map_of(before).remove(k@));
            }
        }
        self.entries = entries;
    }

    /// The entries in the order of their keys.
    pub fn into_entries(self) -> (entries: Vec<(String, V)>)
        ensures
            entries@.len() == self.pairs().len(),
            forall|i: int|
                0 <= i < entries@.len() ==> (#[trigger] entries@[i]).0@ == self.pairs()[i].0
                    && entries@[i].1 == self.pairs()[i].1,
            keys_ascend(self.pairs()),
    {
        proof {
            use_type_invariant(&self);
        }
        self.entries
    }
}

} // verus!
