//! SavedVariables files. The file is Lua; the value of its export global is carried over
//! into JSON as it stands.
use vstd::prelude::*;

use crate::ieee::{clamp_i64, finite, is_finite, is_whole, to_i64, whole, whole_part};
use crate::json::{fields, lemma_arr_view, lemma_obj_view, views, Json, JsonView};
use crate::lua::{fits, float_display, float_text, lossy_decode, lossy_text, too_deep};
use crate::lua::{chunks_run, error_text, globals_of, holds_at, limit_memory};
use crate::lua::{limits_memory, lua_failed, memory_cap, new_state, run_chunk, run_error};
use crate::lua::table_entries;
use crate::luadata::{is_data, plain_data};
use crate::lua::{too_deep_text, LuaTree, LuaView, MAX_DEPTH};
use crate::number::{
    dec_i64,
    i64_of,
    is_digit,
    law_numeral_round_trip,
    law_only_digits_are_numbers,
    signed_dec_of,
};
use crate::seqs::{first_at, lemma_first_at};
use crate::svread::{export_deep, export_read, read_export, table_field};
use crate::text::{join2, join3, join4};
use crate::textmap::TextMap;

verus! {

// ---------------------------------------------------------------------------
// Scalars
// ---------------------------------------------------------------------------

/// The integer that a table key is: an integer, or a float with nothing behind the point.
pub open spec fn key_int(k: LuaTree) -> Option<i64> {
    match k {
        LuaTree::Integer(n) => Some(n),
        LuaTree::Number(bits) => if is_finite(bits) && is_whole(bits) {
            Some(clamp_i64(whole_part(bits)))
        } else {
            None
        },
        _ => None,
    }
}

/// The integer that a scalar is: an integer, or a float without what stands behind the
/// point.
pub open spec fn scalar_int(v: LuaTree) -> Option<i64> {
    match v {
        LuaTree::Integer(n) => Some(n),
        LuaTree::Number(bits) => if is_finite(bits) {
            Some(clamp_i64(whole_part(bits)))
        } else {
            None
        },
        _ => None,
    }
}

/// A table key as the key of a JSON object.
pub open spec fn key_text(k: LuaTree) -> Seq<char> {
    match k {
        LuaTree::Integer(n) => signed_dec_of(n as int),
        LuaTree::Number(bits) => if is_finite(bits) && is_whole(bits) {
            signed_dec_of(clamp_i64(whole_part(bits)) as int)
        } else {
            float_display(bits)
        },
        LuaTree::Text(bytes) => lossy_decode(bytes@),
        LuaTree::Boolean(b) => if b {
            "true"@
        } else {
            "false"@
        },
        _ => Seq::empty(),
    }
}

/// The integer that a table key is.
pub fn key_as_int(k: &LuaTree) -> (n: Option<i64>)
    ensures
        n == key_int(*k),
{
    match k {
        LuaTree::Integer(n) => Some(*n),
        LuaTree::Number(bits) => if finite(*bits) && whole(*bits) {
            Some(to_i64(*bits))
        } else {
            None
        },
        _ => None,
    }
}

/// The integer that a scalar is.
pub fn value_as_int(v: &LuaTree) -> (n: Option<i64>)
    ensures
        n == scalar_int(*v),
{
    match v {
        LuaTree::Integer(n) => Some(*n),
        LuaTree::Number(bits) => if finite(*bits) {
            Some(to_i64(*bits))
        } else {
            None
        },
        _ => None,
    }
}

/// A table key as the key of a JSON object.
pub fn key_to_string(k: &LuaTree) -> (s: String)
    ensures
        s@ == key_text(*k),
{
    match k {
        LuaTree::Integer(n) => dec_i64(*n),
        LuaTree::Number(bits) => if finite(*bits) && whole(*bits) {
            dec_i64(to_i64(*bits))
        } else {
            float_text(*bits)
        },
        LuaTree::Text(bytes) => lossy_text(bytes),
        LuaTree::Boolean(b) => if *b {
            "true".to_string()
        } else {
            "false".to_string()
        },
        _ => String::new(),
    }
}

// ---------------------------------------------------------------------------
// Lists and objects
// ---------------------------------------------------------------------------

/// The integers that the keys of `p` are.
pub open spec fn key_ints(p: Seq<(LuaTree, LuaTree)>) -> Seq<Option<int>> {
    Seq::new(
        p.len(),
        |i: int|
            match key_int(p[i].0) {
                Some(n) => Some(n as int),
                None => None,
            },
    )
}

/// The keys of `p` as keys of a JSON object.
pub open spec fn key_texts(p: Seq<(LuaTree, LuaTree)>) -> Seq<Seq<char>> {
    Seq::new(p.len(), |i: int| key_text(p[i].0))
}

/// Where in `p` the key `n` stands; the length of `p` if it does not.
pub open spec fn int_at(p: Seq<(LuaTree, LuaTree)>, n: int) -> int {
    first_at(key_ints(p), Some(n))
}

/// Whether the keys of `p` are the integers from 1 to their number.
pub open spec fn is_list(p: Seq<(LuaTree, LuaTree)>) -> bool {
    forall|n: int| 1 <= n <= p.len() ==> #[trigger] int_at(p, n) < p.len()
}

/// The map that comes of giving each of the first `n` keys its value, one after the
/// other.
pub open spec fn insert_all<V>(keys: Seq<Seq<char>>, vals: Seq<V>, n: int) -> Map<Seq<char>, V>
    decreases n,
{
    if n <= 0 {
        Map::empty()
    } else {
        insert_all(keys, vals, n - 1).insert(keys[n - 1], vals[n - 1])
    }
}

/// What a Lua value says in JSON. A table whose keys are the integers from 1 to their
/// number is an array; any other is an object. What JSON cannot say is `null`.
pub open spec fn tree_json(t: LuaTree) -> JsonView
    decreases t, 1int,
{
    match t {
        LuaTree::Nil => JsonView::Null,
        LuaTree::Boolean(b) => JsonView::Bool(b),
        LuaTree::Integer(n) => JsonView::Int(n as int),
        LuaTree::Number(bits) => if is_finite(bits) {
            JsonView::Float(bits)
        } else {
            JsonView::Null
        },
        LuaTree::Text(bytes) => JsonView::Str(lossy_decode(bytes@)),
        LuaTree::Table(p) => pairs_json(p@, inner_json(t)),
        LuaTree::Other => JsonView::Null,
    }
}

/// What the values in a table say in JSON.
pub open spec fn inner_json(t: LuaTree) -> Seq<JsonView>
    decreases t, 0int,
{
    match t {
        LuaTree::Table(p) => Seq::new(
            p@.len(),
            |i: int|
                if 0 <= i < p@.len() {
                    tree_json(p@[i].1)
                } else {
                    JsonView::Null
                },
        ),
        _ => Seq::empty(),
    }
}

/// What a table with the pairs `p` says in JSON, where `vals` is what their values say.
pub open spec fn pairs_json(p: Seq<(LuaTree, LuaTree)>, vals: Seq<JsonView>) -> JsonView {
    if is_list(p) {
        JsonView::Arr(Seq::new(p.len(), |i: int| vals[int_at(p, i + 1)]))
    } else {
        JsonView::Obj(insert_all(key_texts(p), vals, p.len() as int))
    }
}

/// What the values of the pairs `p` say.
pub open spec fn values_json(p: Seq<(LuaTree, LuaTree)>) -> Seq<JsonView> {
    Seq::new(p.len(), |i: int| tree_json(p[i].1))
}

/// A table says what its pairs say.
pub proof fn lemma_table_json(p: Vec<(LuaTree, LuaTree)>)
    ensures
        tree_json(LuaTree::Table(p)) == pairs_json(p@, values_json(p@)),
{
    assert(inner_json(LuaTree::Table(p)) =~= values_json(p@));
}

/// Whether no two keys of `p` are the same in JSON.
pub open spec fn keys_differ(p: Seq<(LuaTree, LuaTree)>) -> bool {
    forall|i: int, j: int|
        0 <= i < j < p.len() ==> key_text((#[trigger] p[i]).0) != key_text((#[trigger] p[j]).0)
}

proof fn lemma_insert_all<V>(keys: Seq<Seq<char>>, vals: Seq<V>, n: int)
    requires
        0 <= n <= keys.len(),
        n <= vals.len(),
        forall|i: int, j: int|
            0 <= i < j < keys.len() ==> (#[trigger] keys[i]) != (#[trigger] keys[j]),
    ensures
        forall|k: Seq<char>| #[trigger]
            insert_all(keys, vals, n).contains_key(k) ==> exists|i: int|
                0 <= i < n && #[trigger] keys[i] == k,
        forall|i: int|
            0 <= i < n ==> insert_all(keys, vals, n).contains_key(#[trigger] keys[i]) && insert_all(
                keys,
                vals,
                n,
            )[keys[i]] == vals[i],
    decreases n,
{
    if n > 0 {
        lemma_insert_all(keys, vals, n - 1);
        let before = insert_all(keys, vals, n - 1);
        let after = insert_all(keys, vals, n);
        assert forall|k: Seq<char>| #[trigger] after.contains_key(k) implies exists|i: int|
            0 <= i < n && #[trigger] keys[i] == k by {
            if k == keys[n - 1] {
                assert(keys[n - 1] == k);
            } else {
                assert(before.contains_key(k));
            }
        }
    }
}

/// A pair of `p` is one of `q`, where both hold the same pairs.
proof fn lemma_same_pair(p: Seq<(LuaTree, LuaTree)>, q: Seq<(LuaTree, LuaTree)>, i: int) -> (j: int)
    requires
        p.to_multiset() == q.to_multiset(),
        0 <= i < p.len(),
    ensures
        0 <= j < q.len(),
        q[j] == p[i],
{
    vstd::seq_lib::to_multiset_contains(p, p[i]);
    vstd::seq_lib::to_multiset_contains(q, p[i]);
    q.index_of(p[i])
}

proof fn lemma_same_int(
    p: Seq<(LuaTree, LuaTree)>,
    q: Seq<(LuaTree, LuaTree)>,
    n: int,
)
    requires
        p.to_multiset() == q.to_multiset(),
        p.len() == q.len(),
        keys_differ(q),
    ensures
        int_at(p, n) < p.len() ==> int_at(q, n) < q.len() && q[int_at(q, n)] == p[int_at(p, n)],
{
    lemma_first_at(key_ints(p), Some(n));
    lemma_first_at(key_ints(q), Some(n));
    let i = int_at(p, n);
    if i < p.len() {
        assert(key_ints(p)[i] == Some(n));
        let j = lemma_same_pair(p, q, i);
        assert(key_ints(q)[j] == Some(n));
        let k = int_at(q, n);
        assert(k <= j);
        assert(key_ints(q)[k] == Some(n));
        assert(key_text(q[j].0) == signed_dec_of(n));
        assert(key_text(q[k].0) == signed_dec_of(n));
    }
}

/// Lua keeps no order in a table, and none is needed: where no two keys are the same in
/// JSON, what a table says does not depend on the order in which its pairs were walked.
pub proof fn law_order_of_pairs_does_not_matter(
    p: Seq<(LuaTree, LuaTree)>,
    q: Seq<(LuaTree, LuaTree)>,
)
    requires
        p.to_multiset() == q.to_multiset(),
        keys_differ(p),
        keys_differ(q),
    ensures
        pairs_json(p, values_json(p)) == pairs_json(q, values_json(q)),
{
    vstd::seq_lib::to_multiset_len(p);
    vstd::seq_lib::to_multiset_len(q);
    assert(p.len() == q.len());
    assert forall|n: int| 1 <= n <= p.len() implies (#[trigger] int_at(p, n) < p.len()) == (int_at(
        q,
        n,
    ) < q.len()) by {
        lemma_same_int(p, q, n);
        lemma_same_int(q, p, n);
    }
    if is_list(p) {
        assert forall|n: int| 1 <= n <= q.len() implies #[trigger] int_at(q, n) < q.len() by {
            assert(int_at(p, n) < p.len());
        }
        let a = Seq::new(p.len(), |i: int| values_json(p)[int_at(p, i + 1)]);
        let b = Seq::new(q.len(), |i: int| values_json(q)[int_at(q, i + 1)]);
        assert forall|i: int| 0 <= i < p.len() implies a[i] == b[i] by {
            assert(int_at(p, i + 1) < p.len());
            lemma_same_int(p, q, i + 1);
            lemma_first_at(key_ints(p), Some(i + 1));
            lemma_first_at(key_ints(q), Some(i + 1));
        }
        assert(a =~= b);
    } else {
        let n = choose|n: int| 1 <= n <= p.len() && !(#[trigger] int_at(p, n) < p.len());
        assert(!(int_at(q, n) < q.len()));
        let kp = key_texts(p);
        let kq = key_texts(q);
        let len = p.len() as int;
        lemma_insert_all(kp, values_json(p), len);
        lemma_insert_all(kq, values_json(q), len);
        let a = insert_all(kp, values_json(p), len);
        let b = insert_all(kq, values_json(q), len);
        assert forall|k: Seq<char>| (#[trigger] a.contains_key(k)) == b.contains_key(k) && (
        a.contains_key(k) ==> a[k] == b[k]) by {
            if a.contains_key(k) {
                let i = choose|i: int| 0 <= i < len && #[trigger] kp[i] == k;
                let j = lemma_same_pair(p, q, i);
                assert(kq[j] == k);
            }
            if b.contains_key(k) {
                let i = choose|i: int| 0 <= i < len && #[trigger] kq[i] == k;
                let j = lemma_same_pair(q, p, i);
                assert(kp[j] == k);
            }
        }
        assert(a.dom() =~= b.dom()) by {
            assert forall|k: Seq<char>| a.dom().contains(k) == b.dom().contains(k) by {
                assert(a.contains_key(k) == b.contains_key(k));
            }
        }
        assert forall|k: Seq<char>| a.dom().contains(k) implies a[k] == b[k] by {
            assert(a.contains_key(k));
        }
        assert(a =~= b);
    }
}

/// Where each of the keys 1, 2 and so on stands, if `p` is a list.
fn list_slots(p: &Vec<(LuaTree, LuaTree)>) -> (slots: Option<Vec<usize>>)
    ensures
        match slots {
            Some(s) => {
                &&& is_list(p@)
                &&& s@.len() == p@.len()
                &&& forall|i: int| 0 <= i < s@.len() ==> #[trigger] s@[i] == int_at(p@, i + 1)
                &&& forall|i: int| 0 <= i < s@.len() ==> #[trigger] s@[i] < p@.len()
            },
            None => !is_list(p@),
        },
{
    let n: usize = p.len();
    let ghost ints = key_ints(p@);
    let mut slots: Vec<usize> = Vec::new();
    let mut i: usize = 0;
    while i < n
        invariant
            i <= n,
            slots@.len() == i,
            forall|j: int| 0 <= j < i ==> slots@[j] == n,
        decreases n - i,
    {
        slots.push(n);
        i = i + 1;
    }
    i = 0;
    while i < n
        invariant
            i <= n,
            n == p@.len(),
            ints == key_ints(p@),
            slots@.len() == n,
            forall|j: int| 0 <= j < n ==> (#[trigger] slots@[j]) < i || slots@[j] == n,
            forall|j: int| 0 <= j < n && (#[trigger] slots@[j]) < n ==> ints[slots@[j] as int] == Some(j + 1),
            forall|j: int, q: int|
                0 <= j < n && 0 <= q < i && q < (#[trigger] slots@[j]) ==> (#[trigger] ints[q])
                    != Some(j + 1),
        decreases n - i,
    {
        proof {
            assert(ints[i as int] == match key_int(p@[i as int].0) {
                Some(n) => Some(n as int),
                None => None,
            });
        }
        if let Some(k) = key_as_int(&p[i].0) {
            if 1 <= k && (k as u64) <= (n as u64) {
                let j: usize = (k - 1) as usize;
                if slots[j] == n {
                    slots.set(j, i);
                }
            }
        }
        i = i + 1;
    }
    i = 0;
    while i < n
        invariant
            i <= n,
            n == p@.len(),
            ints == key_ints(p@),
            slots@.len() == n,
            forall|j: int| 0 <= j < n ==> (#[trigger] slots@[j]) <= n,
            forall|j: int| 0 <= j < n && (#[trigger] slots@[j]) < n ==> ints[slots@[j] as int] == Some(j + 1),
            forall|j: int, q: int|
                0 <= j < n && 0 <= q < n && q < (#[trigger] slots@[j]) ==> (#[trigger] ints[q])
                    != Some(j + 1),
            forall|j: int| 0 <= j < i ==> #[trigger] slots@[j] == int_at(p@, j + 1),
            forall|j: int| 0 <= j < i ==> (#[trigger] slots@[j]) < n,
        decreases n - i,
    {
        proof {
            lemma_first_at(ints, Some(i + 1));
            assert(slots@[i as int] == int_at(p@, i + 1));
        }
        if slots[i] == n {
            proof {
                assert(int_at(p@, i + 1) == n);
            }
            return None;
        }
        i = i + 1;
    }
    proof {
        assert forall|m: int| 1 <= m <= p@.len() implies #[trigger] int_at(p@, m) < p@.len() by {
            assert(slots@[m - 1] == int_at(p@, m - 1 + 1));
        }
    }
    Some(slots)
}

/// Moves the values to where `slots` says.
fn arrange(vals: Vec<Json>, slots: &Vec<usize>) -> (arr: Vec<Json>)
    requires
        slots@.len() == vals@.len(),
        forall|i: int| 0 <= i < slots@.len() ==> (#[trigger] slots@[i]) < vals@.len(),
        forall|i: int, j: int|
            0 <= i < j < slots@.len() ==> #[trigger] slots@[i] != #[trigger] slots@[j],
    ensures
        arr@.len() == vals@.len(),
        forall|i: int| 0 <= i < arr@.len() ==> (#[trigger] arr@[i])@ == vals@[slots@[i] as int]@,
{
    let mut vals = vals;
    let ghost given = vals@;
    let mut arr: Vec<Json> = Vec::new();
    let mut i: usize = 0;
    while i < slots.len()
        invariant
            i <= slots@.len(),
            slots@.len() == given.len() == vals@.len(),
            forall|j: int| 0 <= j < slots@.len() ==> (#[trigger] slots@[j]) < vals@.len(),
            forall|a: int, b: int|
                0 <= a < b < slots@.len() ==> #[trigger] slots@[a] != #[trigger] slots@[b],
            arr@.len() == i,
            forall|j: int| 0 <= j < i ==> (#[trigger] arr@[j])@ == given[slots@[j] as int]@,
            forall|j: int|
                i <= j < slots@.len() ==> vals@[#[trigger] slots@[j] as int]
                    == given[slots@[j] as int],
        decreases slots@.len() - i,
    {
        let mut v: Json = Json::Null;
        let at: usize = slots[i];
        proof {
            assert(vals@[slots@[i as int] as int] == given[slots@[i as int] as int]);
        }
        std::mem::swap(&mut v, &mut vals[at]);
        arr.push(v);
        i = i + 1;
    }
    arr
}

/// What the first `n` values of `p` say are put under their keys.
fn gather(p: &Vec<(LuaTree, LuaTree)>, vals: Vec<Json>) -> (m: TextMap<Json>)
    requires
        vals@.len() == p@.len(),
    ensures
        fields(m) == insert_all(key_texts(p@), views(vals@), p@.len() as int),
{
    let mut vals = vals;
    let ghost given = vals@;
    let mut m: TextMap<Json> = TextMap::new();
    let mut i: usize = 0;
    proof {
        assert(fields(m) =~= Map::<Seq<char>, JsonView>::empty());
    }
    while i < p.len()
        invariant
            i <= p@.len(),
            vals@.len() == given.len() == p@.len(),
            forall|j: int| i <= j < p@.len() ==> vals@[j] == given[j],
            fields(m) == insert_all(key_texts(p@), views(given), i as int),
        decreases p@.len() - i,
    {
        let mut v: Json = Json::Null;
        std::mem::swap(&mut v, &mut vals[i]);
        let ghost before = fields(m);
        let ghost said = v@;
        m.insert(key_to_string(&p[i].0), v);
        proof {
            assert(said == given[i as int]@);
            assert(fields(m) =~= before.insert(key_text(p@[i as int].0), said));
        }
        i = i + 1;
    }
    m
}

/// What a table with the pairs `p` says, where `vals` is what their values say.
fn table_to_json(p: &Vec<(LuaTree, LuaTree)>, vals: Vec<Json>) -> (j: Json)
    requires
        vals@.len() == p@.len(),
    ensures
        j@ == pairs_json(p@, views(vals@)),
{
    let ghost given = vals@;
    match list_slots(p) {
        Some(slots) => {
            proof {
                assert forall|a: int, b: int| 0 <= a < b < slots@.len() implies #[trigger] slots@[a]
                    != #[trigger] slots@[b] by {
                    lemma_first_at(key_ints(p@), Some(a + 1));
                    lemma_first_at(key_ints(p@), Some(b + 1));
                    assert(slots@[a] == int_at(p@, a + 1));
                    assert(slots@[b] == int_at(p@, b + 1));
                }
            }
            let arr = arrange(vals, &slots);
            proof {
                lemma_arr_view(arr);
                assert(views(arr@) =~= Seq::new(
                    p@.len(),
                    |i: int| views(given)[int_at(p@, i + 1)],
                )) by {
                    assert forall|i: int| 0 <= i < p@.len() implies #[trigger] views(arr@)[i]
                        == views(given)[int_at(p@, i + 1)] by {
                        assert(slots@[i] == int_at(p@, i + 1));
                        assert(arr@[i]@ == given[slots@[i] as int]@);
                    }
                }
            }
            Json::Arr(arr)
        },
        None => {
            let m = gather(p, vals);
            proof {
                lemma_obj_view(m);
            }
            Json::Obj(m)
        },
    }
}

/// What a Lua value says in JSON. It stands at `depth`; where something in it stands
/// more than 256 deep, it is refused.
pub fn lua_to_json(v: &LuaTree, depth: usize) -> (r: Result<Json, String>)
    ensures
        match r {
            Ok(j) => fits(*v, depth as int) && j@ == tree_json(*v),
            Err(e) => !fits(*v, depth as int) && e@ == too_deep(),
        },
    decreases v,
{
    if depth > MAX_DEPTH {
        return Err(too_deep_text());
    }
    match v {
        LuaTree::Nil => Ok(Json::Null),
        LuaTree::Boolean(b) => Ok(Json::Bool(*b)),
        LuaTree::Integer(n) => Ok(Json::Int(*n)),
        LuaTree::Number(bits) => if finite(*bits) {
            Ok(Json::Float(*bits))
        } else {
            Ok(Json::Null)
        },
        LuaTree::Text(bytes) => Ok(Json::Str(lossy_text(bytes))),
        LuaTree::Table(p) => {
            let mut vals: Vec<Json> = Vec::new();
            let mut i: usize = 0;
            while i < p.len()
                invariant
                    *v == LuaTree::Table(*p),
                    depth <= MAX_DEPTH,
                    i <= p@.len(),
                    vals@.len() == i,
                    forall|j: int| 0 <= j < i ==> fits((#[trigger] p@[j]).1, depth + 1),
                    forall|j: int| 0 <= j < i ==> (#[trigger] vals@[j])@ == tree_json(p@[j].1),
                decreases p@.len() - i,
            {
                proof {
                    assert(decreases_to!(*v => v->Table_0));
                    assert(decreases_to!(*p => p@[i as int]));
                }
                match lua_to_json(&p[i].1, depth + 1) {
                    Ok(j) => vals.push(j),
                    Err(e) => {
                        proof {
                            assert(!fits(p@[i as int].1, depth + 1));
                        }
                        return Err(e);
                    },
                }
                i = i + 1;
            }
            proof {
                lemma_table_json(*p);
                assert(views(vals@) =~= values_json(p@));
            }
            Ok(table_to_json(p, vals))
        },
        LuaTree::Other => Ok(Json::Null),
    }
}

// ---------------------------------------------------------------------------
// The export
// ---------------------------------------------------------------------------

/// One stream: its schema version, and its entries, oldest first.
#[derive(Debug)]
pub struct ParsedStream {
    pub schema: i64,
    pub entries: Vec<Json>,
}

/// What a stream says.
pub struct StreamView {
    pub schema: i64,
    pub entries: Seq<JsonView>,
}

impl View for ParsedStream {
    type V = StreamView;

    open spec fn view(&self) -> StreamView {
        StreamView { schema: self.schema, entries: views(self.entries@) }
    }
}

/// The durable counter of a stream: the highest number ever given to a record, and the
/// lowest that was not deleted on purpose.
#[derive(Debug, Clone, Copy, PartialEq, Eq, Structural)]
pub struct StreamMeta {
    pub seq: i64,
    pub base: i64,
}

/// The export of one addon.
#[derive(Debug)]
pub struct SvExport {
    pub producer_build: Option<String>,
    pub format_version: Option<i64>,
    pub schema_version: Option<i64>,
    pub registry_version: Option<i64>,
    pub generated_at: Option<i64>,
    /// All of `_format`. Empty where there is none.
    pub format: TextMap<Json>,
    /// All of `_registry`, domain by domain.
    pub registry: TextMap<Json>,
    /// The records of `db.items`, each with its key as `id`.
    pub db_items: Vec<Json>,
    /// The records of `sessions`, each with its key as `sid`.
    pub sessions: Vec<Json>,
    pub streams: TextMap<ParsedStream>,
    pub stream_meta: TextMap<StreamMeta>,
}

impl Default for SvExport {
    fn default() -> (x: Self)
        ensures
            x.producer_build is None,
            x.format_version is None,
            x.schema_version is None,
            x.registry_version is None,
            x.generated_at is None,
            x.format@ == Map::<Seq<char>, Json>::empty(),
            x.registry@ == Map::<Seq<char>, Json>::empty(),
            x.db_items@.len() == 0,
            x.sessions@.len() == 0,
            x.streams@ == Map::<Seq<char>, ParsedStream>::empty(),
            x.stream_meta@ == Map::<Seq<char>, StreamMeta>::empty(),
    {
        SvExport {
            producer_build: None,
            format_version: None,
            schema_version: None,
            registry_version: None,
            generated_at: None,
            format: TextMap::new(),
            registry: TextMap::new(),
            db_items: Vec::new(),
            sessions: Vec::new(),
            streams: TextMap::new(),
            stream_meta: TextMap::new(),
        }
    }
}

/// What a map of streams says.
pub open spec fn streams_said(m: TextMap<ParsedStream>) -> Map<Seq<char>, StreamView> {
    Map::new(|k: Seq<char>| m@.contains_key(k), |k: Seq<char>| m@[k]@)
}

/// The `_format` table as it was read. Strings and integers are as Lua converts them.
#[derive(Debug)]
pub struct RawFormat {
    pub pairs: Vec<(LuaTree, LuaTree)>,
    pub producer_build: Option<String>,
    pub format_version: Option<i64>,
    pub schema_version: Option<i64>,
    pub registry_version: Option<i64>,
    pub generated_at: Option<i64>,
    /// The schema versions in `_format.streams`, by stream, where they state one.
    pub schemas: Vec<(LuaTree, Option<i64>)>,
}

/// One table of `streams` as it was read: its key, its `schema`, and the list in it.
#[derive(Debug)]
pub struct RawStream {
    pub name: LuaTree,
    pub schema: LuaTree,
    pub entries: Vec<LuaTree>,
}

/// One table of `_streamMeta` as it was read.
#[derive(Debug)]
pub struct RawMeta {
    pub name: LuaTree,
    pub seq: LuaTree,
    pub base: LuaTree,
}

/// The parts of an export global that matter, as they were read.
#[derive(Debug)]
pub struct RawExport {
    pub format: Option<RawFormat>,
    pub sessions: Vec<(LuaTree, LuaTree)>,
    pub registry: Vec<(LuaTree, LuaTree)>,
    pub items: Vec<(LuaTree, LuaTree)>,
    pub streams: Vec<RawStream>,
    pub stream_meta: Vec<RawMeta>,
}

/// A record as an object: any other value goes under `value`.
pub open spec fn as_record(j: JsonView) -> Map<Seq<char>, JsonView> {
    match j {
        JsonView::Obj(m) => m,
        _ => Map::<Seq<char>, JsonView>::empty().insert("value"@, j),
    }
}

/// `m` with the value `v` under `k`, unless there is one.
pub open spec fn filled(
    m: Map<Seq<char>, JsonView>,
    k: Seq<char>,
    v: JsonView,
) -> Map<Seq<char>, JsonView> {
    if m.contains_key(k) {
        m
    } else {
        m.insert(k, v)
    }
}

/// The record of a session: its key rides along as `sid`.
pub open spec fn session_record(k: LuaTree, v: LuaTree) -> JsonView {
    JsonView::Obj(filled(as_record(tree_json(v)), "sid"@, JsonView::Str(key_text(k))))
}

/// The record of a learned item: its key, where it is an integer, rides along as `id`.
pub open spec fn item_record(k: LuaTree, v: LuaTree) -> JsonView {
    match key_int(k) {
        Some(id) => JsonView::Obj(filled(as_record(tree_json(v)), "id"@, JsonView::Int(id as int))),
        None => JsonView::Obj(as_record(tree_json(v))),
    }
}

/// Whether nothing in the values of `p` stands too deep.
pub open spec fn pairs_fit(p: Seq<(LuaTree, LuaTree)>) -> bool {
    forall|i: int| 0 <= i < p.len() ==> fits((#[trigger] p[i]).1, 0)
}

/// The schema versions that the first `n` of `schemas` state, by stream: where a name
/// comes twice, the last counts.
pub open spec fn schemas_among(schemas: Seq<(LuaTree, Option<i64>)>, n: int) -> Map<
    Seq<char>,
    i64,
>
    decreases n,
{
    if n <= 0 {
        Map::empty()
    } else {
        let before = schemas_among(schemas, n - 1);
        match schemas[n - 1].1 {
            Some(v) => before.insert(key_text(schemas[n - 1].0), v),
            None => before,
        }
    }
}

/// The schema versions by stream.
pub open spec fn schema_map(schemas: Seq<(LuaTree, Option<i64>)>) -> Map<Seq<char>, i64> {
    schemas_among(schemas, schemas.len() as int)
}

/// The schema version of the stream `name` where it states none itself.
pub open spec fn default_schema(schemas: Map<Seq<char>, i64>, name: Seq<char>) -> i64 {
    if schemas.contains_key(name) {
        schemas[name]
    } else {
        1
    }
}

/// What a stream says, given the schema version it has by default.
pub open spec fn stream_said(raw: RawStream, default: i64) -> StreamView {
    StreamView {
        schema: match scalar_int(raw.schema) {
            Some(n) => n,
            None => default,
        },
        entries: Seq::new(raw.entries@.len(), |i: int| tree_json(raw.entries@[i])),
    }
}

/// The counter of a stream. Nothing was numbered, and nothing deleted, unless it says so.
pub open spec fn meta_said(raw: RawMeta) -> StreamMeta {
    StreamMeta {
        seq: match scalar_int(raw.seq) {
            Some(n) => n,
            None => 0,
        },
        base: match scalar_int(raw.base) {
            Some(n) => n,
            None => 1,
        },
    }
}

/// The names of a row of streams.
pub open spec fn stream_names(raws: Seq<RawStream>) -> Seq<Seq<char>> {
    Seq::new(raws.len(), |i: int| key_text(raws[i].name))
}

/// What a row of streams says.
pub open spec fn all_streams_said(raws: Seq<RawStream>, schemas: Map<Seq<char>, i64>) -> Map<
    Seq<char>,
    StreamView,
> {
    insert_all(
        stream_names(raws),
        Seq::new(
            raws.len(),
            |i: int| stream_said(raws[i], default_schema(schemas, key_text(raws[i].name))),
        ),
        raws.len() as int,
    )
}

/// What a row of counters says.
pub open spec fn all_meta_said(raws: Seq<RawMeta>) -> Map<Seq<char>, StreamMeta> {
    insert_all(
        Seq::new(raws.len(), |i: int| key_text(raws[i].name)),
        Seq::new(raws.len(), |i: int| meta_said(raws[i])),
        raws.len() as int,
    )
}

/// Whether nothing in a row of streams stands too deep.
pub open spec fn streams_fit(raws: Seq<RawStream>) -> bool {
    forall|i: int, j: int|
        0 <= i < raws.len() && 0 <= j < raws[i].entries@.len() ==> fits(
            #[trigger] raws[i].entries@[j],
            0,
        )
}

/// Whether nothing in an export stands too deep.
pub open spec fn raw_fits(raw: RawExport) -> bool {
    &&& raw.format matches Some(f) ==> fits(LuaTree::Table(f.pairs), 0)
    &&& pairs_fit(raw.sessions@)
    &&& pairs_fit(raw.registry@)
    &&& pairs_fit(raw.items@)
    &&& streams_fit(raw.streams@)
}

/// The schema versions that an export states in `_format`.
pub open spec fn raw_schemas(raw: RawExport) -> Map<Seq<char>, i64> {
    match raw.format {
        Some(f) => schema_map(f.schemas@),
        None => Map::empty(),
    }
}

/// Whether `x` says what `raw` says.
pub open spec fn export_said(raw: RawExport, x: SvExport) -> bool {
    &&& match raw.format {
        Some(f) => {
            &&& x.producer_build == (if f.producer_build is Some && f.producer_build->0@.len() > 0 {
                f.producer_build
            } else {
                None
            })
            &&& x.format_version == f.format_version
            &&& x.schema_version == f.schema_version
            &&& x.registry_version == f.registry_version
            &&& x.generated_at == f.generated_at
            &&& fields(x.format) == match tree_json(LuaTree::Table(f.pairs)) {
                JsonView::Obj(m) => m,
                _ => Map::empty(),
            }
        },
        None => {
            &&& x.producer_build is None
            &&& x.format_version is None
            &&& x.schema_version is None
            &&& x.registry_version is None
            &&& x.generated_at is None
            &&& fields(x.format) == Map::<Seq<char>, JsonView>::empty()
        },
    }
    &&& views(x.sessions@) == Seq::new(
        raw.sessions@.len(),
        |i: int| session_record(raw.sessions@[i].0, raw.sessions@[i].1),
    )
    &&& fields(x.registry) == insert_all(
        key_texts(raw.registry@),
        values_json(raw.registry@),
        raw.registry@.len() as int,
    )
    &&& views(x.db_items@) == Seq::new(
        raw.items@.len(),
        |i: int| item_record(raw.items@[i].0, raw.items@[i].1),
    )
    &&& streams_said(x.streams) == all_streams_said(raw.streams@, raw_schemas(raw))
    &&& x.stream_meta@ == all_meta_said(raw.stream_meta@)
}

/// A record as an object.
fn record_of(j: Json) -> (m: TextMap<Json>)
    ensures
        fields(m) == as_record(j@),
{
    match j {
        Json::Obj(m) => {
            proof {
                lemma_obj_view(m);
            }
            m
        },
        other => {
            let mut m: TextMap<Json> = TextMap::new();
            let ghost said = other@;
            m.insert("value".to_string(), other);
            proof {
                assert(fields(m) =~= Map::<Seq<char>, JsonView>::empty().insert("value"@, said));
            }
            m
        },
    }
}

/// A record as JSON, with the value `v` under `k` unless there is one.
fn fill(j: Json, k: &str, v: Json) -> (r: Json)
    ensures
        r@ == JsonView::Obj(filled(as_record(j@), k@, v@)),
{
    let mut m = record_of(j);
    let ghost before = fields(m);
    let ghost said = v@;
    m.insert_if_absent(k.to_string(), v);
    proof {
        assert(fields(m) =~= filled(before, k@, said));
        lemma_obj_view(m);
    }
    Json::Obj(m)
}

/// The records of the sessions in `p`.
fn session_records(p: &Vec<(LuaTree, LuaTree)>) -> (r: Result<Vec<Json>, String>)
    ensures
        match r {
            Ok(out) => pairs_fit(p@) && views(out@) == Seq::new(
                p@.len(),
                |i: int| session_record(p@[i].0, p@[i].1),
            ),
            Err(e) => !pairs_fit(p@) && e@ == too_deep(),
        },
{
    let mut out: Vec<Json> = Vec::new();
    let mut i: usize = 0;
    while i < p.len()
        invariant
            i <= p@.len(),
            out@.len() == i,
            forall|j: int| 0 <= j < i ==> fits((#[trigger] p@[j]).1, 0),
            forall|j: int|
                0 <= j < i ==> (#[trigger] out@[j])@ == session_record(p@[j].0, p@[j].1),
        decreases p@.len() - i,
    {
        match lua_to_json(&p[i].1, 0) {
            Ok(j) => out.push(fill(j, "sid", Json::Str(key_to_string(&p[i].0)))),
            Err(e) => return Err(e),
        }
        i = i + 1;
    }
    proof {
        assert(views(out@) =~= Seq::new(p@.len(), |i: int| session_record(p@[i].0, p@[i].1)));
    }
    Ok(out)
}

/// The records of the learned items in `p`.
fn item_records(p: &Vec<(LuaTree, LuaTree)>) -> (r: Result<Vec<Json>, String>)
    ensures
        match r {
            Ok(out) => pairs_fit(p@) && views(out@) == Seq::new(
                p@.len(),
                |i: int| item_record(p@[i].0, p@[i].1),
            ),
            Err(e) => !pairs_fit(p@) && e@ == too_deep(),
        },
{
    let mut out: Vec<Json> = Vec::new();
    let mut i: usize = 0;
    while i < p.len()
        invariant
            i <= p@.len(),
            out@.len() == i,
            forall|j: int| 0 <= j < i ==> fits((#[trigger] p@[j]).1, 0),
            forall|j: int| 0 <= j < i ==> (#[trigger] out@[j])@ == item_record(p@[j].0, p@[j].1),
        decreases p@.len() - i,
    {
        match lua_to_json(&p[i].1, 0) {
            Ok(j) => match key_as_int(&p[i].0) {
                Some(id) => out.push(fill(j, "id", Json::Int(id))),
                None => {
                    let m = record_of(j);
                    proof {
                        lemma_obj_view(m);
                    }
                    out.push(Json::Obj(m))
                },
            },
            Err(e) => return Err(e),
        }
        i = i + 1;
    }
    proof {
        assert(views(out@) =~= Seq::new(p@.len(), |i: int| item_record(p@[i].0, p@[i].1)));
    }
    Ok(out)
}

/// The domains of the registry in `p`, each as it stands.
fn registry_domains(p: &Vec<(LuaTree, LuaTree)>) -> (r: Result<TextMap<Json>, String>)
    ensures
        match r {
            Ok(m) => pairs_fit(p@) && fields(m) == insert_all(
                key_texts(p@),
                values_json(p@),
                p@.len() as int,
            ),
            Err(e) => !pairs_fit(p@) && e@ == too_deep(),
        },
{
    let mut vals: Vec<Json> = Vec::new();
    let mut i: usize = 0;
    while i < p.len()
        invariant
            i <= p@.len(),
            vals@.len() == i,
            forall|j: int| 0 <= j < i ==> fits((#[trigger] p@[j]).1, 0),
            forall|j: int| 0 <= j < i ==> (#[trigger] vals@[j])@ == tree_json(p@[j].1),
        decreases p@.len() - i,
    {
        match lua_to_json(&p[i].1, 0) {
            Ok(j) => vals.push(j),
            Err(e) => return Err(e),
        }
        i = i + 1;
    }
    proof {
        assert(views(vals@) =~= values_json(p@));
    }
    Ok(gather(p, vals))
}

/// One stream: its entries in order, and its schema version.
pub fn parse_stream(raw: &RawStream, schema_default: i64) -> (r: Result<ParsedStream, String>)
    ensures
        match r {
            Ok(s) => s@ == stream_said(*raw, schema_default) && forall|i: int|
                0 <= i < raw.entries@.len() ==> fits(#[trigger] raw.entries@[i], 0),
            Err(e) => e@ == too_deep() && exists|i: int|
                0 <= i < raw.entries@.len() && !fits(#[trigger] raw.entries@[i], 0),
        },
{
    let schema: i64 = match value_as_int(&raw.schema) {
        Some(n) => n,
        None => schema_default,
    };
    let mut entries: Vec<Json> = Vec::new();
    let mut i: usize = 0;
    while i < raw.entries.len()
        invariant
            i <= raw.entries@.len(),
            entries@.len() == i,
            forall|j: int| 0 <= j < i ==> fits(#[trigger] raw.entries@[j], 0),
            forall|j: int| 0 <= j < i ==> (#[trigger] entries@[j])@ == tree_json(raw.entries@[j]),
        decreases raw.entries@.len() - i,
    {
        match lua_to_json(&raw.entries[i], 0) {
            Ok(j) => entries.push(j),
            Err(e) => {
                proof {
                    assert(!fits(raw.entries@[i as int], 0));
                }
                return Err(e);
            },
        }
        i = i + 1;
    }
    let s = ParsedStream { schema, entries };
    proof {
        assert(s@.entries =~= stream_said(*raw, schema_default).entries);
    }
    Ok(s)
}

/// The schema versions in `_format.streams`, by stream.
fn schema_defaults(schemas: &Vec<(LuaTree, Option<i64>)>) -> (m: TextMap<i64>)
    ensures
        m@ == schema_map(schemas@),
{
    let mut m: TextMap<i64> = TextMap::new();
    let mut i: usize = 0;
    while i < schemas.len()
        invariant
            i <= schemas@.len(),
            m@ == schemas_among(schemas@, i as int),
        decreases schemas@.len() - i,
    {
        if let Some(v) = schemas[i].1 {
            m.insert(key_to_string(&schemas[i].0), v);
        }
        i = i + 1;
    }
    m
}

/// The streams in `raws`.
fn parse_streams(raws: &Vec<RawStream>, defaults: &TextMap<i64>) -> (r: Result<
    TextMap<ParsedStream>,
    String,
>)
    ensures
        match r {
            Ok(m) => streams_fit(raws@) && streams_said(m) == all_streams_said(raws@, defaults@),
            Err(e) => !streams_fit(raws@) && e@ == too_deep(),
        },
{
    let ghost names = stream_names(raws@);
    let ghost said = Seq::new(
        raws@.len(),
        |i: int| stream_said(raws@[i], default_schema(defaults@, key_text(raws@[i].name))),
    );
    let mut m: TextMap<ParsedStream> = TextMap::new();
    let mut i: usize = 0;
    proof {
        assert(streams_said(m) =~= Map::<Seq<char>, StreamView>::empty());
    }
    while i < raws.len()
        invariant
            i <= raws@.len(),
            names == stream_names(raws@),
            said == Seq::new(
                raws@.len(),
                |i: int| stream_said(raws@[i], default_schema(defaults@, key_text(raws@[i].name))),
            ),
            forall|a: int, b: int|
                0 <= a < i && 0 <= b < raws@[a].entries@.len() ==> fits(
                    #[trigger] raws@[a].entries@[b],
                    0,
                ),
            streams_said(m) == insert_all(names, said, i as int),
        decreases raws@.len() - i,
    {
        let name: String = key_to_string(&raws[i].name);
        let default: i64 = match defaults.get(name.as_str()) {
            Some(n) => *n,
            None => 1,
        };
        let parsed: ParsedStream = match parse_stream(&raws[i], default) {
            Ok(s) => s,
            Err(e) => {
                proof {
                    let b = choose|b: int|
                        0 <= b < raws@[i as int].entries@.len() && !fits(
                            #[trigger] raws@[i as int].entries@[b],
                            0,
                        );
                    assert(!fits(raws@[i as int].entries@[b], 0));
                }
                return Err(e);
            },
        };
        let ghost before = streams_said(m);
        let ghost view = parsed@;
        let ghost key = name@;
        m.insert(name, parsed);
        proof {
            assert(streams_said(m) =~= before.insert(key, view));
            assert(view == said[i as int]);
        }
        i = i + 1;
    }
    Ok(m)
}

/// The counters in `raws`.
fn parse_meta(raws: &Vec<RawMeta>) -> (m: TextMap<StreamMeta>)
    ensures
        m@ == all_meta_said(raws@),
{
    let ghost names = Seq::new(raws@.len(), |i: int| key_text(raws@[i].name));
    let ghost said = Seq::new(raws@.len(), |i: int| meta_said(raws@[i]));
    let mut m: TextMap<StreamMeta> = TextMap::new();
    let mut i: usize = 0;
    while i < raws.len()
        invariant
            i <= raws@.len(),
            names == Seq::new(raws@.len(), |i: int| key_text(raws@[i].name)),
            said == Seq::new(raws@.len(), |i: int| meta_said(raws@[i])),
            m@ == insert_all(names, said, i as int),
        decreases raws@.len() - i,
    {
        let seq: i64 = match value_as_int(&raws[i].seq) {
            Some(n) => n,
            None => 0,
        };
        let base: i64 = match value_as_int(&raws[i].base) {
            Some(n) => n,
            None => 1,
        };
        m.insert(key_to_string(&raws[i].name), StreamMeta { seq, base });
        i = i + 1;
    }
    m
}

/// The export that was read as `raw`. Where something in it stands more than 256 deep,
/// it is refused.
pub fn export_of(raw: RawExport) -> (r: Result<SvExport, String>)
    ensures
        match r {
            Ok(x) => raw_fits(raw) && export_said(raw, x),
            Err(e) => !raw_fits(raw) && e@ == too_deep(),
        },
{
    let mut out = SvExport::default();
    proof {
        assert(fields(out.format) =~= Map::<Seq<char>, JsonView>::empty());
    }
    let ghost given = raw;
    let mut defaults: TextMap<i64> = TextMap::new();
    if let Some(f) = raw.format {
        out.producer_build =
        match f.producer_build {
            Some(b) => if b.as_str().is_empty() {
                None
            } else {
                Some(b)
            },
            None => None,
        };
        out.format_version = f.format_version;
        out.schema_version = f.schema_version;
        out.registry_version = f.registry_version;
        out.generated_at = f.generated_at;
        defaults = schema_defaults(&f.schemas);
        match lua_to_json(&LuaTree::Table(f.pairs), 0) {
            Ok(Json::Obj(m)) => {
                proof {
                    lemma_obj_view(m);
                }
                out.format = m;
            },
            Ok(_) => {},
            Err(e) => return Err(e),
        }
    }
    match session_records(&raw.sessions) {
        Ok(v) => out.sessions = v,
        Err(e) => return Err(e),
    }
    match registry_domains(&raw.registry) {
        Ok(m) => out.registry = m,
        Err(e) => return Err(e),
    }
    match item_records(&raw.items) {
        Ok(v) => out.db_items = v,
        Err(e) => return Err(e),
    }
    match parse_streams(&raw.streams, &defaults) {
        Ok(m) => out.streams = m,
        Err(e) => return Err(e),
    }
    out.stream_meta = parse_meta(&raw.stream_meta);
    proof {
        assert(defaults@ == raw_schemas(given));
    }
    Ok(out)
}

/// How much memory a file may take up: one gibibyte.
pub const MAX_MEMORY: usize = 0x4000_0000;

/// Whether `lua` is a state that was given `src` to run as its only chunk, named after the
/// global, with its memory limited where it can be.
pub open spec fn has_run(lua: mlua::Lua, src: Seq<u8>, global: Seq<char>) -> bool {
    &&& chunks_run(lua) == seq![(src, global)]
    &&& limits_memory(lua) ==> memory_cap(lua) == Some(MAX_MEMORY)
}

/// Whether `x` is the export global `global` after `src` was run.
pub open spec fn parsed_from(
    src: Seq<u8>,
    global: Seq<char>,
    lua: mlua::Lua,
    root: mlua::Table,
    raw: RawExport,
    x: SvExport,
) -> bool {
    &&& has_run(lua, src, global)
    &&& run_error(lua) is None
    &&& holds_at(globals_of(lua), global, LuaView::Table(root))
    &&& export_read(table_entries(root), raw)
    &&& export_said(raw, x)
}

/// Whether running `src` ended with the error `e`.
pub open spec fn ended_with(src: Seq<u8>, global: Seq<char>, lua: mlua::Lua, e: Seq<char>) -> bool {
    has_run(lua, src, global) && run_error(lua) == Some(e)
}

/// Whether the global is no table after `src` was run.
pub open spec fn global_is_no_table(src: Seq<u8>, global: Seq<char>, lua: mlua::Lua) -> bool {
    &&& has_run(lua, src, global)
    &&& run_error(lua) is None
    &&& exists|v: LuaView| #[trigger] holds_at(globals_of(lua), global, v) && !(v is Table)
}

/// Whether the global is a table after `src` was run, and something in it stands too deep.
pub open spec fn global_is_too_deep(
    src: Seq<u8>,
    global: Seq<char>,
    lua: mlua::Lua,
    root: mlua::Table,
) -> bool {
    &&& has_run(lua, src, global)
    &&& run_error(lua) is None
    &&& holds_at(globals_of(lua), global, LuaView::Table(root))
    &&& export_deep(table_entries(root))
}

/// What is said of a file that is not plain data.
pub open spec fn not_data(global: Seq<char>) -> Seq<char> {
    "eval "@ + global + ": "@ + "the file loops or calls a function, which no data does"@
}

/// What can be said when there is no export: the file is not plain data, running it ended
/// with an error, Lua failed to read a table that it left behind, or the global is no table,
/// or nests too deep.
pub open spec fn parse_failed(src: Seq<u8>, global: Seq<char>, e: Seq<char>) -> bool {
    if !is_data(src) {
        e == not_data(global)
    } else {
        ||| exists|lua: mlua::Lua, m: Seq<char>| #[trigger]
            ended_with(src, global, lua, m) && e == "eval "@ + global + ": "@ + m
        ||| lua_failed(Some((src, global)), e)
        ||| e == "global "@ + global + " is not a table (empty SV?)"@ && exists|
            lua: mlua::Lua,
        | #[trigger]
            global_is_no_table(src, global, lua)
        ||| e == too_deep() && exists|lua: mlua::Lua, root: mlua::Table| #[trigger]
            global_is_too_deep(src, global, lua, root)
    }
}

/// The export global `global` of the SavedVariables file `src`. The file is data that is
/// written as Lua: one that loops or calls anything is refused, and the others are run where
/// they reach no library at all, not even the basic one.
pub fn parse_export_str(src: &[u8], global: &str) -> (r: Result<SvExport, String>)
    ensures
        match r {
            Ok(x) => is_data(src@) && exists|
                lua: mlua::Lua,
                root: mlua::Table,
                raw: RawExport,
            | #[trigger]
                parsed_from(src@, global@, lua, root, raw, x),
            Err(e) => parse_failed(src@, global@, e@),
        },
{
    if !plain_data(src) {
        return Err(
            join4("eval ", global, ": ", "the file loops or calls a function, which no data does"),
        );
    }
    let mut lua: mlua::Lua = match new_state() {
        Ok(l) => l,
        Err(e) => return Err(join2("lua init: ", error_text(&e).as_str())),
    };
    let _ = limit_memory(&mut lua, MAX_MEMORY);
    let globals: mlua::Table = match run_chunk(&mut lua, src, global) {
        Ok(t) => t,
        Err(e) => {
            let m = error_text(&e);
            proof {
                assert(ended_with(src@, global@, lua, m@));
            }
            return Err(join4("eval ", global, ": ", m.as_str()));
        },
    };
    let root: mlua::Table = match table_field(&lua, &globals, global) {
        Ok(Some(t)) => t,
        Ok(None) => {
            proof {
                assert(global_is_no_table(src@, global@, lua));
            }
            return Err(join3("global ", global, " is not a table (empty SV?)"));
        },
        Err(e) => return Err(e),
    };
    let raw = match read_export(&lua, &root) {
        Ok(raw) => raw,
        Err(e) => {
            proof {
                if !lua_failed(Some((src@, global@)), e@) {
                    assert(global_is_too_deep(src@, global@, lua, root));
                }
            }
            return Err(e);
        },
    };
    let ghost said = raw;
    match export_of(raw) {
        Ok(x) => {
            proof {
                assert(parsed_from(src@, global@, lua, root, said, x));
            }
            Ok(x)
        },
        Err(e) => Err(e),
    }
}

// ---------------------------------------------------------------------------
// Nothing is lost
// ---------------------------------------------------------------------------

/// Whether a value is one that JSON has a form for by itself: nil, a boolean, an integer
/// or a finite float.
pub open spec fn is_plain_scalar(t: LuaTree) -> bool {
    match t {
        LuaTree::Nil => true,
        LuaTree::Boolean(_) => true,
        LuaTree::Integer(_) => true,
        LuaTree::Number(bits) => is_finite(bits),
        _ => false,
    }
}

/// A Lua scalar that JSON can say is carried over without loss: both booleans, every
/// integer and every finite float come out as the same JSON value, nil as `null`, and two
/// different ones never come out the same.
pub proof fn law_scalars_are_carried_over(a: LuaTree, b: LuaTree)
    requires
        is_plain_scalar(a),
        is_plain_scalar(b),
    ensures
        tree_json(a) == tree_json(b) ==> a == b,
        a matches LuaTree::Boolean(x) ==> tree_json(a) == JsonView::Bool(x),
        a matches LuaTree::Integer(n) ==> tree_json(a) == JsonView::Int(n as int),
        a matches LuaTree::Number(bits) ==> tree_json(a) == JsonView::Float(bits),
        a is Nil <==> tree_json(a) == JsonView::Null,
{
}

/// Text stays text, whatever bytes it holds: it is never taken for a number, a boolean or
/// nothing, and two texts come out the same only where they decode to the same.
pub proof fn law_text_stays_text(a: Vec<u8>, b: Vec<u8>, other: LuaTree)
    requires
        !(other is Text),
    ensures
        tree_json(LuaTree::Text(a)) is Str,
        tree_json(LuaTree::Text(a)) != tree_json(other),
        tree_json(LuaTree::Text(a)) == tree_json(LuaTree::Text(b)) <==> lossy_decode(a@)
            == lossy_decode(b@),
        key_text(LuaTree::Text(a)) == lossy_decode(a@),
        tree_json(LuaTree::Text(a)) == JsonView::Str(key_text(LuaTree::Text(a))),
{
}

/// Keys are told apart: an integer is written as the numeral that reads back as it, a
/// float without a fraction as the integer that it is, and the two booleans differ from
/// each other and from every integer.
pub proof fn law_keys_are_told_apart(n: i64, m: i64, bits: u64, b: bool)
    ensures
        i64_of(key_text(LuaTree::Integer(n))) == Some(n),
        n != m ==> key_text(LuaTree::Integer(n)) != key_text(LuaTree::Integer(m)),
        is_finite(bits) && is_whole(bits) && whole_part(bits) == n ==> key_text(
            LuaTree::Number(bits),
        ) == key_text(LuaTree::Integer(n)) && key_int(LuaTree::Number(bits)) == Some(n),
        key_int(LuaTree::Integer(n)) == Some(n),
        is_finite(bits) && !is_whole(bits) ==> key_int(LuaTree::Number(bits)) is None,
        key_text(LuaTree::Boolean(true)) != key_text(LuaTree::Boolean(false)),
        key_text(LuaTree::Boolean(b)) != key_text(LuaTree::Integer(n)),
        key_int(LuaTree::Boolean(b)) is None,
{
    law_numeral_round_trip(n);
    law_numeral_round_trip(m);
    reveal_strlit("true");
    reveal_strlit("false");
    law_only_digits_are_numbers("true"@);
    law_only_digits_are_numbers("false"@);
    assert(!is_digit("true"@[1]));
    assert(!is_digit("false"@[1]));
    assert("true"@.drop_first()[0] == 'r');
    assert("false"@.drop_first()[0] == 'a');
    assert(i64_of("true"@) is None);
    assert(i64_of("false"@) is None);
}

/// The keys of a list are the integers from 1 to their number, each of them once.
proof fn lemma_list_keys(p: Seq<(LuaTree, LuaTree)>)
    requires
        is_list(p),
    ensures
        forall|i: int|
            0 <= i < p.len() ==> key_int((#[trigger] p[i]).0) is Some && 1 <= key_int(p[i].0)->0
                <= p.len() && int_at(p, key_int(p[i].0)->0 as int) == i,
{
    let slots = Seq::new(p.len(), |i: int| int_at(p, i + 1));
    assert forall|i: int| 0 <= i < p.len() implies 0 <= #[trigger] slots[i] < p.len()
        && key_ints(p)[slots[i]] == Some(i + 1) by {
        lemma_first_at(key_ints(p), Some(i + 1));
        assert(int_at(p, i + 1) < p.len());
    }
    assert(slots.no_duplicates()) by {
        assert forall|i: int, j: int| 0 <= i < p.len() && 0 <= j < p.len() && i != j implies slots[i]
            != slots[j] by {
            assert(key_ints(p)[slots[i]] == Some(i + 1));
            assert(key_ints(p)[slots[j]] == Some(j + 1));
        }
    }
    slots.unique_seq_to_set();
    let all = vstd::set_lib::set_int_range(0, p.len() as int);
    vstd::set_lib::lemma_int_range(0, p.len() as int);
    assert(slots.to_set().subset_of(all));
    vstd::set_lib::lemma_subset_equality(slots.to_set(), all);
    assert forall|i: int| 0 <= i < p.len() implies key_int((#[trigger] p[i]).0) is Some && 1
        <= key_int(p[i].0)->0 <= p.len() && int_at(p, key_int(p[i].0)->0 as int) == i by {
        assert(all.contains(i));
        assert(slots.to_set().contains(i));
        let k = choose|k: int| 0 <= k < slots.len() && slots[k] == i;
        assert(key_ints(p)[slots[k]] == Some(k + 1));
    }
}

/// Whether one of the keys of `p` is the integer `n`.
pub open spec fn has_int_key(p: Seq<(LuaTree, LuaTree)>, n: int) -> bool {
    exists|i: int|
        0 <= i < p.len() && key_int((#[trigger] p[i]).0) is Some && key_int(p[i].0)->0 == n
}

/// Every value in a table is carried over, and finds its place by its key. A table is an
/// array exactly where each integer from 1 to the number of its pairs is one of its keys;
/// then the value at the key `n` is the `n`-th element. Any other is an object that has the
/// value of each key under that key, and nothing else.
pub proof fn law_table_values_are_carried_over(p: Vec<(LuaTree, LuaTree)>)
    requires
        keys_differ(p@),
    ensures
        match tree_json(LuaTree::Table(p)) {
            JsonView::Arr(a) => {
                &&& a.len() == p@.len()
                &&& forall|n: int| 1 <= n <= p@.len() ==> #[trigger] has_int_key(p@, n)
                &&& forall|i: int|
                    0 <= i < p@.len() ==> key_int((#[trigger] p@[i]).0) is Some && 1 <= key_int(
                        p@[i].0,
                    )->0 <= a.len() && a[key_int(p@[i].0)->0 - 1] == tree_json(p@[i].1)
            },
            JsonView::Obj(m) => {
                &&& exists|n: int| 1 <= n <= p@.len() && !#[trigger] has_int_key(p@, n)
                &&& forall|i: int|
                    0 <= i < p@.len() ==> m.contains_key(key_text((#[trigger] p@[i]).0)) && m[key_text(
                        p@[i].0,
                    )] == tree_json(p@[i].1)
                &&& forall|k: Seq<char>| #[trigger]
                    m.contains_key(k) ==> exists|i: int|
                        0 <= i < p@.len() && key_text((#[trigger] p@[i]).0) == k
            },
            _ => false,
        },
{
    lemma_table_json(p);
    let s = p@;
    let vals = values_json(s);
    if is_list(s) {
        lemma_list_keys(s);
        assert forall|n: int| 1 <= n <= s.len() implies #[trigger] has_int_key(s, n) by {
            lemma_first_at(key_ints(s), Some(n));
            let i = int_at(s, n);
            assert(i < s.len());
            assert(key_ints(s)[i] == Some(n));
            assert(key_int(s[i].0)->0 == n);
        }
        let a = tree_json(LuaTree::Table(p))->Arr_0;
        assert forall|i: int| 0 <= i < s.len() implies key_int((#[trigger] s[i]).0) is Some && 1
            <= key_int(s[i].0)->0 <= a.len() && a[key_int(s[i].0)->0 - 1] == tree_json(s[i].1) by {
            let n = key_int(s[i].0)->0 as int;
            assert(a[n - 1] == vals[int_at(s, n - 1 + 1)]);
        }
    } else {
        lemma_insert_all(key_texts(s), vals, s.len() as int);
        let n = choose|n: int| 1 <= n <= s.len() && !(#[trigger] int_at(s, n) < s.len());
        lemma_first_at(key_ints(s), Some(n));
        assert(!has_int_key(s, n)) by {
            if has_int_key(s, n) {
                let i = choose|i: int|
                    0 <= i < s.len() && key_int((#[trigger] s[i]).0) is Some && key_int(s[i].0)->0
                        == n;
                assert(key_ints(s)[i] == Some(n));
            }
        }
        let m = tree_json(LuaTree::Table(p))->Obj_0;
        assert forall|i: int| 0 <= i < s.len() implies m.contains_key(key_text((#[trigger] s[i]).0))
            && m[key_text(s[i].0)] == tree_json(s[i].1) by {
            assert(key_texts(s)[i] == key_text(s[i].0));
        }
        assert forall|k: Seq<char>| #[trigger] m.contains_key(k) implies exists|i: int|
            0 <= i < s.len() && key_text((#[trigger] s[i]).0) == k by {
            let i = choose|i: int| 0 <= i < s.len() && #[trigger] key_texts(s)[i] == k;
            assert(key_text(s[i].0) == k);
        }
    }
}

/// Whether `r` holds all the fields of `v` as they are, or `v` itself under `value` where
/// it is no object; and besides them nothing but, perhaps, the field `extra`.
pub open spec fn keeps_fields(v: JsonView, r: Map<Seq<char>, JsonView>, extra: Seq<char>) -> bool {
    match v {
        JsonView::Obj(m) => {
            &&& forall|k: Seq<char>| #[trigger] m.contains_key(k) ==> r.contains_key(k) && r[k] == m[k]
            &&& forall|k: Seq<char>| #[trigger] r.contains_key(k) && k != extra ==> m.contains_key(k)
        },
        _ => {
            &&& r.contains_key("value"@) && r["value"@] == v
            &&& forall|k: Seq<char>| #[trigger] r.contains_key(k) && k != extra ==> k == "value"@
        },
    }
}

/// Every session in the file is in the export, in the order in which it was read, with all
/// of its fields; its key rides along as `sid` unless it has one of its own.
pub proof fn law_every_session_is_kept(raw: RawExport, x: SvExport, i: int)
    requires
        export_said(raw, x),
        0 <= i < raw.sessions@.len(),
    ensures
        x.sessions@.len() == raw.sessions@.len(),
        x.sessions@[i]@ is Obj,
        keeps_fields(tree_json(raw.sessions@[i].1), x.sessions@[i]@->Obj_0, "sid"@),
        x.sessions@[i]@->Obj_0.contains_key("sid"@),
        !(tree_json(raw.sessions@[i].1) is Obj && tree_json(raw.sessions@[i].1)->Obj_0.contains_key(
            "sid"@,
        )) ==> x.sessions@[i]@->Obj_0["sid"@] == JsonView::Str(key_text(raw.sessions@[i].0)),
{
    assert(views(x.sessions@).len() == raw.sessions@.len());
    assert(views(x.sessions@)[i] == x.sessions@[i]@);
    reveal_strlit("sid");
    reveal_strlit("value");
    assert("sid"@.len() != "value"@.len());
}

/// Every learned item in the file is in the export, in the order in which it was read, with
/// all of its fields; its key rides along as `id` where it is an integer, unless the item
/// has one of its own.
pub proof fn law_every_item_is_kept(raw: RawExport, x: SvExport, i: int)
    requires
        export_said(raw, x),
        0 <= i < raw.items@.len(),
    ensures
        x.db_items@.len() == raw.items@.len(),
        x.db_items@[i]@ is Obj,
        keeps_fields(tree_json(raw.items@[i].1), x.db_items@[i]@->Obj_0, "id"@),
        raw.items@[i].0 matches LuaTree::Integer(n) ==> x.db_items@[i]@->Obj_0.contains_key("id"@)
            && (!(tree_json(raw.items@[i].1) is Obj && tree_json(
            raw.items@[i].1,
        )->Obj_0.contains_key("id"@)) ==> x.db_items@[i]@->Obj_0["id"@] == JsonView::Int(n as int)),
        key_int(raw.items@[i].0) is None ==> keeps_fields(
            tree_json(raw.items@[i].1),
            x.db_items@[i]@->Obj_0,
            "value"@,
        ),
{
    assert(views(x.db_items@).len() == raw.items@.len());
    assert(views(x.db_items@)[i] == x.db_items@[i]@);
    reveal_strlit("id");
    reveal_strlit("value");
    assert("id"@.len() != "value"@.len());
}

/// Every stream in the file is in the export under its name, with all of its entries in
/// their order and with the schema version that it states itself.
pub proof fn law_every_stream_is_kept(raw: RawExport, x: SvExport, i: int)
    requires
        export_said(raw, x),
        0 <= i < raw.streams@.len(),
        forall|a: int, b: int|
            0 <= a < b < raw.streams@.len() ==> key_text((#[trigger] raw.streams@[a]).name)
                != key_text((#[trigger] raw.streams@[b]).name),
    ensures
        ({
            let s = raw.streams@[i];
            let name = key_text(s.name);
            &&& x.streams@.contains_key(name)
            &&& x.streams@[name].entries@.len() == s.entries@.len()
            &&& forall|j: int|
                0 <= j < s.entries@.len() ==> (#[trigger] x.streams@[name].entries@[j])@ == tree_json(
                    s.entries@[j],
                )
            &&& s.schema matches LuaTree::Integer(n) ==> x.streams@[name].schema == n
            &&& s.schema is Nil && raw.format is None ==> x.streams@[name].schema == 1
        }),
{
    let schemas = raw_schemas(raw);
    let names = stream_names(raw.streams@);
    let said = Seq::new(
        raw.streams@.len(),
        |i: int|
            stream_said(
                raw.streams@[i],
                default_schema(schemas, key_text(raw.streams@[i].name)),
            ),
    );
    assert forall|a: int, b: int| 0 <= a < b < names.len() implies (#[trigger] names[a]) != (
    #[trigger] names[b]) by {
        assert(key_text(raw.streams@[a].name) != key_text(raw.streams@[b].name));
    }
    lemma_insert_all(names, said, raw.streams@.len() as int);
    let name = names[i];
    let m = streams_said(x.streams);
    assert(m.contains_key(name));
    assert(m[name] == said[i]);
    assert(m[name] == x.streams@[name]@);
    let e = x.streams@[name].entries@;
    assert(x.streams@[name]@.entries == views(e));
    assert forall|j: int| 0 <= j < raw.streams@[i].entries@.len() implies (#[trigger] e[j])@
        == tree_json(raw.streams@[i].entries@[j]) by {
        assert(views(e)[j] == e[j]@);
    }
}

/// A stream that states no schema version has the one that `_format` states for it, and 1
/// where that states none.
pub proof fn law_schema_falls_back(schemas: Seq<(LuaTree, Option<i64>)>, name: Seq<char>, i: int)
    requires
        0 <= i < schemas.len(),
        key_text(schemas[i].0) == name,
        schemas[i].1 is Some,
        forall|j: int|
            0 <= j < schemas.len() && j != i ==> key_text((#[trigger] schemas[j]).0) != name,
    ensures
        default_schema(schema_map(schemas), name) == schemas[i].1->0,
        default_schema(schema_map(schemas.take(i)), name) == 1,
{
    lemma_schema_found(schemas, name, i, schemas.len() as int);
    lemma_schema_missing(schemas.take(i), name, i);
}

proof fn lemma_schema_missing(schemas: Seq<(LuaTree, Option<i64>)>, name: Seq<char>, n: int)
    requires
        0 <= n <= schemas.len(),
        forall|j: int| 0 <= j < n ==> key_text((#[trigger] schemas[j]).0) != name,
    ensures
        !schemas_among(schemas, n).contains_key(name),
    decreases n,
{
    if n > 0 {
        lemma_schema_missing(schemas, name, n - 1);
        assert(key_text(schemas[n - 1].0) != name);
    }
}

proof fn lemma_schema_found(schemas: Seq<(LuaTree, Option<i64>)>, name: Seq<char>, i: int, n: int)
    requires
        0 <= i < n <= schemas.len(),
        key_text(schemas[i].0) == name,
        schemas[i].1 is Some,
        forall|j: int|
            0 <= j < schemas.len() && j != i ==> key_text((#[trigger] schemas[j]).0) != name,
    ensures
        schemas_among(schemas, n).contains_key(name),
        schemas_among(schemas, n)[name] == schemas[i].1->0,
    decreases n,
{
    if n - 1 > i {
        lemma_schema_found(schemas, name, i, n - 1);
        assert(key_text(schemas[n - 1].0) != name);
    }
}

/// The counters of every stream and the domains of the registry are in the export under
/// their names, as they stand. A counter that the file does not state is 0, and its base 1.
pub proof fn law_counters_and_domains_are_kept(raw: RawExport, x: SvExport)
    requires
        export_said(raw, x),
        keys_differ(raw.registry@),
        forall|a: int, b: int|
            0 <= a < b < raw.stream_meta@.len() ==> key_text((#[trigger] raw.stream_meta@[a]).name)
                != key_text((#[trigger] raw.stream_meta@[b]).name),
    ensures
        forall|i: int|
            0 <= i < raw.stream_meta@.len() ==> {
                let c = #[trigger] raw.stream_meta@[i];
                let name = key_text(c.name);
                &&& x.stream_meta@.contains_key(name)
                &&& c.seq matches LuaTree::Integer(n) ==> x.stream_meta@[name].seq == n
                &&& c.base matches LuaTree::Integer(n) ==> x.stream_meta@[name].base == n
                &&& c.seq is Nil ==> x.stream_meta@[name].seq == 0
                &&& c.base is Nil ==> x.stream_meta@[name].base == 1
            },
        forall|i: int|
            0 <= i < raw.registry@.len() ==> {
                let (k, v) = #[trigger] raw.registry@[i];
                &&& x.registry@.contains_key(key_text(k))
                &&& x.registry@[key_text(k)]@ == tree_json(v)
            },
        forall|k: Seq<char>| #[trigger]
            x.registry@.contains_key(k) ==> exists|i: int|
                0 <= i < raw.registry@.len() && key_text((#[trigger] raw.registry@[i]).0) == k,
{
    let names = Seq::new(raw.stream_meta@.len(), |i: int| key_text(raw.stream_meta@[i].name));
    let said = Seq::new(raw.stream_meta@.len(), |i: int| meta_said(raw.stream_meta@[i]));
    assert forall|a: int, b: int| 0 <= a < b < names.len() implies (#[trigger] names[a]) != (
    #[trigger] names[b]) by {
        assert(key_text(raw.stream_meta@[a].name) != key_text(raw.stream_meta@[b].name));
    }
    lemma_insert_all(names, said, names.len() as int);
    assert forall|i: int| 0 <= i < raw.stream_meta@.len() implies {
        let c = #[trigger] raw.stream_meta@[i];
        let name = key_text(c.name);
        &&& x.stream_meta@.contains_key(name)
        &&& x.stream_meta@[name] == meta_said(c)
    } by {
        assert(names[i] == key_text(raw.stream_meta@[i].name));
    }
    let p = raw.registry@;
    lemma_insert_all(key_texts(p), values_json(p), p.len() as int);
    let m = fields(x.registry);
    assert forall|i: int| 0 <= i < p.len() implies {
        let (k, v) = #[trigger] p[i];
        &&& x.registry@.contains_key(key_text(k))
        &&& x.registry@[key_text(k)]@ == tree_json(v)
    } by {
        assert(key_texts(p)[i] == key_text(p[i].0));
        assert(m.contains_key(key_texts(p)[i]));
        assert(m[key_texts(p)[i]] == x.registry@[key_texts(p)[i]]@);
    }
    assert forall|k: Seq<char>| #[trigger] x.registry@.contains_key(k) implies exists|i: int|
        0 <= i < p.len() && key_text((#[trigger] p[i]).0) == k by {
        assert(m.contains_key(k));
        let i = choose|i: int| 0 <= i < p.len() && #[trigger] key_texts(p)[i] == k;
        assert(key_text(p[i].0) == k);
    }
}

/// Where an integer is wanted, an integer is taken as it is and a float without what stands
/// behind its point; text, booleans and tables are none.
pub proof fn law_numbers_are_read_as_integers(n: i64, bits: u64, other: LuaTree)
    requires
        !(other is Integer) && !(other is Number),
    ensures
        scalar_int(LuaTree::Integer(n)) == Some(n),
        is_finite(bits) && whole_part(bits) == n ==> scalar_int(LuaTree::Number(bits)) == Some(n),
        !is_finite(bits) ==> scalar_int(LuaTree::Number(bits)) is None,
        scalar_int(other) is None,
{
}

/// What `_format` states is in the export: the versions as they are, the producer's build
/// unless it is empty, and the table itself with every key where it is no list. Without
/// `_format` the export states none of them.
pub proof fn law_format_is_kept(raw: RawExport, x: SvExport)
    requires
        export_said(raw, x),
    ensures
        match raw.format {
            Some(f) => {
                &&& x.format_version == f.format_version
                &&& x.schema_version == f.schema_version
                &&& x.registry_version == f.registry_version
                &&& x.generated_at == f.generated_at
                &&& x.producer_build is Some <==> f.producer_build is Some
                    && f.producer_build->0@.len() > 0
                &&& x.producer_build is Some ==> x.producer_build->0@ == f.producer_build->0@
                &&& keys_differ(f.pairs@) && tree_json(LuaTree::Table(f.pairs)) is Obj ==> forall|
                    i: int,
                |
                    0 <= i < f.pairs@.len() ==> fields(x.format).contains_key(
                        key_text((#[trigger] f.pairs@[i]).0),
                    ) && fields(x.format)[key_text(f.pairs@[i].0)] == tree_json(f.pairs@[i].1)
            },
            None => x.format_version is None && x.schema_version is None && x.registry_version is None
                && x.generated_at is None && x.producer_build is None,
        },
{
    if let Some(f) = raw.format {
        if keys_differ(f.pairs@) {
            law_table_values_are_carried_over(f.pairs);
        }
    }
}

/// Every session that the file leaves behind reaches the export, with all of its fields: for
/// each pair of its sessions table there is a record that holds what the value says.
pub proof fn law_sessions_of_the_file_reach_the_export(
    src: Seq<u8>,
    global: Seq<char>,
    lua: mlua::Lua,
    root: mlua::Table,
    raw: RawExport,
    x: SvExport,
    t: mlua::Table,
    k: LuaView,
    w: LuaView,
)
    requires
        parsed_from(src, global, lua, root, raw, x),
        forall|v: LuaView| #[trigger]
            holds_at(table_entries(root), "sessions"@, v) ==> v == LuaView::Table(t),
        table_entries(t).contains((k, w)),
    ensures
        chunks_run(lua) == seq![(src, global)],
        limits_memory(lua) ==> memory_cap(lua) == Some(0x4000_0000usize),
        run_error(lua) is None,
        x.sessions@.len() == table_entries(t).len(),
        exists|i: int|
            0 <= i < x.sessions@.len() && (#[trigger] x.sessions@[i])@ is Obj && crate::lua::reads(
                w,
                raw.sessions@[i].1,
            ) && keeps_fields(tree_json(raw.sessions@[i].1), x.sessions@[i]@->Obj_0, "sid"@),
{
    crate::svread::law_parts_are_read_whole(
        table_entries(root),
        "sessions"@,
        t,
        raw.sessions@,
        k,
        w,
    );
    let i = choose|i: int|
        0 <= i < raw.sessions@.len() && crate::lua::reads_flat(k, (#[trigger] raw.sessions@[i]).0)
            && crate::lua::reads(w, raw.sessions@[i].1);
    law_every_session_is_kept(raw, x, i);
    assert(x.sessions@[i]@ is Obj);
}

} // verus!
