//! JSON values.
use vstd::prelude::*;

use crate::textmap::{keys_ascend, lemma_key_once, lemma_values_smaller, TextMap};

verus! {

/// A JSON value. A number is an integer, or a float kept by its IEEE 754 bits.
#[derive(Debug, PartialEq)]
pub enum Json {
    Null,
    Bool(bool),
    Int(i64),
    Uint(u64),
    Float(u64),
    Str(String),
    Arr(Vec<Json>),
    Obj(TextMap<Json>),
}

/// What a JSON value says.
pub enum JsonView {
    Null,
    Bool(bool),
    Int(int),
    Float(u64),
    Str(Seq<char>),
    Arr(Seq<JsonView>),
    Obj(Map<Seq<char>, JsonView>),
}

impl Json {
    /// What this value says.
    pub open spec fn model(self) -> JsonView
        decreases self,
    {
        match self {
            Json::Null => JsonView::Null,
            Json::Bool(b) => JsonView::Bool(b),
            Json::Int(n) => JsonView::Int(n as int),
            Json::Uint(n) => JsonView::Int(n as int),
            Json::Float(b) => JsonView::Float(b),
            Json::Str(s) => JsonView::Str(s@),
            Json::Arr(v) => JsonView::Arr(
                Seq::new(
                    v@.len(),
                    |i: int|
                        if 0 <= i < v@.len() {
                            v@[i].model()
                        } else {
                            JsonView::Null
                        },
                ),
            ),
            Json::Obj(m) => {
                proof {
                    lemma_values_smaller(m);
                }
                JsonView::Obj(
                    Map::new(
                        |k: Seq<char>| m@.contains_key(k),
                        |k: Seq<char>|
                            if m@.contains_key(k) {
                                m@[k].model()
                            } else {
                                JsonView::Null
                            },
                    ),
                )
            },
        }
    }
}

impl View for Json {
    type V = JsonView;

    open spec fn view(&self) -> JsonView {
        self.model()
    }
}

/// What a row of JSON values says.
pub open spec fn views(v: Seq<Json>) -> Seq<JsonView> {
    Seq::new(v.len(), |i: int| v[i]@)
}

/// What the values of a JSON object say.
pub open spec fn fields(m: TextMap<Json>) -> Map<Seq<char>, JsonView> {
    Map::new(|k: Seq<char>| m@.contains_key(k), |k: Seq<char>| m@[k]@)
}

/// An array says what its elements say.
pub proof fn lemma_arr_view(v: Vec<Json>)
    ensures
        Json::Arr(v)@ == JsonView::Arr(views(v@)),
{
    let said = Json::Arr(v)@->Arr_0;
    assert forall|i: int| 0 <= i < v@.len() implies said[i] == #[trigger] v@[i]@ by {}
    assert(said =~= views(v@));
}

/// An object says what its fields say.
pub proof fn lemma_obj_view(m: TextMap<Json>)
    ensures
        Json::Obj(m)@ == JsonView::Obj(fields(m)),
{
    let said = Json::Obj(m)@->Obj_0;
    assert forall|k: Seq<char>| #[trigger] m@.contains_key(k) implies said[k] == m@[k]@ by {}
    assert(said =~= fields(m));
}

/// The field `k` of a value, if it is an object that has one.
pub open spec fn field(v: JsonView, k: Seq<char>) -> Option<JsonView> {
    match v {
        JsonView::Obj(m) => if m.contains_key(k) {
            Some(m[k])
        } else {
            None
        },
        _ => None,
    }
}

/// The integer that a value is, if it is one in the range of `i64`.
pub open spec fn int_value(v: JsonView) -> Option<i64> {
    match v {
        JsonView::Int(n) if i64::MIN <= n <= i64::MAX => Some(n as i64),
        _ => None,
    }
}

/// The text that a value is, if it is one.
pub open spec fn str_value(v: JsonView) -> Option<Seq<char>> {
    match v {
        JsonView::Str(s) => Some(s),
        _ => None,
    }
}

/// The text in the field `k` of a value, if there is one.
pub open spec fn text_field(v: JsonView, k: Seq<char>) -> Option<Seq<char>> {
    match field(v, k) {
        Some(x) => str_value(x),
        None => None,
    }
}

/// The view of an optional value.
pub open spec fn opt_view(v: Option<&Json>) -> Option<JsonView> {
    match v {
        Some(j) => Some(j@),
        None => None,
    }
}

impl Json {
    /// The field `k`, if this is an object that has one.
    pub fn get(&self, k: &str) -> (v: Option<&Json>)
        ensures
            opt_view(v) == field(self@, k@),
    {
        match self {
            Json::Obj(m) => {
                proof {
                    lemma_obj_view(*m);
                }
                m.get(k)
            },
            _ => None,
        }
    }

    /// The integer that this is, if it is one in the range of `i64`.
    pub fn as_i64(&self) -> (n: Option<i64>)
        ensures
            n == int_value(self@),
    {
        match self {
            Json::Int(n) => Some(*n),
            Json::Uint(n) => if *n <= 0x7fff_ffff_ffff_ffff {
                Some(*n as i64)
            } else {
                None
            },
            _ => None,
        }
    }

    /// The text that this is, if it is one.
    pub fn as_str(&self) -> (s: Option<&str>)
        ensures
            match s {
                Some(t) => str_value(self@) == Some(t@),
                None => str_value(self@) is None,
            },
    {
        match self {
            Json::Str(s) => Some(s.as_str()),
            _ => None,
        }
    }

    /// The text in the field `k`, if there is one.
    pub fn get_str<'a>(&'a self, k: &str) -> (s: Option<&'a str>)
        ensures
            match s {
                Some(t) => text_field(self@, k@) == Some(t@),
                None => text_field(self@, k@) is None,
            },
    {
        match self.get(k) {
            Some(f) => f.as_str(),
            None => None,
        }
    }

    /// The truth value that this is, if it is one.
    pub fn as_bool(&self) -> (b: Option<bool>)
        ensures
            b == match self@ {
                JsonView::Bool(b) => Some(b),
                _ => None,
            },
    {
        match self {
            Json::Bool(b) => Some(*b),
            _ => None,
        }
    }

    /// The items that this holds, if it is an array.
    pub fn as_array(&self) -> (items: Option<&Vec<Json>>)
        ensures
            match items {
                Some(v) => self@ == JsonView::Arr(views(v@)),
                None => !(self@ is Arr),
            },
    {
        match self {
            Json::Arr(v) => {
                proof {
                    lemma_arr_view(*v);
                }
                Some(v)
            },
            _ => None,
        }
    }

    /// Whether this is `null`.
    pub fn is_null(&self) -> (yes: bool)
        ensures
            yes == (self@ is Null),
    {
        match self {
            Json::Null => true,
            _ => false,
        }
    }
}

impl Clone for Json {
    fn clone(&self) -> (copy: Self)
        ensures
            copy@ == self@,
        decreases self,
    {
        match self {
            Json::Null => Json::Null,
            Json::Bool(b) => Json::Bool(*b),
            Json::Int(n) => Json::Int(*n),
            Json::Uint(n) => Json::Uint(*n),
            Json::Float(b) => Json::Float(*b),
            Json::Str(s) => Json::Str(s.clone()),
            Json::Arr(v) => {
                let mut w: Vec<Json> = Vec::new();
                let mut i: usize = 0;
                while i < v.len()
                    invariant
                        *self == Json::Arr(*v),
                        i <= v@.len(),
                        views(w@) == views(v@).take(i as int),
                    decreases v@.len() - i,
                {
                    let ghost before = w@;
                    proof {
                        assert(decreases_to!(*self => self->Arr_0));
                        assert(decreases_to!(*v => v@[i as int]));
                    }
                    w.push(v[i].clone());
                    proof {
                        assert(views(w@) =~= views(before).push(v@[i as int]@));
                    }
                    i = i + 1;
                }
                proof {
                    assert(views(w@) =~= views(v@));
                    lemma_arr_view(w);
                    lemma_arr_view(*v);
                }
                Json::Arr(w)
            },
            Json::Obj(m) => {
                let mut w: TextMap<Json> = TextMap::new();
                let mut i: usize = 0;
                let n: usize = m.len();
                while i < n
                    invariant
                        *self == Json::Obj(*m),
                        keys_ascend(m.pairs()),
                        i <= n == m.pairs().len(),
                        fields(w) == first_fields(*m, i as int),
                    decreases n - i,
                {
                    proof {
                        lemma_values_smaller(*m);
                        lemma_key_once(m.pairs(), i as int);
                        assert(decreases_to!(*self => self->Obj_0));
                    }
                    let ghost before = fields(w);
                    let v: Json = m.value_at(i).clone();
                    let ghost said = v@;
                    w.insert(m.key_at(i).clone(), v);
                    proof {
                        let k = m.pairs()[i as int].0;
                        assert(fields(w) =~= before.insert(k, said));
                        assert(fields(w) =~= first_fields(*m, i as int + 1));
                    }
                    i = i + 1;
                }
                proof {
                    lemma_all_fields(*m);
                    lemma_obj_view(w);
                    lemma_obj_view(*m);
                }
                Json::Obj(w)
            },
        }
    }
}

/// What the first `n` entries of a JSON object say.
pub open spec fn first_fields(m: TextMap<Json>, n: int) -> Map<Seq<char>, JsonView>
    decreases n,
{
    if n <= 0 {
        Map::empty()
    } else {
        first_fields(m, n - 1).insert(m.pairs()[n - 1].0, m.pairs()[n - 1].1@)
    }
}

proof fn lemma_first_fields(m: TextMap<Json>, n: int)
    requires
        keys_ascend(m.pairs()),
        0 <= n <= m.pairs().len(),
    ensures
        forall|k: Seq<char>| #[trigger]
            first_fields(m, n).contains_key(k) <==> exists|i: int|
                0 <= i < n && #[trigger] m.pairs()[i].0 == k,
        forall|i: int|
            0 <= i < n ==> #[trigger] first_fields(m, n)[m.pairs()[i].0] == m.pairs()[i].1@,
    decreases n,
{
    if n > 0 {
        lemma_first_fields(m, n - 1);
        let last = m.pairs()[n - 1].0;
        assert forall|k: Seq<char>| #[trigger]
            first_fields(m, n).contains_key(k) <==> exists|i: int|
                0 <= i < n && #[trigger] m.pairs()[i].0 == k by {
            assert(first_fields(m, n).contains_key(k) == (k == last || first_fields(
                m,
                n - 1,
            ).contains_key(k)));
        }
        assert forall|i: int| 0 <= i < n implies #[trigger] first_fields(m, n)[m.pairs()[i].0]
            == m.pairs()[i].1@ by {
            lemma_key_once(m.pairs(), i);
            lemma_key_once(m.pairs(), n - 1);
            if i < n - 1 {
                assert(first_fields(m, n - 1).contains_key(m.pairs()[i].0));
                assert(first_fields(m, n - 1)[m.pairs()[i].0] == m.pairs()[i].1@);
            }
        }
    }
}

proof fn lemma_all_fields(m: TextMap<Json>)
    requires
        keys_ascend(m.pairs()),
    ensures
        first_fields(m, m.pairs().len() as int) == fields(m),
{
    let n = m.pairs().len() as int;
    lemma_first_fields(m, n);
    assert forall|k: Seq<char>| #[trigger] first_fields(m, n).contains_key(k) == m@.contains_key(
        k,
    ) by {}
    assert forall|k: Seq<char>| #[trigger] first_fields(m, n).contains_key(k) implies first_fields(
        m,
        n,
    )[k] == m@[k]@ by {
        let i = choose|i: int| 0 <= i < n && #[trigger] m.pairs()[i].0 == k;
        lemma_key_once(m.pairs(), i);
    }
    assert(first_fields(m, n) =~= fields(m));
}

/// A copy of a row of JSON values.
pub fn clone_all(v: &Vec<Json>) -> (w: Vec<Json>)
    ensures
        views(w@) == views(v@),
{
    let mut w: Vec<Json> = Vec::new();
    let mut i: usize = 0;
    while i < v.len()
        invariant
            i <= v@.len(),
            views(w@) == views(v@).take(i as int),
        decreases v@.len() - i,
    {
        let ghost before = w@;
        w.push(v[i].clone());
        proof {
            assert(views(w@) =~= views(before).push(v@[i as int]@));
        }
        i = i + 1;
    }
    proof {
        assert(views(w@) =~= views(v@));
    }
    w
}

/// A copy of a JSON object.
pub fn clone_fields(m: &TextMap<Json>) -> (w: TextMap<Json>)
    ensures
        fields(w) == fields(*m),
{
    let mut w: TextMap<Json> = TextMap::new();
    let mut i: usize = 0;
    let n: usize = m.len();
    while i < n
        invariant
            keys_ascend(m.pairs()),
            i <= n == m.pairs().len(),
            fields(w) == first_fields(*m, i as int),
        decreases n - i,
    {
        let ghost before = fields(w);
        let v: Json = m.value_at(i).clone();
        let ghost said = v@;
        w.insert(m.key_at(i).clone(), v);
        proof {
            let k = m.pairs()[i as int].0;
            assert(fields(w) =~= before.insert(k, said));
        }
        i = i + 1;
    }
    proof {
        lemma_all_fields(*m);
    }
    w
}

/// A field is found exactly where an object has it, and read as it stands: an integer in
/// the range of `i64` as that integer, a text as that text, and nothing else as either.
pub proof fn law_fields_are_read_as_they_stand(m: Map<Seq<char>, JsonView>, k: Seq<char>, v: JsonView)
    ensures
        field(JsonView::Obj(m), k) is Some <==> m.contains_key(k),
        m.contains_key(k) ==> field(JsonView::Obj(m), k) == Some(m[k]),
        !(v is Obj) ==> field(v, k) is None,
        v matches JsonView::Int(n) ==> (i64::MIN <= n <= i64::MAX ==> int_value(v) == Some(n as i64))
            && (!(i64::MIN <= n <= i64::MAX) ==> int_value(v) is None),
        !(v is Int) ==> int_value(v) is None,
        v matches JsonView::Str(s) ==> str_value(v) == Some(s),
        !(v is Str) ==> str_value(v) is None,
        text_field(JsonView::Obj(m), k) == if m.contains_key(k) {
            str_value(m[k])
        } else {
            None
        },
{
}

/// A value says what it holds: each scalar itself, an array its elements in order, an object
/// each of its fields under its name.
pub proof fn law_values_say_what_they_hold(v: Vec<Json>, m: TextMap<Json>, s: String, n: i64, u: u64, b: bool)
    ensures
        Json::Null@ == JsonView::Null,
        Json::Bool(b)@ == JsonView::Bool(b),
        Json::Int(n)@ == JsonView::Int(n as int),
        Json::Uint(u)@ == JsonView::Int(u as int),
        Json::Float(u)@ == JsonView::Float(u),
        Json::Str(s)@ == JsonView::Str(s@),
        Json::Arr(v)@ is Arr && Json::Arr(v)@->Arr_0.len() == v@.len(),
        forall|i: int| 0 <= i < v@.len() ==> Json::Arr(v)@->Arr_0[i] == (#[trigger] v@[i])@,
        Json::Obj(m)@ is Obj,
        forall|k: Seq<char>|
            Json::Obj(m)@->Obj_0.contains_key(k) == #[trigger] m@.contains_key(k) && (m@.contains_key(k)
                ==> Json::Obj(m)@->Obj_0[k] == m@[k]@),
{
    lemma_arr_view(v);
    lemma_obj_view(m);
}

} // verus!
