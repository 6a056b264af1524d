//! Lua states and tables, as the `mlua` crate provides them, and their reading into
//! plain trees. A state needs memory for each handle that is held at one time; where it
//! gets none, and at about a million of them, mlua panics. What reads here holds a few for
//! each table that it is inside of.
use vstd::multiset::Multiset;
use vstd::prelude::*;
use vstd::utf8::{decode_utf8, encode_utf8, valid_utf8};

use crate::ieee::in_range_i64;
use crate::luadata::is_data;
use crate::number::signed_dec_of;
use crate::text::join2;

verus! {

// ---------------------------------------------------------------------------
// Types of mlua
// ---------------------------------------------------------------------------

/// The type `mlua::Lua`: one Lua state.
#[verifier::external_type_specification]
#[verifier::external_body]
pub struct ExLua(mlua::Lua);

/// The type `mlua::Table`: a handle of a Lua table.
#[verifier::external_type_specification]
#[verifier::external_body]
pub struct ExTable(mlua::Table);

/// The type `mlua::Error`.
#[verifier::external_type_specification]
#[verifier::external_body]
pub struct ExError(mlua::Error);

/// The type `mlua::Value`.
#[verifier::external_type_specification]
#[verifier::external_body]
pub struct ExValue(mlua::Value);

/// The type `mlua::TablePairs`: what is left of a walk over the pairs of a table.
#[verifier::external_type_specification]
#[verifier::external_body]
#[verifier::reject_recursive_types(K)]
#[verifier::reject_recursive_types(V)]
pub struct ExTablePairs<'a, K, V>(mlua::TablePairs<'a, K, V>);

/// The type `mlua::TableSequence`: what is left of a walk over the list in a table.
#[verifier::external_type_specification]
#[verifier::external_body]
#[verifier::reject_recursive_types(V)]
pub struct ExTableSequence<'a, V>(mlua::TableSequence<'a, V>);

/// What a Lua value is. A float is given by its bits, a string by its bytes, and a table
/// by its handle.
pub enum LuaView {
    Nil,
    Boolean(bool),
    Integer(i64),
    Number(u64),
    Text(Seq<u8>),
    Table(mlua::Table),
    Other,
}

/// A Lua value. A float is kept by its bits, a string by its bytes.
pub enum LuaValue {
    Nil,
    Boolean(bool),
    Integer(i64),
    Number(u64),
    Text(Vec<u8>),
    Table(mlua::Table),
    Other,
}

impl View for LuaValue {
    type V = LuaView;

    open spec fn view(&self) -> LuaView {
        match *self {
            LuaValue::Nil => LuaView::Nil,
            LuaValue::Boolean(b) => LuaView::Boolean(b),
            LuaValue::Integer(n) => LuaView::Integer(n),
            LuaValue::Number(bits) => LuaView::Number(bits),
            LuaValue::Text(bytes) => LuaView::Text(bytes@),
            LuaValue::Table(t) => LuaView::Table(t),
            LuaValue::Other => LuaView::Other,
        }
    }
}

// ---------------------------------------------------------------------------
// Lua states
// ---------------------------------------------------------------------------

/// The chunks that a state was given to run: the source and the name of each.
pub uninterp spec fn chunks_run(lua: mlua::Lua) -> Seq<(Seq<u8>, Seq<char>)>;

/// The text of the error that the last chunk of a state ended with, if it did.
pub uninterp spec fn run_error(lua: mlua::Lua) -> Option<Seq<char>>;

/// Whether the memory of a state can be limited. It can where the state got hold of memory
/// by mlua's own allocator.
pub uninterp spec fn limits_memory(lua: mlua::Lua) -> bool;

/// The limit on the memory of a state, if one was set.
pub uninterp spec fn memory_cap(lua: mlua::Lua) -> Option<usize>;

/// Which state this is. A handle of a table or value says by its number which state it
/// belongs to, and can be used only while that state is there.
pub uninterp spec fn state_id(lua: mlua::Lua) -> int;

/// The pairs of the table that holds the globals of the chunk that a state has run.
pub uninterp spec fn globals_of(lua: mlua::Lua) -> Multiset<(LuaView, LuaView)>;

/// The chunk that left a table behind when it had run as the only one of its state, and had
/// called nothing. From then on nothing changes the table: no code runs any more, and as
/// nothing could set a metatable, the collector calls no code and clears no pair.
pub uninterp spec fn made_by(t: mlua::Table) -> Option<(Seq<u8>, Seq<char>)>;

/// The state that a table belongs to.
pub uninterp spec fn made_in(t: mlua::Table) -> int;

/// Whether `t` is a table that a chunk left behind in the state `lua`, which is there.
pub open spec fn is_open(lua: mlua::Lua, t: mlua::Table) -> bool {
    made_by(t) is Some && made_in(t) == state_id(lua)
}

/// The pairs of a table that a chunk left behind, each a key and its value.
pub uninterp spec fn table_entries(t: mlua::Table) -> Multiset<(LuaView, LuaView)>;

/// Whether a read of the table, or of what it holds, failed with the error.
pub uninterp spec fn read_failed(t: mlua::Table, e: mlua::Error) -> bool;

/// The text that an error displays as.
pub uninterp spec fn error_display(e: mlua::Error) -> Seq<char>;

/// Calls `mlua::Lua::new_with` with no library but the basic one, which is always there. It
/// fails only where the `debug` library is asked for; where there is no memory for a state
/// at all, it panics. No chunk has run in a new state, and nothing is limited.
#[verifier::external_body]
pub(crate) fn new_state() -> (r: Result<mlua::Lua, mlua::Error>)
    ensures
        r is Ok,
        chunks_run(r->Ok_0) == Seq::<(Seq<u8>, Seq<char>)>::empty(),
        memory_cap(r->Ok_0) is None,
{
    mlua::Lua::new_with(mlua::StdLib::NONE, mlua::LuaOptions::default())
}

/// Calls `mlua::Lua::set_memory_limit`. It sets the limit, or fails where memory cannot
/// be limited; it runs nothing.
#[verifier::external_body]
pub(crate) fn limit_memory(lua: &mut mlua::Lua, bytes: usize) -> (r: Result<usize, mlua::Error>)
    requires
        bytes > 0,
    ensures
        state_id(*final(lua)) == state_id(*old(lua)),
        chunks_run(*final(lua)) == chunks_run(*old(lua)),
        limits_memory(*final(lua)) == limits_memory(*old(lua)),
        r is Ok <==> limits_memory(*old(lua)),
        memory_cap(*final(lua)) == if r is Ok {
            Some(bytes)
        } else {
            memory_cap(*old(lua))
        },
{
    lua.set_memory_limit(bytes)
}

/// Calls `mlua::Lua::create_table`, and `load`, `set_name`, `set_mode`, `set_environment`
/// and `exec`: runs the source `src`, which is text and not compiled, under the chunk name
/// `name`, with the new table for its globals, and gives that table. A source that loops
/// nowhere and calls nothing is done when each of its instructions has run once. Only the
/// first chunk of a state is run this way. No clause says which chunks end without an
/// error, nor what they leave in the table.
#[verifier::external_body]
pub(crate) fn run_chunk(lua: &mut mlua::Lua, src: &[u8], name: &str) -> (r: Result<
    mlua::Table,
    mlua::Error,
>)
    requires
        chunks_run(*old(lua)).len() == 0,
        is_data(src@),
    ensures
        state_id(*final(lua)) == state_id(*old(lua)),
        chunks_run(*final(lua)) == seq![(src@, name@)],
        memory_cap(*final(lua)) == memory_cap(*old(lua)),
        limits_memory(*final(lua)) == limits_memory(*old(lua)),
        match r {
            Ok(t) => {
                &&& run_error(*final(lua)) is None
                &&& made_by(t) == Some((src@, name@))
                &&& made_in(t) == state_id(*final(lua))
                &&& table_entries(t) == globals_of(*final(lua))
            },
            Err(e) => run_error(*final(lua)) == Some(error_display(e)),
        },
{
    let env = lua.create_table()?;
    let chunk = lua.load(src).set_name(name).set_mode(mlua::ChunkMode::Text);
    chunk.set_environment(env.clone()).exec()?;
    Ok(env)
}

/// The text of an error, by its `Display`.
#[verifier::external_body]
pub(crate) fn error_text(e: &mlua::Error) -> (s: String)
    ensures
        s@ == error_display(*e),
{
    e.to_string()
}

// ---------------------------------------------------------------------------
// Values
// ---------------------------------------------------------------------------

/// What an `mlua::Value` is.
pub uninterp spec fn value_of(v: mlua::Value) -> LuaView;

/// The state that an `mlua::Value` was read from.
pub uninterp spec fn value_in(v: mlua::Value) -> int;

/// Turns an `mlua::Value` into a `LuaValue`, variant by variant. Functions, threads and
/// userdata become `Other`. The bytes of a string can be read only while its state is
/// there, which `_lua` holds.
#[verifier::external_body]
pub(crate) fn convert(_lua: &mlua::Lua, v: mlua::Value) -> (r: LuaValue)
    requires
        value_in(v) == state_id(*_lua),
    ensures
        r@ == value_of(v),
{
    match v {
        mlua::Value::Nil => LuaValue::Nil,
        mlua::Value::Boolean(b) => LuaValue::Boolean(b),
        mlua::Value::Integer(n) => LuaValue::Integer(n),
        mlua::Value::Number(n) => LuaValue::Number(n.to_bits()),
        mlua::Value::String(s) => LuaValue::Text(s.as_bytes().to_vec()),
        mlua::Value::Table(t) => LuaValue::Table(t),
        _ => LuaValue::Other,
    }
}

/// The text that a float displays as.
pub uninterp spec fn float_display(bits: u64) -> Seq<char>;

/// The text of the float with the given bits, by its `Display`.
#[verifier::external_body]
pub(crate) fn float_text(bits: u64) -> (s: String)
    ensures
        s@ == float_display(bits),
{
    mlua::Number::from_bits(bits).to_string()
}

/// The text of bytes that need not be valid UTF-8.
pub uninterp spec fn lossy_decode(bytes: Seq<u8>) -> Seq<char>;

/// Calls `String::from_utf8_lossy`: valid UTF-8 is decoded as it stands; elsewhere
/// replacement characters take the place of what is not.
#[verifier::external_body]
pub(crate) fn lossy_text(bytes: &Vec<u8>) -> (s: String)
    ensures
        s@ == lossy_decode(bytes@),
        valid_utf8(bytes@) ==> s@ == decode_utf8(bytes@),
{
    String::from_utf8_lossy(bytes).into_owned()
}

/// Calls `String::from_utf8`: the text, where the bytes are valid UTF-8.
#[verifier::external_body]
pub(crate) fn utf8_text(bytes: Vec<u8>) -> (s: Option<String>)
    ensures
        match s {
            Some(t) => valid_utf8(bytes@) && t@ == decode_utf8(bytes@),
            None => !valid_utf8(bytes@),
        },
{
    String::from_utf8(bytes).ok()
}

// ---------------------------------------------------------------------------
// Tables
// ---------------------------------------------------------------------------

/// Whether `v` is what a table with the pairs `entries` holds at the string key `key`:
/// the value of a pair with that key, or nil where there is none.
pub open spec fn holds_at(
    entries: Multiset<(LuaView, LuaView)>,
    key: Seq<char>,
    v: LuaView,
) -> bool {
    let k = LuaView::Text(encode_utf8(key));
    ||| entries.contains((k, v))
    ||| v is Nil && forall|w: LuaView| !#[trigger] entries.contains((k, w))
}

/// Whether `v`, where it is a table, was left behind by the same chunk in the same state
/// as `t`.
pub open spec fn is_kin(v: LuaView, t: mlua::Table) -> bool {
    v matches LuaView::Table(s) ==> made_by(s) == made_by(t) && made_in(s) == made_in(t)
}

/// Calls `mlua::Table::get` for a value: what the table holds at a string key. Without a
/// metatable there is no other place to look. The state of the table has to be there, which
/// `_lua` holds.
#[verifier::external_body]
pub(crate) fn field(_lua: &mlua::Lua, t: &mlua::Table, key: &str) -> (r: Result<
    mlua::Value,
    mlua::Error,
>)
    requires
        is_open(*_lua, *t),
    ensures
        match r {
            Ok(v) => {
                &&& holds_at(table_entries(*t), key@, value_of(v))
                &&& is_kin(value_of(v), *t)
                &&& value_in(v) == made_in(*t)
            },
            Err(e) => read_failed(*t, e),
        },
{
    t.get::<mlua::Value>(key)
}

/// The bytes of the integer `n` written out in decimals.
pub open spec fn numeral(n: i64) -> Seq<u8> {
    encode_utf8(signed_dec_of(n as int))
}

/// Whether `n` is what a Lua value converts to as an integer; none where it does not. An
/// integer is taken as it is; a float loses what stands behind the point, and does not
/// convert where the rest does not fit; a string that is an integer in decimals means that
/// integer. Of other strings nothing is said. No other value converts.
pub open spec fn integer_is(v: LuaView, n: Option<i64>) -> bool {
    match v {
        LuaView::Integer(m) => n == Some(m),
        LuaView::Number(bits) => n == in_range_i64(bits),
        LuaView::Text(b) => forall|m: i64| b == #[trigger] numeral(m) ==> n == Some(m),
        _ => n is None,
    }
}

/// Calls `mlua::Table::get` for an `i64`: what the table holds at a string key, of which
/// there is one value, as an integer. It fails where that does not convert, or where the
/// table could not be read. No clause says which strings convert that are no integer in
/// decimals, and to what: the decimal point is that of the locale. The state of the table
/// has to be there, which `_lua` holds.
#[verifier::external_body]
pub(crate) fn field_int(_lua: &mlua::Lua, t: &mlua::Table, key: &str) -> (r: Result<
    i64,
    mlua::Error,
>)
    requires
        is_open(*_lua, *t),
    ensures
        match r {
            Ok(n) => forall|v: LuaView| #[trigger]
                holds_at(table_entries(*t), key@, v) ==> integer_is(v, Some(n)),
            Err(e) => read_failed(*t, e) || forall|v: LuaView| #[trigger]
                holds_at(table_entries(*t), key@, v) ==> integer_is(v, None),
        },
{
    t.get::<i64>(key)
}

/// Calls `mlua::Table::get` for a `String`. A string of valid UTF-8 is taken as it
/// is; an integer is written out in decimals, a float as Lua does; nothing else converts.
/// No clause says how a float is written: the decimal point is that of the locale. The
/// state of the table has to be there, which `_lua` holds.
#[verifier::external_body]
pub(crate) fn field_text(_lua: &mlua::Lua, t: &mlua::Table, key: &str) -> (r: Result<
    String,
    mlua::Error,
>)
    requires
        is_open(*_lua, *t),
    ensures
        r matches Ok(s) ==> exists|v: LuaView| #[trigger]
            holds_at(table_entries(*t), key@, v) && match v {
                LuaView::Integer(n) => s@ == signed_dec_of(n as int),
                LuaView::Number(_) => true,
                LuaView::Text(b) => valid_utf8(b) && s@ == decode_utf8(b),
                _ => false,
            },
{
    t.get::<String>(key)
}

/// The pairs that a walk has yet to yield, in its order.
pub uninterp spec fn pending_pairs(it: mlua::TablePairs<'_, mlua::Value, mlua::Value>) -> Seq<
    (LuaView, LuaView),
>;

/// The table that a walk goes over.
pub uninterp spec fn walked_table(it: mlua::TablePairs<'_, mlua::Value, mlua::Value>) -> mlua::Table;

/// Whether the values of the pairs `s` that are tables were left behind by the same chunk
/// in the same state as `t`.
pub open spec fn pairs_are_kin(s: Seq<(LuaView, LuaView)>, t: mlua::Table) -> bool {
    forall|i: int| 0 <= i < s.len() ==> is_kin((#[trigger] s[i]).1, t)
}

/// Calls `mlua::Table::pairs`: a walk over all pairs of the table, in some order. The state
/// of the table has to be there, which `_lua` holds; the walk then holds it itself.
#[verifier::external_body]
pub(crate) fn pairs<'a>(_lua: &mlua::Lua, t: &'a mlua::Table) -> (it: mlua::TablePairs<
    'a,
    mlua::Value,
    mlua::Value,
>)
    requires
        is_open(*_lua, *t),
    ensures
        walked_table(it) == *t,
        pending_pairs(it).to_multiset() == table_entries(*t),
        pairs_are_kin(pending_pairs(it), *t),
{
    t.pairs::<mlua::Value, mlua::Value>()
}

/// Calls `Iterator::next` on a walk over pairs: the next one, or nothing when none is
/// left. An error ends the walk.
#[verifier::external_body]
pub(crate) fn next_pair<'a>(it: &mut mlua::TablePairs<'a, mlua::Value, mlua::Value>) -> (r: Option<
    Result<(mlua::Value, mlua::Value), mlua::Error>,
>)
    ensures
        walked_table(*final(it)) == walked_table(*old(it)),
        match r {
            None => pending_pairs(*old(it)).len() == 0 && pending_pairs(*final(it)).len() == 0,
            Some(Ok((k, v))) => {
                &&& pending_pairs(*old(it)).len() > 0
                &&& (value_of(k), value_of(v)) == pending_pairs(*old(it))[0]
                &&& value_in(k) == made_in(walked_table(*old(it)))
                &&& value_in(v) == made_in(walked_table(*old(it)))
                &&& pending_pairs(*final(it)) == pending_pairs(*old(it)).drop_first()
            },
            Some(Err(e)) => {
                &&& pending_pairs(*final(it)).len() == 0
                &&& read_failed(walked_table(*old(it)), e)
            },
        },
{
    it.next()
}

/// The values that a walk over a list has yet to yield.
pub uninterp spec fn pending_values(it: mlua::TableSequence<'_, mlua::Value>) -> Seq<LuaView>;

/// Whether `s` is the list in a table with the pairs `entries`: its values at 1, 2 and so
/// on, up to the first integer that is no key.
pub open spec fn is_list_in(entries: Multiset<(LuaView, LuaView)>, s: Seq<LuaView>) -> bool {
    &&& forall|i: int|
        0 <= i < s.len() ==> entries.contains((LuaView::Integer((i + 1) as i64), #[trigger] s[i]))
    &&& forall|w: LuaView| !#[trigger] entries.contains(
        (LuaView::Integer((s.len() + 1) as i64), w),
    )
}

/// The table that a walk over a list goes over.
pub uninterp spec fn listed_table(it: mlua::TableSequence<'_, mlua::Value>) -> mlua::Table;

/// Whether those of the values `s` that are tables were left behind by the same chunk in
/// the same state as `t`.
pub open spec fn values_are_kin(s: Seq<LuaView>, t: mlua::Table) -> bool {
    forall|i: int| 0 <= i < s.len() ==> is_kin(#[trigger] s[i], t)
}

/// Calls `mlua::Table::sequence_values`: a walk over the list in the table. The state of
/// the table has to be there, which `_lua` holds; the walk then holds it itself.
#[verifier::external_body]
pub(crate) fn list_values<'a>(_lua: &mlua::Lua, t: &'a mlua::Table) -> (it: mlua::TableSequence<
    'a,
    mlua::Value,
>)
    requires
        is_open(*_lua, *t),
    ensures
        listed_table(it) == *t,
        is_list_in(table_entries(*t), pending_values(it)),
        values_are_kin(pending_values(it), *t),
{
    t.sequence_values::<mlua::Value>()
}

/// Calls `Iterator::next` on a walk over a list: the next value, or nothing when none is
/// left.
#[verifier::external_body]
pub(crate) fn next_value<'a>(it: &mut mlua::TableSequence<'a, mlua::Value>) -> (r: Option<
    Result<mlua::Value, mlua::Error>,
>)
    ensures
        listed_table(*final(it)) == listed_table(*old(it)),
        match r {
            None => pending_values(*old(it)).len() == 0,
            Some(Ok(v)) => {
                &&& pending_values(*old(it)).len() > 0
                &&& value_of(v) == pending_values(*old(it))[0]
                &&& value_in(v) == made_in(listed_table(*old(it)))
                &&& pending_values(*final(it)) == pending_values(*old(it)).drop_first()
            },
            Some(Err(e)) => read_failed(listed_table(*old(it)), e),
        },
{
    it.next()
}

// ---------------------------------------------------------------------------
// Trees
// ---------------------------------------------------------------------------

/// A Lua value without handles. A table is the row of its pairs, in the order in which
/// they were walked.
#[derive(Debug, PartialEq)]
pub enum LuaTree {
    Nil,
    Boolean(bool),
    Integer(i64),
    Number(u64),
    Text(Vec<u8>),
    Table(Vec<(LuaTree, LuaTree)>),
    Other,
}

/// How many tables deep a value may stand inside another.
pub const MAX_DEPTH: usize = 256;

/// What is said of a value that stands too deep.
pub open spec fn too_deep() -> Seq<char> {
    "table nested deeper than 256 \u{2014} refusing"@
}

/// What is said of a value that stands too deep.
pub fn too_deep_text() -> (s: String)
    ensures
        s@ == too_deep(),
{
    "table nested deeper than 256 \u{2014} refusing".to_string()
}

/// Whether `t` is the Lua value `v`, with `Other` for a table.
pub open spec fn reads_flat(v: LuaView, t: LuaTree) -> bool {
    match v {
        LuaView::Nil => t is Nil,
        LuaView::Boolean(b) => t matches LuaTree::Boolean(c) && b == c,
        LuaView::Integer(n) => t matches LuaTree::Integer(m) && n == m,
        LuaView::Number(b) => t matches LuaTree::Number(c) && b == c,
        LuaView::Text(b) => t matches LuaTree::Text(c) && b == c@,
        LuaView::Table(_) => t is Other,
        LuaView::Other => t is Other,
    }
}

/// Whether `t` is the Lua value `v`, with the pairs of each table in some order.
pub open spec fn reads(v: LuaView, t: LuaTree) -> bool
    decreases t,
{
    match v {
        LuaView::Table(h) => match t {
            LuaTree::Table(p) => exists|s: Seq<(LuaView, LuaView)>| #[trigger]
                s.to_multiset() == table_entries(h) && s.len() == p@.len() && forall|i: int|
                    0 <= i < p@.len() ==> reads_flat((#[trigger] s[i]).0, p@[i].0) && reads(
                        s[i].1,
                        p@[i].1,
                    ),
            _ => false,
        },
        _ => reads_flat(v, t),
    }
}

/// Whether `p` is the row `s` of Lua pairs.
pub open spec fn pairs_read(s: Seq<(LuaView, LuaView)>, p: Seq<(LuaTree, LuaTree)>) -> bool {
    &&& s.len() == p.len()
    &&& forall|i: int|
        0 <= i < p.len() ==> reads_flat((#[trigger] s[i]).0, p[i].0) && reads(s[i].1, p[i].1)
}

/// Whether `p` holds the pairs `entries` of a table, in some order.
pub open spec fn reads_entries(
    entries: Multiset<(LuaView, LuaView)>,
    p: Seq<(LuaTree, LuaTree)>,
) -> bool {
    exists|s: Seq<(LuaView, LuaView)>| #[trigger] s.to_multiset() == entries && pairs_read(s, p)
}

/// Whether no value in `t` stands more than `MAX_DEPTH` deep when `t` itself stands at
/// `depth`.
pub open spec fn fits(t: LuaTree, depth: int) -> bool
    decreases t,
{
    &&& depth <= MAX_DEPTH
    &&& match t {
        LuaTree::Table(p) => forall|i: int|
            0 <= i < p@.len() ==> fits((#[trigger] p@[i]).1, depth + 1),
        _ => true,
    }
}

/// Whether something in the value `v` stands more than `MAX_DEPTH` deep when `v` itself
/// stands at `depth`.
pub open spec fn stands_deep(v: LuaView, depth: int) -> bool
    decreases MAX_DEPTH + 1 - depth, 0int,
{
    depth > MAX_DEPTH || match v {
        LuaView::Table(t) => deep_value(table_entries(t), depth + 1),
        _ => false,
    }
}

/// Whether something in the values of a table with the pairs `entries` stands too deep
/// when the values stand at `depth`.
pub open spec fn deep_value(entries: Multiset<(LuaView, LuaView)>, depth: int) -> bool
    decreases MAX_DEPTH + 1 - depth, 1int,
{
    exists|k: LuaView, w: LuaView| #[trigger]
        entries.contains((k, w)) && stands_deep(w, depth)
}

/// Whether `e` is said of an error that Lua reported while a table was read that the chunk
/// `c` left behind.
pub open spec fn lua_failed(c: Option<(Seq<u8>, Seq<char>)>, e: Seq<char>) -> bool {
    exists|t: mlua::Table, err: mlua::Error| #[trigger]
        read_failed(t, err) && made_by(t) == c && e == "table pair: "@ + error_display(err)
}

/// What is said of an error that Lua reports.
pub(crate) fn pair_error(e: &mlua::Error) -> (s: String)
    ensures
        s@ == "table pair: "@ + error_display(*e),
{
    join2("table pair: ", error_text(e).as_str())
}

/// A Lua value without its inside, if it is a table.
pub(crate) fn read_flat(lua: &mlua::Lua, v: mlua::Value) -> (t: LuaTree)
    requires
        value_in(v) == state_id(*lua),
    ensures
        reads_flat(value_of(v), t),
{
    match convert(lua, v) {
        LuaValue::Nil => LuaTree::Nil,
        LuaValue::Boolean(b) => LuaTree::Boolean(b),
        LuaValue::Integer(n) => LuaTree::Integer(n),
        LuaValue::Number(bits) => LuaTree::Number(bits),
        LuaValue::Text(bytes) => LuaTree::Text(bytes),
        LuaValue::Table(_) => LuaTree::Other,
        LuaValue::Other => LuaTree::Other,
    }
}

/// A pair that a walk yields is one of the table.
pub proof fn lemma_walked(all: Seq<(LuaView, LuaView)>, n: int)
    requires
        0 <= n < all.len(),
    ensures
        all.to_multiset().contains((all[n].0, all[n].1)),
{
    vstd::seq_lib::to_multiset_contains(all, all[n]);
}

/// Whether `e` is said of an error that Lua reported while the inside of `v` was read.
pub open spec fn value_failed(v: LuaView, e: Seq<char>) -> bool {
    v matches LuaView::Table(t) && lua_failed(made_by(t), e)
}

/// A Lua value as a tree. It stands at `depth`.
pub(crate) fn read_tree(lua: &mlua::Lua, v: mlua::Value, depth: usize) -> (r: Result<
    LuaTree,
    String,
>)
    requires
        value_in(v) == state_id(*lua),
        value_of(v) matches LuaView::Table(t) ==> is_open(*lua, t),
    ensures
        match r {
            Ok(t) => reads(value_of(v), t) && fits(t, depth as int),
            Err(e) => value_failed(value_of(v), e@) || e@ == too_deep() && stands_deep(
                value_of(v),
                depth as int,
            ),
        },
    decreases MAX_DEPTH + 1 - depth, 0int,
{
    if depth > MAX_DEPTH {
        return Err(too_deep_text());
    }
    match convert(lua, v) {
        LuaValue::Nil => Ok(LuaTree::Nil),
        LuaValue::Boolean(b) => Ok(LuaTree::Boolean(b)),
        LuaValue::Integer(n) => Ok(LuaTree::Integer(n)),
        LuaValue::Number(bits) => Ok(LuaTree::Number(bits)),
        LuaValue::Text(bytes) => Ok(LuaTree::Text(bytes)),
        LuaValue::Table(h) => match read_pairs(lua, &h, depth + 1) {
            Ok(p) => {
                proof {
                    let s = choose|s: Seq<(LuaView, LuaView)>| #[trigger]
                        s.to_multiset() == table_entries(h) && pairs_read(s, p@);
                    assert(s.to_multiset() == table_entries(h));
                }
                Ok(LuaTree::Table(p))
            },
            Err(e) => Err(e),
        },
        LuaValue::Other => Ok(LuaTree::Other),
    }
}

/// The pairs of a table as trees. The values stand at `depth`.
pub(crate) fn read_pairs(lua: &mlua::Lua, h: &mlua::Table, depth: usize) -> (r: Result<
    Vec<(LuaTree, LuaTree)>,
    String,
>)
    requires
        depth <= MAX_DEPTH + 1,
        is_open(*lua, *h),
    ensures
        match r {
            Ok(p) => {
                &&& reads_entries(table_entries(*h), p@)
                &&& forall|i: int| 0 <= i < p@.len() ==> fits((#[trigger] p@[i]).1, depth as int)
            },
            Err(e) => lua_failed(made_by(*h), e@) || e@ == too_deep() && deep_value(
                table_entries(*h),
                depth as int,
            ),
        },
    decreases MAX_DEPTH + 1 - depth, 1int,
{
    let mut p: Vec<(LuaTree, LuaTree)> = Vec::new();
    let mut it = pairs(lua, h);
    let ghost all = pending_pairs(it);
    proof {
        assert(all.skip(0) =~= all);
    }
    loop
        invariant
            depth <= MAX_DEPTH + 1,
            is_open(*lua, *h),
            walked_table(it) == *h,
            pairs_are_kin(all, *h),
            all.to_multiset() == table_entries(*h),
            p@.len() <= all.len(),
            pending_pairs(it) == all.skip(p@.len() as int),
            pairs_read(all.take(p@.len() as int), p@),
            forall|i: int| 0 <= i < p@.len() ==> fits((#[trigger] p@[i]).1, depth as int),
        decreases pending_pairs(it).len(),
    {
        let ghost n = p@.len() as int;
        let ghost before = p@;
        match next_pair(&mut it) {
            None => {
                proof {
                    assert(all.take(n) =~= all);
                }
                return Ok(p);
            },
            Some(Err(e)) => {
                return Err(pair_error(&e));
            },
            Some(Ok((k, v))) => {
                let ghost kv = (value_of(k), value_of(v));
                proof {
                    assert(all.skip(n)[0] == all[n]);
                    assert(is_kin(all[n].1, *h));
                    lemma_walked(all, n);
                }
                let key: LuaTree = read_flat(lua, k);
                let value: LuaTree = match read_tree(lua, v, depth) {
                    Ok(t) => t,
                    Err(e) => return Err(e),
                };
                p.push((key, value));
                proof {
                    assert(all.skip(n).drop_first() =~= all.skip(n + 1));
                    assert(all.take(n + 1) =~= all.take(n).push(kv));
                    assert forall|i: int| 0 <= i < p@.len() implies reads_flat(
                        (#[trigger] all.take(n + 1)[i]).0,
                        p@[i].0,
                    ) && reads(all.take(n + 1)[i].1, p@[i].1) by {
                        if i < n {
                            assert(all.take(n + 1)[i] == all.take(n)[i]);
                            assert(p@[i] == before[i]);
                        }
                    }
                }
            },
        }
    }
}

/// Whether the trees `p` are the Lua values `s`.
pub open spec fn values_read(s: Seq<LuaView>, p: Seq<LuaTree>) -> bool {
    &&& s.len() == p.len()
    &&& forall|i: int| 0 <= i < p.len() ==> reads(#[trigger] s[i], p[i])
}

/// Whether `p` is the list in a table with the pairs `entries`.
pub open spec fn reads_list(entries: Multiset<(LuaView, LuaView)>, p: Seq<LuaTree>) -> bool {
    exists|s: Seq<LuaView>| is_list_in(entries, s) && #[trigger] values_read(s, p)
}

/// The list in a table as trees. Each of them stands at depth 0.
pub(crate) fn read_list(lua: &mlua::Lua, h: &mlua::Table) -> (r: Result<Vec<LuaTree>, String>)
    requires
        is_open(*lua, *h),
    ensures
        match r {
            Ok(p) => {
                &&& reads_list(table_entries(*h), p@)
                &&& forall|i: int| 0 <= i < p@.len() ==> fits(#[trigger] p@[i], 0)
            },
            Err(e) => lua_failed(made_by(*h), e@) || e@ == too_deep() && deep_value(
                table_entries(*h),
                0,
            ),
        },
{
    let mut p: Vec<LuaTree> = Vec::new();
    let mut it = list_values(lua, h);
    let ghost all = pending_values(it);
    proof {
        assert(all.skip(0) =~= all);
    }
    loop
        invariant
            is_open(*lua, *h),
            listed_table(it) == *h,
            values_are_kin(all, *h),
            is_list_in(table_entries(*h), all),
            p@.len() <= all.len(),
            pending_values(it) == all.skip(p@.len() as int),
            values_read(all.take(p@.len() as int), p@),
            forall|i: int| 0 <= i < p@.len() ==> fits(#[trigger] p@[i], 0),
        decreases pending_values(it).len(),
    {
        let ghost n = p@.len() as int;
        let ghost before = p@;
        match next_value(&mut it) {
            None => {
                proof {
                    assert(all.take(n) =~= all);
                }
                return Ok(p);
            },
            Some(Err(e)) => {
                return Err(pair_error(&e));
            },
            Some(Ok(v)) => {
                let ghost view = value_of(v);
                proof {
                    assert(all.skip(n)[0] == all[n]);
                    assert(is_kin(all[n], *h));
                    assert(table_entries(*h).contains((LuaView::Integer((n + 1) as i64), view)));
                }
                let value: LuaTree = match read_tree(lua, v, 0) {
                    Ok(t) => t,
                    Err(e) => return Err(e),
                };
                p.push(value);
                proof {
                    assert(all.skip(n).drop_first() =~= all.skip(n + 1));
                    assert(all.take(n + 1) =~= all.take(n).push(view));
                    assert forall|i: int| 0 <= i < p@.len() implies reads(
                        #[trigger] all.take(n + 1)[i],
                        p@[i],
                    ) by {
                        if i < n {
                            assert(all.take(n + 1)[i] == all.take(n)[i]);
                            assert(p@[i] == before[i]);
                        }
                    }
                }
            },
        }
    }
}

/// A value is read as it is: a boolean as that boolean, an integer as that integer, a float
/// with all of its bits and a text with all of its bytes.
pub proof fn law_values_are_read_as_they_are(v: LuaView, t: LuaTree)
    requires
        reads(v, t),
    ensures
        v is Nil ==> t is Nil,
        v matches LuaView::Boolean(b) ==> t == LuaTree::Boolean(b),
        v matches LuaView::Integer(n) ==> t == LuaTree::Integer(n),
        v matches LuaView::Number(bits) ==> t == LuaTree::Number(bits),
        v matches LuaView::Text(b) ==> t is Text && t->Text_0@ == b,
        v is Table ==> t is Table,
        v is Other ==> t is Other,
{
}

/// Every pair of a table is read, each once: there are as many as the table has, and each
/// key is there with the value that it has in the table.
pub proof fn law_every_pair_is_read(
    h: mlua::Table,
    p: Vec<(LuaTree, LuaTree)>,
    k: LuaView,
    w: LuaView,
)
    requires
        reads(LuaView::Table(h), LuaTree::Table(p)),
        table_entries(h).contains((k, w)),
    ensures
        p@.len() == table_entries(h).len(),
        exists|i: int|
            0 <= i < p@.len() && reads_flat(k, (#[trigger] p@[i]).0) && reads(w, p@[i].1),
{
    let s = choose|s: Seq<(LuaView, LuaView)>| #[trigger]
        s.to_multiset() == table_entries(h) && s.len() == p@.len() && forall|i: int|
            0 <= i < p@.len() ==> reads_flat((#[trigger] s[i]).0, p@[i].0) && reads(s[i].1, p@[i].1);
    vstd::seq_lib::to_multiset_len(s);
    vstd::seq_lib::to_multiset_contains(s, (k, w));
    let i = s.index_of((k, w));
    assert(reads_flat(s[i].0, p@[i].0) && reads(s[i].1, p@[i].1));
    assert(reads_flat(k, p@[i].0) && reads(w, p@[i].1));
}

/// A value fits where no table in it stands more than 256 tables deep: each table that a
/// value stands in counts once.
pub proof fn law_depth_counts_tables(t: LuaTree, depth: int)
    ensures
        t is Table ==> (fits(t, depth) <==> depth <= 256 && forall|i: int|
            0 <= i < t->Table_0@.len() ==> fits((#[trigger] t->Table_0@[i]).1, depth + 1)),
        !(t is Table) ==> (fits(t, depth) <==> depth <= 256),
{
}

/// The list in a table is its values at 1, 2 and so on without a gap: each is read in its
/// place, and a value at the next integer would be read too.
pub proof fn law_list_is_read_in_order(
    entries: Multiset<(LuaView, LuaView)>,
    p: Seq<LuaTree>,
    i: int,
)
    requires
        reads_list(entries, p),
        0 <= i < p.len(),
    ensures
        exists|v: LuaView| #[trigger]
            entries.contains((LuaView::Integer((i + 1) as i64), v)) && reads(v, p[i]),
        forall|w: LuaView| !#[trigger] entries.contains((LuaView::Integer((p.len() + 1) as i64), w)),
{
    let s = choose|s: Seq<LuaView>| is_list_in(entries, s) && #[trigger] values_read(s, p);
    assert(reads(s[i], p[i]));
    assert(entries.contains((LuaView::Integer((i + 1) as i64), s[i])));
}

} // verus!
