//! Reading the export global of a SavedVariables file out of Lua.
use vstd::multiset::Multiset;
use vstd::prelude::*;
use vstd::utf8::{decode_utf8, valid_utf8};

use crate::lua::{
    convert,
    field,
    field_int,
    field_text,
    deep_value,
    fits,
    holds_at,
    integer_is,
    is_kin,
    is_open,
    lemma_walked,
    lua_failed,
    made_by,
    numeral,
    next_pair,
    pair_error,
    pairs,
    pairs_are_kin,
    pending_pairs,
    read_flat,
    read_list,
    read_pairs,
    reads_entries,
    reads_flat,
    reads_list,
    table_entries,
    too_deep,
    utf8_text,
    value_of,
    walked_table,
    LuaTree,
    LuaValue,
    LuaView,
};
use crate::ieee::checked_i64;
use crate::number::{dec_i64, i64_of, law_numeral_round_trip, parse_i64, signed_dec_of};
use crate::svparse::{RawExport, RawFormat, RawMeta, RawStream};
use crate::text::same_text;

verus! {

/// Whether `h` is the table that a table with the pairs `entries` holds at `key`; none
/// where it holds something else.
pub open spec fn table_at(
    entries: Multiset<(LuaView, LuaView)>,
    key: Seq<char>,
    h: Option<mlua::Table>,
) -> bool {
    exists|v: LuaView| #[trigger]
        holds_at(entries, key, v) && match h {
            Some(t) => v == LuaView::Table(t),
            None => !(v is Table),
        }
}

/// Whether `t` is the value, with `Other` for a table, at `key`.
pub open spec fn flat_at(
    entries: Multiset<(LuaView, LuaView)>,
    key: Seq<char>,
    t: LuaTree,
) -> bool {
    exists|v: LuaView| #[trigger] holds_at(entries, key, v) && reads_flat(v, t)
}

/// Whether `n` is the value at `key` as an integer.
pub open spec fn int_at_key(
    entries: Multiset<(LuaView, LuaView)>,
    key: Seq<char>,
    n: Option<i64>,
) -> bool {
    exists|v: LuaView| #[trigger] holds_at(entries, key, v) && integer_is(v, n)
}

/// Whether `s` is the Lua value `v` as a text: a string of valid UTF-8 itself, an integer
/// in decimals, or what Lua makes of a float; none for any other value.
pub open spec fn text_is(v: LuaView, s: Option<String>) -> bool {
    match v {
        LuaView::Text(b) => if valid_utf8(b) {
            s is Some && s->0@ == decode_utf8(b)
        } else {
            s is None
        },
        LuaView::Integer(n) => s is Some && s->0@ == signed_dec_of(n as int),
        LuaView::Number(_) => true,
        _ => s is None,
    }
}

/// Whether `s` is the value at `key` as a text.
pub open spec fn text_at_key(
    entries: Multiset<(LuaView, LuaView)>,
    key: Seq<char>,
    s: Option<String>,
) -> bool {
    exists|v: LuaView| #[trigger] holds_at(entries, key, v) && text_is(v, s)
}

/// Whether `p` holds the pairs of the table at `key`; none where there is no table.
pub open spec fn part_read(
    entries: Multiset<(LuaView, LuaView)>,
    key: Seq<char>,
    p: Seq<(LuaTree, LuaTree)>,
) -> bool {
    exists|h: Option<mlua::Table>| #[trigger]
        table_at(entries, key, h) && match h {
            Some(t) => reads_entries(table_entries(t), p),
            None => p.len() == 0,
        }
}

/// The pairs of `s` whose value is a table.
pub open spec fn only_tables(s: Seq<(LuaView, LuaView)>) -> Seq<(LuaView, mlua::Table)>
    decreases s.len(),
{
    if s.len() == 0 {
        Seq::empty()
    } else {
        let before = only_tables(s.drop_last());
        match s.last().1 {
            LuaView::Table(t) => before.push((s.last().0, t)),
            _ => before,
        }
    }
}

/// Whether `raw` is the stream that stands in `pair`.
pub open spec fn stream_read(pair: (LuaView, mlua::Table), raw: RawStream) -> bool {
    &&& reads_flat(pair.0, raw.name)
    &&& flat_at(table_entries(pair.1), "schema"@, raw.schema)
    &&& reads_list(table_entries(pair.1), raw.entries@)
}

/// Whether `raw` is the counter that stands in `pair`.
pub open spec fn meta_read(pair: (LuaView, mlua::Table), raw: RawMeta) -> bool {
    &&& reads_flat(pair.0, raw.name)
    &&& flat_at(table_entries(pair.1), "seq"@, raw.seq)
    &&& flat_at(table_entries(pair.1), "base"@, raw.base)
}

/// Whether `raws` are the streams in `pairs`.
pub open spec fn stream_rows(pairs: Seq<(LuaView, mlua::Table)>, raws: Seq<RawStream>) -> bool {
    &&& pairs.len() == raws.len()
    &&& forall|i: int| 0 <= i < raws.len() ==> stream_read(#[trigger] pairs[i], raws[i])
}

/// Whether `raws` are the counters in `pairs`.
pub open spec fn meta_rows(pairs: Seq<(LuaView, mlua::Table)>, raws: Seq<RawMeta>) -> bool {
    &&& pairs.len() == raws.len()
    &&& forall|i: int| 0 <= i < raws.len() ==> meta_read(#[trigger] pairs[i], raws[i])
}

/// Whether `raws` are the streams in the table at `streams`.
pub open spec fn streams_read(
    entries: Multiset<(LuaView, LuaView)>,
    raws: Seq<RawStream>,
) -> bool {
    exists|h: Option<mlua::Table>| #[trigger]
        table_at(entries, "streams"@, h) && match h {
            Some(t) => exists|s: Seq<(LuaView, LuaView)>| #[trigger]
                s.to_multiset() == table_entries(t) && stream_rows(only_tables(s), raws),
            None => raws.len() == 0,
        }
}

/// Whether `raws` are the counters in the table at `_streamMeta`.
pub open spec fn metas_read(entries: Multiset<(LuaView, LuaView)>, raws: Seq<RawMeta>) -> bool {
    exists|h: Option<mlua::Table>| #[trigger]
        table_at(entries, "_streamMeta"@, h) && match h {
            Some(t) => exists|s: Seq<(LuaView, LuaView)>| #[trigger]
                s.to_multiset() == table_entries(t) && meta_rows(only_tables(s), raws),
            None => raws.len() == 0,
        }
}

/// Whether `row` is the schema version that the stream table in `pair` states, if any.
pub open spec fn schema_read(pair: (LuaView, mlua::Table), row: (LuaTree, Option<i64>)) -> bool {
    reads_flat(pair.0, row.0) && int_at_key(table_entries(pair.1), "schema"@, row.1)
}

/// Whether `rows` are the schema versions in `pairs`.
pub open spec fn schema_rows(
    pairs: Seq<(LuaView, mlua::Table)>,
    rows: Seq<(LuaTree, Option<i64>)>,
) -> bool {
    &&& pairs.len() == rows.len()
    &&& forall|i: int| 0 <= i < rows.len() ==> schema_read(#[trigger] pairs[i], rows[i])
}

/// Whether `rows` are the schema versions that the stream tables of `_format` state.
pub open spec fn schemas_read(
    entries: Multiset<(LuaView, LuaView)>,
    rows: Seq<(LuaTree, Option<i64>)>,
) -> bool {
    exists|h: Option<mlua::Table>| #[trigger]
        table_at(entries, "streams"@, h) && match h {
            Some(t) => exists|s: Seq<(LuaView, LuaView)>| #[trigger]
                s.to_multiset() == table_entries(t) && schema_rows(only_tables(s), rows),
            None => rows.len() == 0,
        }
}

/// Whether `f` is the `_format` table with the pairs `entries`.
pub open spec fn format_read(entries: Multiset<(LuaView, LuaView)>, f: RawFormat) -> bool {
    &&& reads_entries(entries, f.pairs@)
    &&& text_at_key(entries, "producerBuild"@, f.producer_build)
    &&& int_at_key(entries, "formatVersion"@, f.format_version)
    &&& int_at_key(entries, "schemaVersion"@, f.schema_version)
    &&& int_at_key(entries, "registryVersion"@, f.registry_version)
    &&& int_at_key(entries, "generatedAt"@, f.generated_at)
    &&& schemas_read(entries, f.schemas@)
}

/// Whether `p` holds the pairs of the table `db.items`.
pub open spec fn items_read(
    entries: Multiset<(LuaView, LuaView)>,
    p: Seq<(LuaTree, LuaTree)>,
) -> bool {
    exists|h: Option<mlua::Table>| #[trigger]
        table_at(entries, "db"@, h) && match h {
            Some(t) => part_read(table_entries(t), "items"@, p),
            None => p.len() == 0,
        }
}

/// Whether `raw` is the export global with the pairs `entries`.
pub open spec fn export_read(entries: Multiset<(LuaView, LuaView)>, raw: RawExport) -> bool {
    &&& exists|h: Option<mlua::Table>| #[trigger]
        table_at(entries, "_format"@, h) && match h {
            Some(t) => raw.format is Some && format_read(table_entries(t), raw.format->0),
            None => raw.format is None,
        }
    &&& part_read(entries, "sessions"@, raw.sessions@)
    &&& part_read(entries, "_registry"@, raw.registry@)
    &&& items_read(entries, raw.items@)
    &&& streams_read(entries, raw.streams@)
    &&& metas_read(entries, raw.stream_meta@)
}

/// Whether the values of the table at `key` hold something that stands too deep, when
/// they stand at `depth`.
pub open spec fn deep_part(
    entries: Multiset<(LuaView, LuaView)>,
    key: Seq<char>,
    depth: int,
) -> bool {
    exists|t: mlua::Table| #[trigger]
        table_at(entries, key, Some(t)) && deep_value(table_entries(t), depth)
}

/// Whether a learned item holds something that stands too deep.
pub open spec fn deep_item(entries: Multiset<(LuaView, LuaView)>) -> bool {
    exists|t: mlua::Table| #[trigger]
        table_at(entries, "db"@, Some(t)) && deep_part(table_entries(t), "items"@, 0)
}

/// Whether an entry of one of the stream tables holds something that stands too deep.
pub open spec fn deep_entry(streams: Multiset<(LuaView, LuaView)>) -> bool {
    exists|k: LuaView, t: mlua::Table| #[trigger]
        streams.contains((k, LuaView::Table(t))) && deep_value(table_entries(t), 0)
}

/// Whether an entry of a stream holds something that stands too deep.
pub open spec fn deep_stream(entries: Multiset<(LuaView, LuaView)>) -> bool {
    exists|t: mlua::Table| #[trigger]
        table_at(entries, "streams"@, Some(t)) && deep_entry(table_entries(t))
}

/// Whether something in the export global with the pairs `entries` stands too deep.
pub open spec fn export_deep(entries: Multiset<(LuaView, LuaView)>) -> bool {
    ||| deep_part(entries, "_format"@, 1)
    ||| deep_part(entries, "sessions"@, 0)
    ||| deep_part(entries, "_registry"@, 0)
    ||| deep_item(entries)
    ||| deep_stream(entries)
}

/// The table at `key`, if there is one.
pub(crate) fn table_field(lua: &mlua::Lua, h: &mlua::Table, key: &str) -> (r: Result<Option<mlua::Table>, String>)
    requires
        is_open(*lua, *h),
    ensures
        match r {
            Ok(t) => table_at(table_entries(*h), key@, t) && (t matches Some(x) ==> made_by(x)
                == made_by(*h) && is_open(*lua, x)),
            Err(e) => lua_failed(made_by(*h), e@),
        },
{
    match field(lua, h, key) {
        Ok(v) => {
            let ghost view = value_of(v);
            proof {
                assert(holds_at(table_entries(*h), key@, view));
            }
            match convert(lua, v) {
                LuaValue::Table(t) => Ok(Some(t)),
                _ => Ok(None),
            }
        },
        Err(e) => Err(pair_error(&e)),
    }
}

fn flat_field(lua: &mlua::Lua, h: &mlua::Table, key: &str) -> (r: Result<LuaTree, String>)
    requires
        is_open(*lua, *h),
    ensures
        match r {
            Ok(t) => flat_at(table_entries(*h), key@, t),
            Err(e) => lua_failed(made_by(*h), e@),
        },
{
    match field(lua, h, key) {
        Ok(v) => {
            proof {
                assert(holds_at(table_entries(*h), key@, value_of(v)));
            }
            Ok(read_flat(lua, v))
        },
        Err(e) => Err(pair_error(&e)),
    }
}

/// Whether the bytes are an integer in decimals.
fn is_numeral(bytes: Vec<u8>) -> (yes: bool)
    ensures
        yes == exists|m: i64| bytes@ == #[trigger] numeral(m),
{
    let ghost b = bytes@;
    let s: String = match utf8_text(bytes) {
        Some(s) => s,
        None => {
            proof {
                if exists|m: i64| b == #[trigger] numeral(m) {
                    let m = choose|m: i64| b == #[trigger] numeral(m);
                    vstd::utf8::encode_utf8_valid_utf8(signed_dec_of(m as int));
                }
            }
            return false;
        },
    };
    let yes: bool = match parse_i64(s.as_str()) {
        Some(n) => same_text(dec_i64(n).as_str(), s.as_str()),
        None => false,
    };
    proof {
        vstd::utf8::decode_utf8_encode_utf8(b);
        if yes {
            assert(b == numeral(i64_of(s@)->0));
        } else if exists|m: i64| b == #[trigger] numeral(m) {
            let m = choose|m: i64| b == #[trigger] numeral(m);
            vstd::utf8::encode_utf8_decode_utf8(signed_dec_of(m as int));
            law_numeral_round_trip(m);
        }
    }
    yes
}

fn int_field(lua: &mlua::Lua, h: &mlua::Table, key: &str) -> (r: Result<Option<i64>, String>)
    requires
        is_open(*lua, *h),
    ensures
        match r {
            Ok(n) => int_at_key(table_entries(*h), key@, n),
            Err(e) => lua_failed(made_by(*h), e@),
        },
{
    let v: mlua::Value = match field(lua, h, key) {
        Ok(v) => v,
        Err(e) => return Err(pair_error(&e)),
    };
    let ghost view = value_of(v);
    proof {
        assert(holds_at(table_entries(*h), key@, view));
    }
    let n: Option<i64> = match convert(lua, v) {
        LuaValue::Integer(n) => Some(n),
        LuaValue::Number(bits) => checked_i64(bits),
        LuaValue::Text(bytes) => match field_int(lua, h, key) {
            Ok(n) => Some(n),
            Err(e) => if is_numeral(bytes) {
                return Err(pair_error(&e));
            } else {
                None
            },
        },
        _ => None,
    };
    proof {
        assert(integer_is(view, n));
    }
    Ok(n)
}

fn text_field(lua: &mlua::Lua, h: &mlua::Table, key: &str) -> (r: Result<Option<String>, String>)
    requires
        is_open(*lua, *h),
    ensures
        match r {
            Ok(s) => text_at_key(table_entries(*h), key@, s),
            Err(e) => lua_failed(made_by(*h), e@),
        },
{
    let v: mlua::Value = match field(lua, h, key) {
        Ok(v) => v,
        Err(e) => return Err(pair_error(&e)),
    };
    let ghost view = value_of(v);
    proof {
        assert(holds_at(table_entries(*h), key@, view));
    }
    let s: Option<String> = match convert(lua, v) {
        LuaValue::Text(bytes) => utf8_text(bytes),
        LuaValue::Integer(n) => Some(dec_i64(n)),
        LuaValue::Number(_) => match field_text(lua, h, key) {
            Ok(s) => Some(s),
            Err(_) => None,
        },
        _ => None,
    };
    proof {
        assert(text_is(view, s));
    }
    Ok(s)
}

/// The pairs of the table at `key`.
fn read_part(lua: &mlua::Lua, h: &mlua::Table, key: &str) -> (r: Result<Vec<(LuaTree, LuaTree)>, String>)
    requires
        is_open(*lua, *h),
    ensures
        match r {
            Ok(p) => part_read(table_entries(*h), key@, p@) && forall|i: int|
                0 <= i < p@.len() ==> fits((#[trigger] p@[i]).1, 0),
            Err(e) => lua_failed(made_by(*h), e@) || e@ == too_deep() && deep_part(table_entries(*h), key@, 0),
        },
{
    match table_field(lua, h, key) {
        Ok(Some(t)) => {
            proof {
                assert(table_at(table_entries(*h), key@, Some(t)));
            }
            read_pairs(lua, &t, 0)
        },
        Ok(None) => {
            proof {
                assert(table_at(table_entries(*h), key@, None));
            }
            Ok(Vec::new())
        },
        Err(e) => Err(e),
    }
}

/// The pairs of the table `db.items`.
fn read_items(lua: &mlua::Lua, h: &mlua::Table) -> (r: Result<Vec<(LuaTree, LuaTree)>, String>)
    requires
        is_open(*lua, *h),
    ensures
        match r {
            Ok(p) => items_read(table_entries(*h), p@) && forall|i: int|
                0 <= i < p@.len() ==> fits((#[trigger] p@[i]).1, 0),
            Err(e) => lua_failed(made_by(*h), e@) || e@ == too_deep() && deep_item(table_entries(*h)),
        },
{
    match table_field(lua, h, "db") {
        Ok(Some(t)) => {
            proof {
                assert(table_at(table_entries(*h), "db"@, Some(t)));
            }
            read_part(lua, &t, "items")
        },
        Ok(None) => {
            proof {
                assert(table_at(table_entries(*h), "db"@, None));
            }
            Ok(Vec::new())
        },
        Err(e) => Err(e),
    }
}

proof fn lemma_only_tables_push(s: Seq<(LuaView, LuaView)>, x: (LuaView, LuaView))
    ensures
        only_tables(s.push(x)) == match x.1 {
            LuaView::Table(t) => only_tables(s).push((x.0, t)),
            _ => only_tables(s),
        },
{
    assert(s.push(x).drop_last() =~= s);
}

/// The streams in the table at `streams`.
fn read_streams(lua: &mlua::Lua, h: &mlua::Table) -> (r: Result<Vec<RawStream>, String>)
    requires
        is_open(*lua, *h),
    ensures
        match r {
            Ok(raws) => streams_read(table_entries(*h), raws@) && crate::svparse::streams_fit(
                raws@,
            ),
            Err(e) => lua_failed(made_by(*h), e@) || e@ == too_deep() && deep_stream(table_entries(*h)),
        },
{
    let t: mlua::Table = match table_field(lua, h, "streams") {
        Ok(Some(t)) => t,
        Ok(None) => {
            proof {
                assert(table_at(table_entries(*h), "streams"@, None));
            }
            return Ok(Vec::new());
        },
        Err(e) => return Err(e),
    };
    let mut raws: Vec<RawStream> = Vec::new();
    let mut it = pairs(lua, &t);
    let ghost all = pending_pairs(it);
    let ghost mut n: int = 0;
    proof {
        assert(table_at(table_entries(*h), "streams"@, Some(t)));
        assert(all.skip(0) =~= all);
        assert(all.take(0) =~= Seq::<(LuaView, LuaView)>::empty());
    }
    loop
        invariant
            table_at(table_entries(*h), "streams"@, Some(t)),
            made_by(t) == made_by(*h),
            is_open(*lua, t),
            is_open(*lua, *h),
            walked_table(it) == t,
            pairs_are_kin(all, t),
            all.to_multiset() == table_entries(t),
            0 <= n <= all.len(),
            pending_pairs(it) == all.skip(n),
            stream_rows(only_tables(all.take(n)), raws@),
            crate::svparse::streams_fit(raws@),
        decreases pending_pairs(it).len(),
    {
        match next_pair(&mut it) {
            None => {
                proof {
                    assert(all.take(n) =~= all);
                }
                return Ok(raws);
            },
            Some(Err(e)) => {
                return Err(pair_error(&e));
            },
            Some(Ok((k, v))) => {
                let ghost kv = (value_of(k), value_of(v));
                proof {
                    assert(all.skip(n)[0] == all[n]);
                    assert(is_kin(all[n].1, t));
                    assert(all.skip(n).drop_first() =~= all.skip(n + 1));
                    assert(all.take(n + 1) =~= all.take(n).push(kv));
                    lemma_only_tables_push(all.take(n), kv);
                    lemma_walked(all, n);
                }
                if let LuaValue::Table(st) = convert(lua, v) {
                    proof {
                        assert(table_entries(t).contains((kv.0, LuaView::Table(st))));
                    }
                    let schema: LuaTree = match flat_field(lua, &st, "schema") {
                        Ok(x) => x,
                        Err(e) => return Err(e),
                    };
                    let entries: Vec<LuaTree> = match read_list(lua, &st) {
                        Ok(x) => x,
                        Err(e) => return Err(e),
                    };
                    let name: LuaTree = read_flat(lua, k);
                    raws.push(RawStream { name, schema, entries });
                }
                proof {
                    n = n + 1;
                }
            },
        }
    }
}

/// The counters in the table at `_streamMeta`. What is no table there is passed over.
fn read_metas(lua: &mlua::Lua, h: &mlua::Table) -> (r: Result<Vec<RawMeta>, String>)
    requires
        is_open(*lua, *h),
    ensures
        match r {
            Ok(raws) => metas_read(table_entries(*h), raws@),
            Err(e) => lua_failed(made_by(*h), e@),
        },
{
    let t: mlua::Table = match table_field(lua, h, "_streamMeta") {
        Ok(Some(t)) => t,
        Ok(None) => {
            proof {
                assert(table_at(table_entries(*h), "_streamMeta"@, None));
            }
            return Ok(Vec::new());
        },
        Err(e) => return Err(e),
    };
    let mut raws: Vec<RawMeta> = Vec::new();
    let mut it = pairs(lua, &t);
    let ghost all = pending_pairs(it);
    let ghost mut n: int = 0;
    proof {
        assert(table_at(table_entries(*h), "_streamMeta"@, Some(t)));
        assert(all.skip(0) =~= all);
        assert(all.take(0) =~= Seq::<(LuaView, LuaView)>::empty());
    }
    loop
        invariant
            table_at(table_entries(*h), "_streamMeta"@, Some(t)),
            made_by(t) == made_by(*h),
            is_open(*lua, t),
            is_open(*lua, *h),
            walked_table(it) == t,
            pairs_are_kin(all, t),
            all.to_multiset() == table_entries(t),
            0 <= n <= all.len(),
            pending_pairs(it) == all.skip(n),
            meta_rows(only_tables(all.take(n)), raws@),
        decreases pending_pairs(it).len(),
    {
        match next_pair(&mut it) {
            None => {
                proof {
                    assert(all.take(n) =~= all);
                }
                return Ok(raws);
            },
            Some(Err(e)) => {
                return Err(pair_error(&e));
            },
            Some(Ok((k, v))) => {
                let ghost kv = (value_of(k), value_of(v));
                proof {
                    assert(all.skip(n)[0] == all[n]);
                    assert(is_kin(all[n].1, t));
                    assert(all.skip(n).drop_first() =~= all.skip(n + 1));
                    assert(all.take(n + 1) =~= all.take(n).push(kv));
                    lemma_only_tables_push(all.take(n), kv);
                }
                if let LuaValue::Table(mt) = convert(lua, v) {
                    let seq: LuaTree = match flat_field(lua, &mt, "seq") {
                        Ok(x) => x,
                        Err(e) => return Err(e),
                    };
                    let base: LuaTree = match flat_field(lua, &mt, "base") {
                        Ok(x) => x,
                        Err(e) => return Err(e),
                    };
                    let name: LuaTree = read_flat(lua, k);
                    raws.push(RawMeta { name, seq, base });
                }
                proof {
                    n = n + 1;
                }
            },
        }
    }
}

/// The schema versions that the tables in `_format.streams` state.
fn read_schemas(lua: &mlua::Lua, h: &mlua::Table) -> (r: Result<Vec<(LuaTree, Option<i64>)>, String>)
    requires
        is_open(*lua, *h),
    ensures
        match r {
            Ok(rows) => schemas_read(table_entries(*h), rows@),
            Err(e) => lua_failed(made_by(*h), e@),
        },
{
    let t: mlua::Table = match table_field(lua, h, "streams") {
        Ok(Some(t)) => t,
        Ok(None) => {
            proof {
                assert(table_at(table_entries(*h), "streams"@, None));
            }
            return Ok(Vec::new());
        },
        Err(e) => return Err(e),
    };
    let mut rows: Vec<(LuaTree, Option<i64>)> = Vec::new();
    let mut it = pairs(lua, &t);
    let ghost all = pending_pairs(it);
    let ghost mut n: int = 0;
    proof {
        assert(table_at(table_entries(*h), "streams"@, Some(t)));
        assert(all.skip(0) =~= all);
        assert(all.take(0) =~= Seq::<(LuaView, LuaView)>::empty());
    }
    loop
        invariant
            table_at(table_entries(*h), "streams"@, Some(t)),
            made_by(t) == made_by(*h),
            is_open(*lua, t),
            is_open(*lua, *h),
            walked_table(it) == t,
            pairs_are_kin(all, t),
            all.to_multiset() == table_entries(t),
            0 <= n <= all.len(),
            pending_pairs(it) == all.skip(n),
            schema_rows(only_tables(all.take(n)), rows@),
        decreases pending_pairs(it).len(),
    {
        match next_pair(&mut it) {
            None => {
                proof {
                    assert(all.take(n) =~= all);
                }
                return Ok(rows);
            },
            Some(Err(e)) => {
                return Err(pair_error(&e));
            },
            Some(Ok((k, v))) => {
                let ghost kv = (value_of(k), value_of(v));
                proof {
                    assert(all.skip(n)[0] == all[n]);
                    assert(is_kin(all[n].1, t));
                    assert(all.skip(n).drop_first() =~= all.skip(n + 1));
                    assert(all.take(n + 1) =~= all.take(n).push(kv));
                    lemma_only_tables_push(all.take(n), kv);
                }
                if let LuaValue::Table(st) = convert(lua, v) {
                    let schema: Option<i64> = match int_field(lua, &st, "schema") {
                        Ok(x) => x,
                        Err(e) => return Err(e),
                    };
                    let name: LuaTree = read_flat(lua, k);
                    rows.push((name, schema));
                }
                proof {
                    n = n + 1;
                }
            },
        }
    }
}

/// The `_format` table.
fn read_format(lua: &mlua::Lua, h: &mlua::Table) -> (r: Result<RawFormat, String>)
    requires
        is_open(*lua, *h),
    ensures
        match r {
            Ok(f) => format_read(table_entries(*h), f) && fits(LuaTree::Table(f.pairs), 0),
            Err(e) => lua_failed(made_by(*h), e@) || e@ == too_deep() && deep_value(table_entries(*h), 1),
        },
{
    let producer_build = match text_field(lua, h, "producerBuild") {
        Ok(s) => s,
        Err(e) => return Err(e),
    };
    let format_version = match int_field(lua, h, "formatVersion") {
        Ok(n) => n,
        Err(e) => return Err(e),
    };
    let schema_version = match int_field(lua, h, "schemaVersion") {
        Ok(n) => n,
        Err(e) => return Err(e),
    };
    let registry_version = match int_field(lua, h, "registryVersion") {
        Ok(n) => n,
        Err(e) => return Err(e),
    };
    let generated_at = match int_field(lua, h, "generatedAt") {
        Ok(n) => n,
        Err(e) => return Err(e),
    };
    let pairs = match read_pairs(lua, h, 1) {
        Ok(p) => p,
        Err(e) => return Err(e),
    };
    let schemas = match read_schemas(lua, h) {
        Ok(s) => s,
        Err(e) => return Err(e),
    };
    Ok(
        RawFormat {
            pairs,
            producer_build,
            format_version,
            schema_version,
            registry_version,
            generated_at,
            schemas,
        },
    )
}

/// The parts of an export global that matter.
pub(crate) fn read_export(lua: &mlua::Lua, h: &mlua::Table) -> (r: Result<RawExport, String>)
    requires
        is_open(*lua, *h),
    ensures
        match r {
            Ok(raw) => export_read(table_entries(*h), raw) && crate::svparse::raw_fits(raw),
            Err(e) => lua_failed(made_by(*h), e@) || e@ == too_deep() && export_deep(table_entries(*h)),
        },
{
    let format: Option<RawFormat> = match table_field(lua, h, "_format") {
        Ok(Some(t)) => {
            proof {
                assert(table_at(table_entries(*h), "_format"@, Some(t)));
            }
            match read_format(lua, &t) {
                Ok(f) => Some(f),
                Err(e) => return Err(e),
            }
        },
        Ok(None) => {
            proof {
                assert(table_at(table_entries(*h), "_format"@, None));
            }
            None
        },
        Err(e) => return Err(e),
    };
    let sessions = match read_part(lua, h, "sessions") {
        Ok(p) => p,
        Err(e) => return Err(e),
    };
    let registry = match read_part(lua, h, "_registry") {
        Ok(p) => p,
        Err(e) => return Err(e),
    };
    let items = match read_items(lua, h) {
        Ok(p) => p,
        Err(e) => return Err(e),
    };
    let streams = match read_streams(lua, h) {
        Ok(s) => s,
        Err(e) => return Err(e),
    };
    let stream_meta = match read_metas(lua, h) {
        Ok(m) => m,
        Err(e) => return Err(e),
    };
    Ok(RawExport { format, sessions, registry, items, streams, stream_meta })
}

/// Of the pairs of a table, all whose value is a table are taken, in their order, and no
/// other.
pub proof fn law_all_tables_are_taken(s: Seq<(LuaView, LuaView)>)
    ensures
        only_tables(s) == s.filter(|x: (LuaView, LuaView)| x.1 is Table).map_values(
            |x: (LuaView, LuaView)| (x.0, x.1->Table_0),
        ),
    decreases s.len(),
{
    let keep = |x: (LuaView, LuaView)| x.1 is Table;
    let get = |x: (LuaView, LuaView)| (x.0, x.1->Table_0);
    reveal(Seq::filter);
    if s.len() > 0 {
        law_all_tables_are_taken(s.drop_last());
        let before = s.drop_last().filter(keep);
        assert(before.push(s.last()).map_values(get) =~= before.map_values(get).push(get(s.last())));
    } else {
        assert(s.filter(keep).map_values(get) =~= Seq::empty());
    }
}

/// Every pair of the sessions table of an export is read, and so is every learned item and
/// every domain of the registry: with its key, and with its value as it is.
pub proof fn law_parts_are_read_whole(
    entries: Multiset<(LuaView, LuaView)>,
    key: Seq<char>,
    t: mlua::Table,
    p: Seq<(LuaTree, LuaTree)>,
    k: LuaView,
    w: LuaView,
)
    requires
        part_read(entries, key, p),
        forall|v: LuaView| #[trigger] holds_at(entries, key, v) ==> v == LuaView::Table(t),
        table_entries(t).contains((k, w)),
    ensures
        p.len() == table_entries(t).len(),
        exists|i: int| 0 <= i < p.len() && reads_flat(k, (#[trigger] p[i]).0) && crate::lua::reads(w, p[i].1),
{
    let h = choose|h: Option<mlua::Table>| #[trigger]
        table_at(entries, key, h) && match h {
            Some(t) => reads_entries(table_entries(t), p),
            None => p.len() == 0,
        };
    let v = choose|v: LuaView| #[trigger]
        holds_at(entries, key, v) && match h {
            Some(t) => v == LuaView::Table(t),
            None => !(v is Table),
        };
    assert(v == LuaView::Table(t));
    assert(h == Some(t));
    let s = choose|s: Seq<(LuaView, LuaView)>| #[trigger]
        s.to_multiset() == table_entries(t) && crate::lua::pairs_read(s, p);
    vstd::seq_lib::to_multiset_len(s);
    vstd::seq_lib::to_multiset_contains(s, (k, w));
    let i = s.index_of((k, w));
    assert(reads_flat(s[i].0, p[i].0) && crate::lua::reads(s[i].1, p[i].1));
    assert(reads_flat(k, p[i].0) && crate::lua::reads(w, p[i].1));
}

/// Where an integer is read from a field, an integer is taken as it is, a numeral as the
/// integer that it writes, and a float without what stands behind its point where that fits;
/// where a text is, a text is taken as it is and an integer as its numeral.
pub proof fn law_fields_are_read_as_wanted(v: LuaView, n: Option<i64>, s: Option<String>, m: i64)
    requires
        integer_is(v, n),
        text_is(v, s),
    ensures
        v == LuaView::Integer(m) ==> n == Some(m) && s is Some && i64_of(s->0@) == Some(m),
        v == LuaView::Text(vstd::utf8::encode_utf8(signed_dec_of(m as int))) ==> n == Some(m),
        v matches LuaView::Number(bits) ==> n == crate::ieee::in_range_i64(bits),
        v matches LuaView::Text(b) ==> valid_utf8(b) ==> s is Some && s->0@ == decode_utf8(b),
        v is Nil || v is Boolean || v is Table || v is Other ==> n is None && s is None,
{
    law_numeral_round_trip(m);
    assert(numeral(m) == vstd::utf8::encode_utf8(signed_dec_of(m as int)));
}

proof fn lemma_table_is_among(s: Seq<(LuaView, LuaView)>, k: LuaView, t: mlua::Table) -> (i: int)
    requires
        s.contains((k, LuaView::Table(t))),
    ensures
        0 <= i < only_tables(s).len(),
        only_tables(s)[i] == (k, t),
    decreases s.len(),
{
    let pair = (k, LuaView::Table(t));
    let j = s.index_of(pair);
    if j == s.len() - 1 {
        only_tables(s).len() - 1
    } else {
        assert(s.drop_last()[j] == pair);
        lemma_table_is_among(s.drop_last(), k, t)
    }
}

/// Every table below `streams` is read as a stream, and every one below `_streamMeta` as a
/// counter.
pub proof fn law_every_stream_table_is_read(
    entries: Multiset<(LuaView, LuaView)>,
    h: mlua::Table,
    raws: Seq<RawStream>,
    metas: Seq<RawMeta>,
    k: LuaView,
    t: mlua::Table,
)
    requires
        table_entries(h).contains((k, LuaView::Table(t))),
    ensures
        streams_read(entries, raws) && (forall|v: LuaView| #[trigger]
            holds_at(entries, "streams"@, v) ==> v == LuaView::Table(h)) ==> exists|i: int|
            0 <= i < raws.len() && stream_read((k, t), #[trigger] raws[i]),
        metas_read(entries, metas) && (forall|v: LuaView| #[trigger]
            holds_at(entries, "_streamMeta"@, v) ==> v == LuaView::Table(h)) ==> exists|i: int|
            0 <= i < metas.len() && meta_read((k, t), #[trigger] metas[i]),
{
    if streams_read(entries, raws) && (forall|v: LuaView| #[trigger]
        holds_at(entries, "streams"@, v) ==> v == LuaView::Table(h)) {
        let o = choose|o: Option<mlua::Table>| #[trigger]
            table_at(entries, "streams"@, o) && match o {
                Some(t) => exists|s: Seq<(LuaView, LuaView)>| #[trigger]
                    s.to_multiset() == table_entries(t) && stream_rows(only_tables(s), raws),
                None => raws.len() == 0,
            };
        let v = choose|v: LuaView| #[trigger]
            holds_at(entries, "streams"@, v) && match o {
                Some(t) => v == LuaView::Table(t),
                None => !(v is Table),
            };
        assert(v == LuaView::Table(h));
        assert(o == Some(h));
        let s = choose|s: Seq<(LuaView, LuaView)>| #[trigger]
            s.to_multiset() == table_entries(h) && stream_rows(only_tables(s), raws);
        vstd::seq_lib::to_multiset_contains(s, (k, LuaView::Table(t)));
        let i = lemma_table_is_among(s, k, t);
        assert(stream_read(only_tables(s)[i], raws[i]));
    }
    if metas_read(entries, metas) && (forall|v: LuaView| #[trigger]
        holds_at(entries, "_streamMeta"@, v) ==> v == LuaView::Table(h)) {
        let o = choose|o: Option<mlua::Table>| #[trigger]
            table_at(entries, "_streamMeta"@, o) && match o {
                Some(t) => exists|s: Seq<(LuaView, LuaView)>| #[trigger]
                    s.to_multiset() == table_entries(t) && meta_rows(only_tables(s), metas),
                None => metas.len() == 0,
            };
        let v = choose|v: LuaView| #[trigger]
            holds_at(entries, "_streamMeta"@, v) && match o {
                Some(t) => v == LuaView::Table(t),
                None => !(v is Table),
            };
        assert(v == LuaView::Table(h));
        assert(o == Some(h));
        let s = choose|s: Seq<(LuaView, LuaView)>| #[trigger]
            s.to_multiset() == table_entries(h) && meta_rows(only_tables(s), metas);
        vstd::seq_lib::to_multiset_contains(s, (k, LuaView::Table(t)));
        let i = lemma_table_is_among(s, k, t);
        assert(meta_read(only_tables(s)[i], metas[i]));
    }
}

/// Each field is read from its own place: the number and the base of a counter, and the
/// schema version of a stream, are those that its table holds under their names.
pub proof fn law_fields_are_read_from_their_places(
    pair: (LuaView, mlua::Table),
    stream: RawStream,
    meta: RawMeta,
    n: i64,
)
    ensures
        meta_read(pair, meta) && (forall|v: LuaView| #[trigger]
            holds_at(table_entries(pair.1), "seq"@, v) ==> v == LuaView::Integer(n)) ==> meta.seq
            == LuaTree::Integer(n),
        meta_read(pair, meta) && (forall|v: LuaView| #[trigger]
            holds_at(table_entries(pair.1), "base"@, v) ==> v == LuaView::Integer(n)) ==> meta.base
            == LuaTree::Integer(n),
        stream_read(pair, stream) && (forall|v: LuaView| #[trigger]
            holds_at(table_entries(pair.1), "schema"@, v) ==> v == LuaView::Integer(n))
            ==> stream.schema == LuaTree::Integer(n),
        stream_read(pair, stream) ==> reads_list(table_entries(pair.1), stream.entries@),
        stream_read(pair, stream) ==> reads_flat(pair.0, stream.name),
        meta_read(pair, meta) ==> reads_flat(pair.0, meta.name),
{
    if meta_read(pair, meta) {
        let a = choose|v: LuaView| #[trigger]
            holds_at(table_entries(pair.1), "seq"@, v) && reads_flat(v, meta.seq);
        let b = choose|v: LuaView| #[trigger]
            holds_at(table_entries(pair.1), "base"@, v) && reads_flat(v, meta.base);
        assert(reads_flat(a, meta.seq) && reads_flat(b, meta.base));
    }
    if stream_read(pair, stream) {
        let c = choose|v: LuaView| #[trigger]
            holds_at(table_entries(pair.1), "schema"@, v) && reads_flat(v, stream.schema);
        assert(reads_flat(c, stream.schema));
    }
}

/// Each version in `_format` is read from its own place, an integer there as it is.
pub proof fn law_versions_are_read_from_their_places(
    entries: Multiset<(LuaView, LuaView)>,
    f: RawFormat,
    key: Seq<char>,
    n: i64,
)
    requires
        format_read(entries, f),
        forall|v: LuaView| #[trigger] holds_at(entries, key, v) ==> v == LuaView::Integer(n),
    ensures
        key == "formatVersion"@ ==> f.format_version == Some(n),
        key == "schemaVersion"@ ==> f.schema_version == Some(n),
        key == "registryVersion"@ ==> f.registry_version == Some(n),
        key == "generatedAt"@ ==> f.generated_at == Some(n),
{
    if key == "formatVersion"@ {
        let v = choose|v: LuaView| #[trigger]
            holds_at(entries, key, v) && integer_is(v, f.format_version);
        assert(integer_is(v, f.format_version));
    }
    if key == "schemaVersion"@ {
        let v = choose|v: LuaView| #[trigger]
            holds_at(entries, key, v) && integer_is(v, f.schema_version);
        assert(integer_is(v, f.schema_version));
    }
    if key == "registryVersion"@ {
        let v = choose|v: LuaView| #[trigger]
            holds_at(entries, key, v) && integer_is(v, f.registry_version);
        assert(integer_is(v, f.registry_version));
    }
    if key == "generatedAt"@ {
        let v = choose|v: LuaView| #[trigger]
            holds_at(entries, key, v) && integer_is(v, f.generated_at);
        assert(integer_is(v, f.generated_at));
    }
}

} // verus!
