use gec_uplink::json::Json;
use gec_uplink::lua::LuaTree;
use gec_uplink::svparse::{
    export_of, key_as_int, key_to_string, lua_to_json, parse_export_str, parse_stream,
    value_as_int, RawExport, RawFormat, RawMeta, RawStream, SvExport,
};

const SAMPLE: &[u8] = br#"
SBFData = {
  ["version"] = 1,
  ["_format"] = {
    ["producerBuild"] = "2026.07.11.4",
    ["formatVersion"] = 1, ["schemaVersion"] = 1, ["registryVersion"] = 2,
    ["generatedAt"] = 1783860305,
    ["streams"] = { ["fishlog"] = { ["schema"] = 1 } },
  },
  ["_registry"] = {
    ["char"] = { ["items"] = {
      { ["guid"]="Player-1", ["name"]="Zephire", ["class"]="DRUID",
        ["state"] = { ["gold"]=0, ["professions"] = { ["roster"] = {
          [356] = { ["name"]="Fishing", ["rank"]=300 },
          [197] = { ["name"]="Tailoring", ["rank"]=82 },
        } } } },
    } },
    ["place"] = { ["items"] = {
      { ["key"]="12>88", ["cascade"] = {
          { ["name"]="Kalimdor", ["kind"]="continent", ["mapID"]=12 },
          { ["name"]="Thunder Bluff", ["kind"]="zone", ["mapID"]=88 } } },
    } },
    ["item"] = { ["items"] = {
      { ["id"]=238366, ["name"]="Lynxfish" },
    } },
  },
  ["db"] = { ["items"] = {
    [133702] = { ["name"]="Aromatic Murloc Slime", ["slots"] = { ["chum_perception"]=true },
                 ["maps"] = { ["630"]="Azsuna" } },
  } },
  ["streams"] = {
    ["fishlog"] = {
      { ["k"]="expired", ["p"]=1, ["t"]=1782973264, ["gen"]=3, ["dur"]=22, ["x"]=45.8, ["src"]="SBF" },
      { ["k"]="caught", ["id"]=238366, ["name"]="Lynxfish", ["count"]=1, ["p"]=1, ["t"]=1782973301,
        ["q"]=1, ["ch"]=1, ["gen"]=3, ["link"]="|Hitem:238366|h[Lynxfish]|h" },
      { ["k"]="action", ["spell"]=1706, ["slotKey"]="pole", ["t"]=1782973301, ["gen"]=3 },
    },
  },
}
"#;

const SESSIONS_SAMPLE: &[u8] = br#"
HaulData = {
  version = 6,
  sessions = {
    ["closed-1"] = {
      builds = { "2026.07.16.6" },
      gameEnv = { clientBuild = "11.0.5", interface = 110005, flavor = 1 },
      schemaVersion = 6, startedAt = 100, closedAt = 700,
      pauses = {}, character = 1, prices = {}, exclusions = {},
    },
    ["open-2"] = {   -- live session: NO closedAt, uploader must withhold it
      builds = { "2026.07.16.6" },
      gameEnv = { clientBuild = "11.0.5", interface = 110005, flavor = 1 },
      schemaVersion = 6, startedAt = 800,
      pauses = {}, character = 1, prices = {}, exclusions = {},
    },
  },
  streams = {
    events  = { { t = 110, k = "coin", sid = "closed-1", amount = 50, gen = 1 } },
    markers = {
      { t = 100, k = "start", sid = "closed-1", who = "Gonefishin", gen = 1 },
      { t = 700, k = "stop",  sid = "closed-1", gen = 1 },
    },
  },
  _format = {
    formatVersion = 1, producer = "Haul", producerBuild = "2026.07.16.6",
    registryVersion = 2, schemaVersion = 6,
    streams = { events = { schema = 6 }, markers = { schema = 6 } },
    generatedAt = 999,
  },
}
"#;

fn num(n: i64) -> Json {
    Json::Int(n)
}

fn text(s: &str) -> Json {
    Json::Str(s.to_string())
}

fn at<'a>(v: &'a Json, k: &str) -> &'a Json {
    v.get(k).unwrap()
}

fn is_object(v: &Json) -> bool {
    matches!(v, Json::Obj(_))
}

fn items(v: &Json) -> &Vec<Json> {
    v.as_array().unwrap()
}

#[test]
fn snapshot_metadata_parsed() {
    let x = parse_export_str(SAMPLE, "SBFData").unwrap();
    assert_eq!(x.producer_build.as_deref(), Some("2026.07.11.4"));
    assert_eq!(x.format_version, Some(1));
    assert_eq!(x.schema_version, Some(1));
    assert_eq!(x.registry_version, Some(2));
    assert_eq!(x.generated_at, Some(1783860305));
}

#[test]
fn registry_domains_keep_items_wrapper_verbatim() {
    let x = parse_export_str(SAMPLE, "SBFData").unwrap();
    let char_dom = x.registry.get("char").unwrap();
    assert!(is_object(char_dom), "a domain keeps its wrapper");
    let chars = items(at(char_dom, "items"));
    assert_eq!(chars.len(), 1);
    assert_eq!(at(&chars[0], "name"), &text("Zephire"));
    assert_eq!(at(at(&chars[0], "state"), "gold"), &num(0));
    // integer keys that do not run from 1 on give an object
    let roster = at(at(at(&chars[0], "state"), "professions"), "roster");
    assert!(is_object(roster));
    assert_eq!(at(at(roster, "356"), "name"), &text("Fishing"));
    assert_eq!(at(at(roster, "197"), "rank"), &num(82));
    let places = items(at(x.registry.get("place").unwrap(), "items"));
    let cascade = items(at(&places[0], "cascade"));
    assert_eq!(cascade.len(), 2);
    assert_eq!(at(&cascade[0], "kind"), &text("continent"));
    assert_eq!(at(&cascade[1], "name"), &text("Thunder Bluff"));
    assert!(x.registry.get("item").is_some());
}

#[test]
fn stream_entries_verbatim_all_fields() {
    let x = parse_export_str(SAMPLE, "SBFData").unwrap();
    let fl = x.streams.get("fishlog").unwrap();
    assert_eq!(fl.schema, 1);
    assert_eq!(fl.entries.len(), 3);
    assert_eq!(at(&fl.entries[0], "k"), &text("expired"));
    let caught = &fl.entries[1];
    assert_eq!(at(caught, "k"), &text("caught"));
    assert_eq!(at(caught, "id"), &num(238366));
    assert_eq!(at(caught, "name"), &text("Lynxfish"));
    assert_eq!(at(caught, "q"), &num(1));
    assert_eq!(at(caught, "count"), &num(1));
    assert_eq!(at(caught, "ch"), &num(1));
    assert_eq!(at(caught, "link"), &text("|Hitem:238366|h[Lynxfish]|h"));
    assert_eq!(at(&fl.entries[0], "x"), &Json::Float(45.8f64.to_bits()));
    let action = &fl.entries[2];
    assert_eq!(at(action, "k"), &text("action"));
    assert_eq!(at(action, "spell"), &num(1706));
    assert_eq!(at(action, "slotKey"), &text("pole"));
}

#[test]
fn learned_items_inline_id_and_nested_maps() {
    let x = parse_export_str(SAMPLE, "SBFData").unwrap();
    assert_eq!(x.db_items.len(), 1);
    let it = &x.db_items[0];
    assert_eq!(at(it, "id"), &num(133702));
    assert_eq!(at(it, "name"), &text("Aromatic Murloc Slime"));
    assert_eq!(at(at(it, "slots"), "chum_perception"), &Json::Bool(true));
    assert_eq!(at(at(it, "maps"), "630"), &text("Azsuna"));
}

#[test]
fn empty_and_object_tables() {
    let src = br#"X = { arr = {10,20,30}, holey = {[1]=1,[3]=3}, mixed = {[1]="a", k="b"}, empty = {} }"#;
    let x = parse_export_str(src, "X").unwrap();
    assert_eq!(x.streams.len(), 0);
}

#[test]
fn array_vs_object_detection() {
    let src = br#"
SBFData = { ["streams"] = { ["s"] = {
  { ["seq"] = {10,20,30}, ["holey"] = { [1]=1, [3]=3 }, ["mixed"] = { [1]="a", ["k"]="b" } },
} } } "#;
    let x = parse_export_str(src, "SBFData").unwrap();
    let e = &x.streams.get("s").unwrap().entries[0];
    assert_eq!(at(e, "seq"), &Json::Arr(vec![num(10), num(20), num(30)]));
    assert!(is_object(at(e, "holey")));
    assert_eq!(at(at(e, "holey"), "1"), &num(1));
    assert_eq!(at(at(e, "holey"), "3"), &num(3));
    assert!(is_object(at(e, "mixed")));
    assert_eq!(at(at(e, "mixed"), "1"), &text("a"));
    assert_eq!(at(at(e, "mixed"), "k"), &text("b"));
}

#[test]
fn sessions_map_parsed_with_sid_inlined_and_close_gate_visible() {
    let x = parse_export_str(SESSIONS_SAMPLE, "HaulData").unwrap();
    assert_eq!(x.sessions.len(), 2);
    let by_sid = |sid: &str| x.sessions.iter().find(|s| at(s, "sid") == &text(sid)).unwrap();
    let closed = by_sid("closed-1");
    assert_eq!(at(closed, "closedAt"), &num(700));
    assert_eq!(at(at(closed, "gameEnv"), "flavor"), &num(1));
    let open = by_sid("open-2");
    assert!(open.get("closedAt").is_none());
}

#[test]
fn markers_are_their_own_stream_split_from_events() {
    let x = parse_export_str(SESSIONS_SAMPLE, "HaulData").unwrap();
    let ev = x.streams.get("events").unwrap();
    let mk = x.streams.get("markers").unwrap();
    assert_eq!(ev.entries.len(), 1);
    assert_eq!(at(&ev.entries[0], "k"), &text("coin"));
    assert_eq!(mk.entries.len(), 2);
    assert_eq!(at(&mk.entries[0], "k"), &text("start"));
    assert_eq!(at(&mk.entries[1], "k"), &text("stop"));
}

#[test]
fn format_envelope_passed_through_verbatim() {
    let x = parse_export_str(SESSIONS_SAMPLE, "HaulData").unwrap();
    assert_eq!(x.format.get("formatVersion").unwrap(), &num(1));
    assert_eq!(x.format.get("producer").unwrap(), &text("Haul"));
    assert_eq!(at(at(x.format.get("streams").unwrap(), "markers"), "schema"), &num(6));
    assert_eq!(x.schema_version, Some(6));
    assert_eq!(x.producer_build.as_deref(), Some("2026.07.16.6"));
}

#[test]
fn stream_meta_parsed_seq_and_base() {
    let src = br#"
SBFData = {
  ["_streamMeta"] = {
    ["events"]  = { ["seq"] = 1043, ["base"] = 452 },
    ["markers"] = { ["seq"] = 20,   ["base"] = 1 },
  },
  ["streams"] = { ["events"] = {
    { ["seq"] = 1042, ["k"] = "caught" },
    { ["seq"] = 1043, ["k"] = "caught" },
  } },
}
"#;
    let x = parse_export_str(src, "SBFData").unwrap();
    let ev = x.stream_meta.get("events").unwrap();
    assert_eq!(ev.seq, 1043);
    assert_eq!(ev.base, 452);
    let mk = x.stream_meta.get("markers").unwrap();
    assert_eq!(mk.seq, 20);
    assert_eq!(mk.base, 1);
    assert_eq!(at(&x.streams.get("events").unwrap().entries[1], "seq"), &num(1043));
}

#[test]
fn missing_stream_meta_is_empty_not_error() {
    let x = parse_export_str(SAMPLE, "SBFData").unwrap();
    assert_eq!(x.stream_meta.len(), 0);
}

#[test]
fn missing_global_errs_not_panics() {
    assert!(parse_export_str(b"OtherThing = {}", "SBFData").is_err());
}

#[test]
fn broken_lua_errs() {
    assert!(parse_export_str(b"SBFData = { broken", "SBFData").is_err());
}

#[test]
fn no_stdlib_available() {
    assert!(parse_export_str(b"SBFData = os.time()", "SBFData").is_err());
}

#[test]
fn a_global_that_is_no_table_is_an_error() {
    assert!(parse_export_str(b"SBFData = 5", "SBFData").is_err());
}

#[test]
fn bytes_that_are_no_utf8_are_replaced() {
    let x = parse_export_str(b"X = { streams = { s = { { n = \"a\xffb\" } } } }", "X").unwrap();
    assert_eq!(at(&x.streams.get("s").unwrap().entries[0], "n"), &text("a\u{fffd}b"));
}

#[test]
fn too_much_memory_is_an_error() {
    let mut src = "X = {} local s = \"0123456789abcdef\"".to_string();
    for _ in 0..40 {
        src.push_str(" s = s .. s");
    }
    let e = parse_export_str(src.as_bytes(), "X").err().unwrap();
    assert!(e.starts_with("eval X: ") && e.contains("memory"), "{e}");
}

#[test]
fn only_plain_data_is_run() {
    let no = "eval X: the file loops or calls a function, which no data does";
    for src in [
        "X = {} while true do end",
        "X = {} repeat until false",
        "X = {} ::a:: goto a",
        "X = {} for i = 1.0, 1e999 do end",
        "X = {} local function f() return f() end f()",
        "X = (function() return {} end)()",
        "X = setmetatable({}, {})",
        "X = load \"return 1\"",
        "X = f{1}",
        "X = a.b:c[[d]]",
        "X = t[1] -- and then\n (2)",
    ] {
        assert_eq!(parse_export_str(src.as_bytes(), "X").err().as_deref(), Some(no), "{src}");
    }
    for src in [
        "X = { a = \"while (for) do\", b = 'it\\'s \\\\', c = [==[ f() ]] ]==] }",
        "-- while true do f() end\nX = {} --[[ for\nwhile ]] Y = {}",
        "local t = { 1, 2 } if not (t == nil) then X = { [1] = t, k = (1 + 2) } end",
        "X = { f = function(a, b) end } function X.g(c) end",
        "X = { whiles = 1, fort = -0x1F, _for = 1.5e3 }",
    ] {
        assert!(parse_export_str(src.as_bytes(), "X").is_ok(), "{src}");
    }
}

#[test]
fn a_file_reaches_no_library() {
    // the name of a function of the basic library names nothing
    assert!(parse_export_str(b"X = setmetatable", "X").is_err());
    let x = parse_export_str(b"X = { _format = { producerBuild = _VERSION } }", "X").unwrap();
    assert_eq!(x.producer_build, None);
    // compiled code is not run
    assert!(parse_export_str(b"\x1bLua", "X").err().unwrap().starts_with("eval X: "));
}

#[test]
fn integers_in_strings_are_converted() {
    let src = b"X = { _format = { formatVersion = \"7\", schemaVersion = \"-9223372036854775808\",
        registryVersion = \"seven\", generatedAt = \"0x10\" } }";
    let x = parse_export_str(src, "X").unwrap();
    assert_eq!(x.format_version, Some(7));
    assert_eq!(x.schema_version, Some(i64::MIN));
    assert_eq!(x.registry_version, None);
    assert_eq!(x.generated_at, Some(16));
}

#[test]
fn functions_in_the_data_become_null() {
    let x = parse_export_str(b"X = { streams = { s = { { f = function() end } } } }", "X").unwrap();
    assert_eq!(at(&x.streams.get("s").unwrap().entries[0], "f"), &Json::Null);
}

fn bytes(s: &str) -> LuaTree {
    LuaTree::Text(s.as_bytes().to_vec())
}

fn float(x: f64) -> LuaTree {
    LuaTree::Number(x.to_bits())
}

#[test]
fn whole_numbers_count_as_integers_in_keys_and_values() {
    assert_eq!(key_as_int(&LuaTree::Integer(3)), Some(3));
    assert_eq!(key_as_int(&float(3.0)), Some(3));
    assert_eq!(key_as_int(&float(3.5)), None);
    assert_eq!(key_as_int(&bytes("3")), None);
    assert_eq!(value_as_int(&LuaTree::Integer(-4)), Some(-4));
    assert_eq!(value_as_int(&float(7.9)), Some(7));
    assert_eq!(value_as_int(&float(f64::NAN)), None);
    assert_eq!(value_as_int(&float(1e300)), Some(i64::MAX));
    assert_eq!(value_as_int(&bytes("7")), None);
}

#[test]
fn keys_are_written_out() {
    assert_eq!(key_to_string(&bytes("abc")), "abc");
    assert_eq!(key_to_string(&LuaTree::Integer(356)), "356");
    assert_eq!(key_to_string(&float(2.5)), "2.5");
    assert_eq!(key_to_string(&LuaTree::Boolean(true)), "true");
}

#[test]
fn numbers_that_are_not_finite_become_null() {
    assert_eq!(lua_to_json(&float(f64::INFINITY), 0).unwrap(), Json::Null);
    assert_eq!(lua_to_json(&float(f64::NAN), 0).unwrap(), Json::Null);
    assert_eq!(lua_to_json(&float(1.5), 0).unwrap(), Json::Float(1.5f64.to_bits()));
    assert_eq!(lua_to_json(&LuaTree::Other, 0).unwrap(), Json::Null);
    assert_eq!(lua_to_json(&LuaTree::Nil, 0).unwrap(), Json::Null);
}

#[test]
fn an_empty_table_is_an_array() {
    assert_eq!(lua_to_json(&LuaTree::Table(vec![]), 0).unwrap(), Json::Arr(vec![]));
}

#[test]
fn tables_that_run_from_one_on_are_arrays_in_any_order() {
    let t = LuaTree::Table(vec![
        (LuaTree::Integer(2), bytes("b")),
        (LuaTree::Integer(1), bytes("a")),
    ]);
    assert_eq!(lua_to_json(&t, 0).unwrap(), Json::Arr(vec![text("a"), text("b")]));
}

#[test]
fn tables_that_nest_too_deep_are_an_error() {
    let mut t = LuaTree::Integer(1);
    for _ in 0..300 {
        t = LuaTree::Table(vec![(LuaTree::Integer(1), t)]);
    }
    assert!(lua_to_json(&t, 0).is_err());
    let mut s = b"X = { streams = { s = { ".to_vec();
    for _ in 0..150 {
        s.extend_from_slice(b"{");
    }
    for _ in 0..150 {
        s.extend_from_slice(b"}");
    }
    s.extend_from_slice(b" } } }");
    assert!(parse_export_str(&s, "X").is_ok());
}

#[test]
fn a_table_that_holds_itself_is_an_error() {
    let src = b"X = { streams = { s = { {} } } } X.streams.s[1].me = X.streams.s[1]";
    assert!(parse_export_str(src, "X").is_err());
}

fn raw_stream(name: &str, schema: LuaTree, entries: Vec<LuaTree>) -> RawStream {
    RawStream { name: bytes(name), schema, entries }
}

#[test]
fn a_stream_may_state_its_own_schema() {
    let s = parse_stream(&raw_stream("s", LuaTree::Integer(9), vec![]), 2).unwrap();
    assert_eq!(s.schema, 9);
    let t = parse_stream(&raw_stream("s", LuaTree::Nil, vec![LuaTree::Table(vec![])]), 2).unwrap();
    assert_eq!(t.schema, 2);
    assert_eq!(t.entries.len(), 1);
}

#[test]
fn an_export_is_put_together_from_its_parts() {
    let raw = RawExport {
        format: Some(RawFormat {
            pairs: vec![(bytes("producer"), bytes("SBF"))],
            producer_build: Some("1".to_string()),
            format_version: Some(1),
            schema_version: None,
            registry_version: None,
            generated_at: None,
            schemas: vec![(bytes("events"), Some(4)), (bytes("other"), None)],
        }),
        sessions: vec![(bytes("s1"), LuaTree::Table(vec![(bytes("closedAt"), LuaTree::Integer(5))]))],
        registry: vec![(bytes("char"), LuaTree::Table(vec![]))],
        items: vec![(LuaTree::Integer(12), LuaTree::Table(vec![]))],
        streams: vec![raw_stream("events", LuaTree::Nil, vec![])],
        stream_meta: vec![RawMeta {
            name: bytes("events"),
            seq: LuaTree::Integer(8),
            base: LuaTree::Nil,
        }],
    };
    let x: SvExport = export_of(raw).unwrap();
    assert_eq!(x.producer_build.as_deref(), Some("1"));
    assert_eq!(x.format.get("producer").unwrap(), &text("SBF"));
    assert_eq!(x.sessions.len(), 1);
    assert_eq!(at(&x.sessions[0], "sid"), &text("s1"));
    assert_eq!(at(&x.db_items[0], "id"), &num(12));
    assert_eq!(x.streams.get("events").unwrap().schema, 4);
    assert_eq!(x.stream_meta.get("events").unwrap().seq, 8);
    assert_eq!(x.stream_meta.get("events").unwrap().base, 1);
}

#[test]
fn an_empty_export_has_nothing() {
    let x = SvExport::default();
    assert_eq!(x.streams.len(), 0);
    assert_eq!(x.registry.len(), 0);
    assert!(x.sessions.is_empty());
}

#[test]
fn many_records_are_read() {
    let mut src = String::from("X = { _registry = { item = { _byKey = {");
    for i in 0..12000 {
        src.push_str(&format!("[\"k{i}\"]={i},"));
    }
    src.push_str("} } }, streams = { s = {");
    for i in 1..=20000 {
        src.push_str(&format!("{{seq={i},k=\"x\",p={{1,2}}}},"));
    }
    src.push_str("} } }");
    let x = parse_export_str(src.as_bytes(), "X").unwrap();
    let entries = &x.streams.get("s").unwrap().entries;
    assert_eq!(entries.len(), 20000);
    assert_eq!(at(&entries[19999], "seq"), &num(20000));
    let by_key = at(x.registry.get("item").unwrap(), "_byKey");
    assert_eq!(at(by_key, "k11999"), &num(11999));
}

#[test]
fn the_format_is_read_as_lua_converts_it() {
    let src = b"X = { _format = { producerBuild = 7, formatVersion = 2.5, schemaVersion = \"12\", registryVersion = true, generatedAt = 1e300 } }";
    let x = parse_export_str(src, "X").unwrap();
    assert_eq!(x.producer_build.as_deref(), Some("7"));
    assert_eq!(x.format_version, Some(2));
    assert_eq!(x.schema_version, Some(12));
    assert_eq!(x.registry_version, None);
    assert_eq!(x.generated_at, None);
    let src = b"X = { _format = { producerBuild = 1.5, formatVersion = -9223372036854775808.0 } }";
    let x = parse_export_str(src, "X").unwrap();
    assert_eq!(x.producer_build.as_deref(), Some("1.5"));
    assert_eq!(x.format_version, Some(i64::MIN));
    let x = parse_export_str(b"X = { _format = { producerBuild = \"\xff\" } }", "X").unwrap();
    assert_eq!(x.producer_build, None);
}
