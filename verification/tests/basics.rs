use gec_uplink::ieee::{checked_i64, finite, to_i64, whole};
use gec_uplink::installs::norm;
use gec_uplink::json::Json;
use gec_uplink::number::{dec_i64, dec_u64, parse_i64, parse_u32};
use gec_uplink::text::{eq_ignore_ascii_case, is_less, split, trim};
use gec_uplink::textmap::TextMap;

#[test]
fn numerals_read_back() {
    for n in [0, 7, -1, 42, i64::MAX, i64::MIN] {
        assert_eq!(dec_i64(n), n.to_string());
        assert_eq!(parse_i64(&dec_i64(n)), Some(n));
    }
    assert_eq!(dec_u64(u64::MAX), u64::MAX.to_string());
}

#[test]
fn numerals_are_read_as_std_reads_them() {
    for s in ["", "+", "-", "+5", "-0", "007", "9223372036854775807", "9223372036854775808",
        "-9223372036854775808", "-9223372036854775809", "1 ", " 1", "1.0", "\u{661}", "--1"] {
        assert_eq!(parse_i64(s), s.parse::<i64>().ok(), "{s:?}");
        if !s.starts_with('+') {
            assert_eq!(parse_u32(s), s.parse::<u32>().ok(), "{s:?}");
        }
    }
    assert_eq!(parse_u32("+5"), None);
    assert_eq!(parse_u32("4294967295"), Some(u32::MAX));
    assert_eq!(parse_u32("4294967296"), None);
}

#[test]
fn texts_are_trimmed_as_std_trims_them() {
    for s in ["", " ", "a", " a b ", "\u{a0}x\u{3000}", "\t\r\n\u{85}y\u{2028}", "\u{200b}z\u{feff}"] {
        assert_eq!(trim(s), s.trim(), "{s:?}");
        assert_eq!(trim(&trim(s)), trim(s));
    }
}

#[test]
fn texts_are_ordered_as_std_orders_them() {
    let all = ["", "a", "ab", "b", "Z", "\u{e9}", "\u{ffff}", "\u{10000}"];
    for a in all {
        for b in all {
            assert_eq!(is_less(a, b), a < b, "{a:?} {b:?}");
            assert_eq!(eq_ignore_ascii_case(a, b), a.eq_ignore_ascii_case(b));
        }
    }
    assert!(eq_ignore_ascii_case("AddOns", "addons"));
    assert!(!eq_ignore_ascii_case("\u{e9}", "\u{c9}"));
}

#[test]
fn texts_are_split_as_std_splits_them() {
    for s in ["", ".", "a.b", ".a..b.", "ab"] {
        let expected: Vec<String> = s.split('.').map(|p| p.to_string()).collect();
        assert_eq!(split(s, '.'), expected);
    }
}

#[test]
fn paths_are_compared_in_lower_case() {
    assert_eq!(norm("/A/\u{c9}t\u{e9}/\\/"), "/a/\u{e9}t\u{e9}");
    assert_eq!(norm("C:\\X\\"), "c:\\x");
}

#[test]
fn floats_are_told_by_their_bits() {
    for x in [0.0f64, -0.0, 0.5, -1.5, 3.0, 1e15, 1e18, -1e18, 9.3e18, -9.3e18, 9223372036854775808.0, -9223372036854775808.0, 1e300, f64::MIN_POSITIVE,
        f64::INFINITY, f64::NEG_INFINITY, f64::NAN, 9007199254740993.0, 4503599627370496.5] {
        let bits = x.to_bits();
        assert_eq!(finite(bits), x.is_finite(), "{x}");
        if x.is_finite() {
            assert_eq!(whole(bits), x.fract() == 0.0, "{x}");
            assert_eq!(to_i64(bits), x as i64, "{x}");
        }
        let inside = x.trunc() >= -9223372036854775808.0 && x.trunc() < 9223372036854775808.0;
        assert_eq!(checked_i64(bits), if inside { Some(x as i64) } else { None }, "{x}");
    }
}

#[test]
fn maps_keep_one_value_for_a_key() {
    let mut m: TextMap<u64> = TextMap::new();
    m.insert("b".to_string(), 1);
    m.insert("a".to_string(), 2);
    m.insert("b".to_string(), 3);
    m.insert_if_absent("a".to_string(), 9);
    m.insert_if_absent("c".to_string(), 4);
    assert_eq!(m.len(), 3);
    assert_eq!(m.key_at(0), "a");
    assert_eq!(m.value_at(1), &3);
    assert!(m.contains("c"));
    m.remove("c");
    m.remove("d");
    assert_eq!(m.get("c"), None);
    assert_eq!(m.into_entries(), vec![("a".to_string(), 2), ("b".to_string(), 3)]);
}

#[test]
fn json_values_are_read_by_their_kind() {
    assert_eq!(Json::Uint(5).as_i64(), Some(5));
    assert_eq!(Json::Uint(u64::MAX).as_i64(), None);
    assert_eq!(Json::Float(5.0f64.to_bits()).as_i64(), None);
    assert_eq!(Json::Str("x".to_string()).as_str(), Some("x"));
    assert_eq!(Json::Bool(true).as_bool(), Some(true));
    assert!(Json::Null.is_null());
    assert!(Json::Null.get("x").is_none());
    assert_eq!(Json::Arr(vec![Json::Null]).as_array().unwrap().len(), 1);
    let v = Json::Arr(vec![Json::Int(1), Json::Obj(TextMap::new())]);
    assert_eq!(v.clone(), v);
}
