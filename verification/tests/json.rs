//! Documents behind handles.
use aurora::json::Json;
use serde_json::Value;

/// A number as it is written: whole ones without a fraction.
fn num(x: f64) -> Value {
    if x == x.trunc() && x.abs() < 9e15 {
        Value::from(x as i64)
    } else {
        Value::from(x)
    }
}

#[test]
fn json_parse_navigate_and_types() {
    let mut j = Json::new();
    let text = r#"{"name":"grunt","hp":40,"fast":true,"tags":["melee","dumb"],"pos":{"x":1.5}}"#;
    let h = j.json_parse(text).unwrap();
    assert!(h > 0);
    assert_eq!(j.json_kind(h), 5);
    let name = j.json_get(h, "name");
    assert_eq!(j.json_kind(name), 3);
    assert_eq!(j.json_str(name), "grunt");
    let hp = j.json_get(h, "hp");
    assert_eq!(j.json_int(hp), 40);
    assert_eq!(f64::from_bits(j.json_num(hp)), 40.0);
    let fast = j.json_get(h, "fast");
    assert_eq!(j.json_bool(fast), 1);
    let tags = j.json_get(h, "tags");
    assert_eq!(j.json_kind(tags), 4);
    assert_eq!(j.json_len(tags), 2);
    let t1 = j.json_at(tags, 1);
    assert_eq!(j.json_str(t1), "dumb");
    let pos = j.json_get(h, "pos");
    let x = j.json_get(pos, "x");
    assert_eq!(f64::from_bits(j.json_num(x)), 1.5);
    // Missing key / out-of-range / freed handles degrade to 0 / -1.
    assert_eq!(j.json_get(h, "nope"), 0);
    assert_eq!(j.json_at(tags, 99), 0);
    assert_eq!(j.json_has(h, "hp"), 1);
    assert_eq!(j.json_has(h, "nope"), 0);
    j.json_free(h);
    assert_eq!(j.json_kind(h), -1);
    // Sub-handles survive freeing the root handle.
    assert_eq!(j.json_int(hp), 40);
}

/// Parse-and-free in a loop - a server handling one JSON request per
/// connection - must occupy bounded memory.
#[test]
fn parse_and_free_in_a_loop_leaves_the_handle_spine_bounded() {
    let mut j = Json::new();
    let doc = r#"{"hp":40,"tags":["melee","dumb"],"pos":{"x":1.5}}"#;
    let cycle = |j: &mut Json| {
        let h = j.json_parse(doc).unwrap();
        assert!(h > 0);
        let tags = j.json_get(h, "tags");
        let first = j.json_at(tags, 0);
        let pos = j.json_get(h, "pos");
        assert_eq!(j.json_len(tags), 2);
        for handle in [first, tags, pos, h] {
            j.json_free(handle);
        }
    };
    // One cycle first, so the slots it needs are already allocated and
    // the measurement below is about REUSE rather than about warm-up.
    cycle(&mut j);
    let after_one = j.slot_count();
    for _ in 0..500 {
        cycle(&mut j);
    }
    assert_eq!(
        j.slot_count(),
        after_one,
        "the handle spine grew across 500 parse/free cycles"
    );
    assert_eq!(j.live(), 0, "handles leaked");
}

/// A freed handle must keep reading as invalid even once its slot has been
/// handed to a different document.
#[test]
fn a_freed_json_handle_never_aliases_the_document_that_reuses_its_slot() {
    let mut j = Json::new();
    let a = r#"{"hp":40}"#;
    let b = r#"{"hp":99}"#;
    let first = j.json_parse(a).unwrap();
    let hp = j.json_get(first, "hp");
    assert_eq!(j.json_int(hp), 40);
    j.json_free(first);
    let second = j.json_parse(b).unwrap();
    assert_ne!(first, second, "the reused slot must change the handle");
    assert_eq!(j.json_kind(first), -1, "a freed handle read a live doc");
    assert_eq!(j.json_get(first, "hp"), 0);
    assert_eq!(j.json_len(first), 0);
    let hp = j.json_get(second, "hp");
    assert_eq!(j.json_int(hp), 99);
    // Freeing twice must not take the document that took the slot.
    j.json_free(first);
    assert_eq!(j.json_kind(second), 5, "a double free hit the wrong doc");
    // 0 has always meant "invalid/absent" and must still not resolve.
    assert_eq!(j.json_kind(0), -1);
    assert_eq!(j.json_kind(-1), -1);
    j.json_free(0);
    j.json_free(-1);
    assert_eq!(j.json_kind(second), 5);
}

#[test]
fn json_build_and_roundtrip() {
    let mut j = Json::new();
    let obj = j.json_new_obj();
    j.json_set_str(obj, "name", "save1");
    j.json_set_num(obj, "hp", num(77.0));
    j.json_set_num(obj, "x", num(1.25));
    j.json_set_bool(obj, "hard", true);
    let arr = j.json_new_arr();
    j.json_push_num(arr, num(3.0));
    j.json_push_str(arr, "sword");
    j.json_set(obj, "items", arr);
    let text = j.json_to_str(obj).unwrap();
    let h = j.json_parse(&text).unwrap();
    assert!(h > 0, "round-trip parse of: {text}");
    let hp = j.json_get(h, "hp");
    assert_eq!(j.json_int(hp), 77);
    let x = j.json_get(h, "x");
    assert_eq!(f64::from_bits(j.json_num(x)), 1.25);
    let items = j.json_get(h, "items");
    assert_eq!(j.json_len(items), 2);
    let first = j.json_at(items, 0);
    assert_eq!(j.json_int(first), 3);
    // Whole numbers serialize without a fractional suffix.
    assert!(text.contains("\"hp\": 77"), "got: {text}");
}

#[test]
fn a_text_that_is_no_document_is_an_error() {
    let mut j = Json::new();
    let e = j.json_parse("{\"a\":").unwrap_err();
    assert!(!e.is_empty());
    assert!(j.json_parse("").is_err());
    assert_eq!(j.live(), 0);
    assert_eq!(j.json_to_str(77), None);
}

#[test]
fn keys_come_in_document_order() {
    let mut j = Json::new();
    let h = j.json_parse(r#"{"zebra":null,"ant":[],"mole":"x"}"#).unwrap();
    assert_eq!(j.json_len(h), 3);
    assert_eq!(j.json_key(h, 0), "zebra");
    assert_eq!(j.json_key(h, 1), "ant");
    assert_eq!(j.json_key(h, 2), "mole");
    assert_eq!(j.json_key(h, 3), "");
    let z = j.json_get(h, "zebra");
    assert_eq!(j.json_kind(z), 0);
    assert_eq!(j.json_str(z), "");
    let m = j.json_get(h, "mole");
    assert_eq!(j.json_int(m), 0);
    assert_eq!(j.json_key(m, 0), "");
}

#[test]
fn only_built_documents_can_be_filled() {
    let mut j = Json::new();
    let parsed = j.json_parse("{}").unwrap();
    j.json_set_str(parsed, "a", "b");
    assert_eq!(j.json_len(parsed), 0, "a parsed document is read only");
    let obj = j.json_new_obj();
    j.json_set_str(obj, "a", "b");
    j.json_set_str(obj, "a", "c");
    assert_eq!(j.json_len(obj), 1, "setting again replaces");
    let a = j.json_get(obj, "a");
    assert_eq!(j.json_str(a), "c");
    let arr = j.json_new_arr();
    j.json_push(arr, obj);
    j.json_push(arr, obj);
    assert_eq!(j.json_len(arr), 2);
    let inner = j.json_at(arr, 1);
    assert_eq!(j.json_kind(inner), 5);
    // A part is a copy: filling the whole afterwards does not change it.
    j.json_set_bool(obj, "late", true);
    assert_eq!(j.json_len(inner), 1);
    assert_eq!(j.json_to_str(inner).unwrap(), "{\n  \"a\": \"c\"\n}");
}

#[test]
fn integers_keep_their_last_digit() {
    let mut j = Json::new();
    let h = j.json_parse("[9007199254740993, -2.75, 1e3, false]").unwrap();
    let at: Vec<i64> = (0..4).map(|i| j.json_at(h, i)).collect();
    assert_eq!(j.json_int(at[0]), 9007199254740993);
    assert_eq!(f64::from_bits(j.json_num(at[1])), -2.75);
    assert_eq!(f64::from_bits(j.json_num(at[2])), 1000.0);
    assert_eq!(j.json_bool(at[3]), 0);
    assert_eq!(j.json_kind(at[3]), 1);
    assert_eq!(j.json_kind(at[0]), 2);
}

/// A document read back from its text is the same document.
#[test]
fn a_document_is_read_back_from_its_text() {
    let mut j = Json::new();
    let text = r#"{"a":[1,-2,18446744073709551615,[],{}],"b":{"c":null,"d":"q\"\n\u00e9"},"e":false}"#;
    let h = j.json_parse(text).unwrap();
    let shown = j.json_to_str(h).unwrap();
    let again = j.json_parse(&shown).unwrap();
    assert_eq!(j.json_to_str(again).unwrap(), shown);
    assert_eq!(j.json_len(again), 3);
    let b = j.json_get(again, "b");
    let d = j.json_get(b, "d");
    assert_eq!(j.json_str(d), "q\"\né");
    assert_eq!(j.json_len(d), 5, "the bytes of a string");
    // As deep as the parser follows, and one deeper.
    let deep = |n: usize| format!("{}{}", "[".repeat(n), "]".repeat(n));
    assert!(j.json_parse(&deep(127)).is_ok());
    assert!(j.json_parse(&deep(128)).is_err());
}

/// An index before the first element is out of range, as one behind the last is.
#[test]
fn an_index_out_of_range_names_nothing() {
    let mut j = Json::new();
    let h = j.json_parse(r#"{"a":[10,20],"b":2}"#).unwrap();
    let a = j.json_get(h, "a");
    for i in [-1, i64::MIN, 2, i64::MAX] {
        assert_eq!(j.json_at(a, i), 0, "{i}");
    }
    assert_eq!((j.json_key(h, 2), j.json_key(h, i64::MAX)), (String::new(), String::new()));
    assert_eq!(j.json_key(h, -1), "a", "a name is asked for from the first on");
    assert_eq!(j.json_at(h, 0), 0, "an object has no elements");
    let first = j.json_at(a, 0);
    assert_eq!(j.json_int(first), 10);
    assert_eq!(j.json_key(h, 1), "b");
}

/// A float that is in a document is read bit for bit.
#[test]
fn a_float_is_read_as_it_stands() {
    let mut j = Json::new();
    for x in [1.5, -0.25, 1048576.125] {
        let h = j.json_parse(&format!("{x}")).unwrap();
        assert_eq!(j.json_num(h), f64::to_bits(x));
    }
}

/// What is wrong with a text is told in the parser's words.
#[test]
fn a_bad_text_is_told_what_is_wrong() {
    let mut j = Json::new();
    for text in ["", "{", "[1,]", "nul"] {
        let want = serde_json::from_str::<Value>(text).unwrap_err().to_string();
        assert!(!want.is_empty());
        assert_eq!(j.json_parse(text), Err(want));
    }
    assert_eq!((j.live(), j.slot_count()), (0, 0));
}

/// A released handle names nothing, however much is parsed and released after it.
#[test]
fn a_released_handle_never_comes_back() {
    let mut j = Json::new();
    let dead = j.json_parse("1").unwrap();
    j.json_free(dead);
    for i in 0..100 {
        let h = j.json_parse("[2]").unwrap();
        let o = j.json_new_obj();
        j.json_set(o, "a", h);
        assert_ne!(h, dead);
        assert_eq!(j.json_kind(dead), -1);
        if i % 3 > 0 {
            j.json_free(h);
        }
        j.json_free(o);
    }
}
