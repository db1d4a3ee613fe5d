use molysite::json::{parse_json, to_s};
use molysite::types::{Number, ParseError, Value, N};

fn as_f64(number: &Number) -> f64 {
    match number.n() {
        N::Hex(v) => *v as f32 as f64,
        N::Decimal(text) => text.parse::<f32>().unwrap() as f64,
    }
}

#[test]
fn json_bool_test() {
    let test = "  { \"a\"\t: true,
  \"b\": \"false\"
  }";

    if let Ok(Value::Object(dict)) = parse_json(test) {
        if let Some(&Value::Bool(ref resp)) = dict.get("a") {
            assert_eq!(true, *resp);
        }
        if let Some(&Value::Bool(ref resp)) = dict.get("b") {
            assert_eq!(false, *resp);
        }
        return;
    }
    panic!("object did not parse");
}

#[test]
fn json_hash_test() {
    let test = "  { \"a\"\t: 42,
  \"b\": \"x\"
  }";

    if let Ok(Value::Object(dict)) = parse_json(test) {
        if let Some(&Value::Number(ref resp)) = dict.get("a") {
            assert_eq!(42., as_f64(resp));
        }
        if let Some(&Value::String(ref resp)) = dict.get("b") {
            assert_eq!("x", *resp);
        }
        return;
    }
    panic!("object did not parse");
}

#[test]
fn json_parse_example_test() {
    let test = "  { \"a\"\t: 42,
  \"b\": [ \"x\", \"y\", 12 ] ,
  \"c\": { \"hello\" : \"world\"
  }
  }";

    if let Ok(Value::Object(dict)) = parse_json(test) {
        if let Some(&Value::Number(ref resp)) = dict.get("a") {
            assert_eq!(42., as_f64(resp));
        }
        if let Some(&Value::Array(ref arr)) = dict.get("b") {
            if let Some(&Value::String(ref resp)) = arr.get(0) {
                assert_eq!("x", *resp);
            }
            if let Some(&Value::String(ref resp)) = arr.get(1) {
                assert_eq!("y", *resp);
            }
            if let Some(&Value::Number(ref resp)) = arr.get(2) {
                assert_eq!(12., as_f64(resp));
            }
        }
        if let Some(&Value::Object(ref dict)) = dict.get("c") {
            if let Some(&Value::String(ref resp)) = dict.get("hello") {
                assert_eq!("world", *resp);
            }
        }
        return;
    }
    panic!("object did not parse");
}

#[test]
fn json_values_are_found() {
    let parsed = parse_json("{\"a\": 42, \"b\": [\"x\", true], \"c\": {\"d\": \"e\\\"f\"}}").unwrap();
    assert_eq!(parsed.to_string(), "{\"a\":42,\"b\":[\"x\",true],\"c\":{\"d\":\"e\\\"f\"}}");
}

#[test]
fn json_later_entry_replaces_earlier() {
    let parsed = parse_json("{\"a\": 1, \"b\": 2, \"a\": 3}").unwrap();
    assert_eq!(parsed.to_string(), "{\"a\":3,\"b\":2}");
}

#[test]
fn json_empty_containers() {
    assert_eq!(parse_json("{}").unwrap().to_string(), "{}");
    assert_eq!(parse_json(" { } ").unwrap().to_string(), "{}");
    assert_eq!(parse_json("{\"a\": [ ]}").unwrap().to_string(), "{\"a\":[]}");
}

#[test]
fn json_is_strict() {
    assert_eq!(parse_json(""), Err(ParseError::Malformed));
    assert_eq!(parse_json("[1]"), Err(ParseError::Malformed));
    assert_eq!(parse_json("{\"a\": 1,}"), Err(ParseError::Malformed));
    assert_eq!(parse_json("{\"a\": [1,]}"), Err(ParseError::Malformed));
    assert_eq!(parse_json("{\"a\": 1} x"), Err(ParseError::Malformed));
    assert_eq!(parse_json("{a: 1}"), Err(ParseError::Malformed));
    assert_eq!(parse_json("{\"a\": 0x10}"), Err(ParseError::Malformed));
    assert_eq!(parse_json("{\"a\": \"b\\q\"}"), Err(ParseError::Malformed));
    assert_eq!(parse_json("{\"a\" 1}"), Err(ParseError::Malformed));
    assert_eq!(parse_json("{\"a\": 1"), Err(ParseError::Malformed));
}

#[test]
fn to_s_decodes_utf8() {
    assert_eq!(to_s(vec![104, 105]), "hi");
    assert_eq!(to_s("h\u{e9}llo \u{2764}".as_bytes().to_vec()), "h\u{e9}llo \u{2764}");
    assert_eq!(to_s(Vec::new()), "");
}

#[test]
fn to_s_replaces_malformed_bytes() {
    assert_eq!(to_s(vec![104, 0xff, 105]), "h\u{fffd}i");
    assert_eq!(to_s(vec![0xc3]), "\u{fffd}");
}
