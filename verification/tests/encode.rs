use molysite::hcl::{parse_hcl, parse_hcl_with};
use molysite::json::parse_json;
use molysite::model::Mode;
use molysite::types::{Number, Value};

#[test]
fn text_of_scalars() {
    assert_eq!(Value::Null.to_string(), "null");
    assert_eq!(Value::Bool(true).to_string(), "true");
    assert_eq!(Value::Bool(false).to_string(), "false");
    assert_eq!(Value::Number(Number::from_hex(0)).to_string(), "0");
    assert_eq!(Value::Number(Number::from_hex(66)).to_string(), "66");
    assert_eq!(Value::Number(Number::from_hex(4294967295)).to_string(), "4294967295");
    assert_eq!(Value::Number(Number::from_literal("1.5e3".to_string()).unwrap()).to_string(), "1.5e3");
    assert_eq!(Value::String("a b".to_string()).to_string(), "\"a b\"");
}

#[test]
fn text_of_containers() {
    let parsed = parse_hcl("a = 1\nb = [true, \"x\", [2]]\nc { d = \"e\" }").unwrap();
    assert_eq!(parsed.to_string(), "{\"a\":1,\"b\":[true,\"x\",[2]],\"c\":{\"d\":\"e\"}}");
    assert_eq!(parse_hcl("").unwrap().to_string(), "{}");
    assert_eq!(parse_hcl("a = []").unwrap().to_string(), "{\"a\":[]}");
}

#[test]
fn text_escapes_like_escape_default() {
    let samples = [
        "plain",
        "tab\there",
        "cr\rlf\n",
        "quote\"single'back\\slash",
        "\u{0}\u{1}\u{1f}\u{7f}",
        " ~",
        "h\u{e9}llo",
        "\u{2764}\u{1f600}\u{10ffff}",
        "",
    ];
    for sample in samples.iter() {
        let expected = format!("\"{}\"", sample.escape_default());
        assert_eq!(Value::String(sample.to_string()).to_string(), expected);
    }
    assert_eq!(Value::String("\u{1f600}".to_string()).to_string(), "\"\\u{1f600}\"");
    assert_eq!(Value::String("\u{7f}".to_string()).to_string(), "\"\\u{7f}\"");
}

#[test]
fn keys_are_escaped() {
    let parsed = parse_hcl("\"a\\\"b\" = 1").unwrap();
    assert_eq!(parsed.to_string(), "{\"a\\\"b\":1}");
}

#[test]
fn two_encodings_of_one_value_are_identical() {
    let text = "service \"x\" {\n  port = 0x50\n  tags = [\"a\", \"b\"]\n}\nservice \"y\" {\n  port = 81\n}\n";
    let merged = parse_hcl(text).unwrap();
    assert_eq!(merged.to_string(), merged.to_string());
    let nested = parse_hcl_with(text, Mode::ArrayNested).unwrap();
    assert_eq!(nested.to_string(), nested.to_string());
    assert_eq!(
        merged.to_string(),
        "{\"service\":{\"x\":{\"port\":80,\"tags\":[\"a\",\"b\"]},\"y\":{\"port\":81}}}"
    );
    assert_eq!(
        nested.to_string(),
        "{\"service\":[{\"x\":[{\"port\":80,\"tags\":[\"a\",\"b\"]}]},{\"y\":[{\"port\":81}]}]}"
    );
}

#[test]
fn encoding_parses_again_to_the_same_encoding() {
    let first = parse_hcl("a = 1\nb = \"two\"\nc { d = [true, false] }").unwrap().to_string();
    let second = parse_json(&first).unwrap().to_string();
    assert_eq!(first, second);
}

#[test]
fn digits_in_other_radixes() {
    for (n, radix, expected) in [(0u32, 2u32, "0"), (5, 2, "101"), (255, 16, "ff"), (64, 8, "100"), (35, 6, "55"), (4294967295, 16, "ffffffff"), (4294967295, 2, "11111111111111111111111111111111")].iter() {
        let mut out: Vec<char> = vec!['x'];
        molysite::encode::push_digits(&mut out, *n, *radix);
        assert_eq!(out.iter().collect::<String>(), format!("x{}", expected));
    }
}
