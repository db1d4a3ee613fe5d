use molysite::common::to_i;
use molysite::hcl::{fold, parse_hcl, parse_hcl_with};
use molysite::model::Mode;
use molysite::strings::{slen, take_limited};
use molysite::types::{block, combine, single, Dict, Number, ParseError, Value};

fn text(config: &str) -> String {
    parse_hcl(config).unwrap().to_string()
}

fn nested_text(config: &str) -> String {
    parse_hcl_with(config, Mode::ArrayNested).unwrap().to_string()
}

fn string(s: &str) -> Value {
    Value::String(s.to_string())
}

#[test]
fn blanks_separate_entries() {
    assert_eq!(text("a = 1, b = 2\n\n# note\nc = 3 // more\n/* block\n comment */ d = 4"), "{\"a\":1,\"b\":2,\"c\":3,\"d\":4}");
    assert_eq!(text("  \n# only a comment"), "{}");
    assert_eq!(text("# only a comment\n"), "{}");
    assert_eq!(text("a = 1 /* x /* y */"), "{\"a\":1}");
}

#[test]
fn comments_end_at_line_endings() {
    assert_eq!(text("# one\r\na = 1"), "{\"a\":1}");
    assert_eq!(parse_hcl("# one\rtwo\na = 1"), Err(ParseError::Malformed));
    assert_eq!(parse_hcl("a = 1 /* open"), Err(ParseError::Malformed));
    assert_eq!(parse_hcl("a = 1 /*/"), Err(ParseError::Malformed));
}

#[test]
fn keys_are_quoted_or_bare() {
    assert_eq!(text("a.b-c_d9 = 1"), "{\"a.b-c_d9\":1}");
    assert_eq!(text("\"a b\" = 1"), "{\"a b\":1}");
    assert_eq!(text("= 1"), "{\"\":1}");
    assert_eq!(text("\t a \t=\t 1"), "{\"a\":1}");
    assert_eq!(parse_hcl("a\n= 1"), Err(ParseError::Malformed));
    assert_eq!(parse_hcl("\u{e9} = 1"), Err(ParseError::Malformed));
}

#[test]
fn numbers() {
    assert_eq!(text("a = 0x42"), "{\"a\":66}");
    assert_eq!(text("a = 0xffffffff"), "{\"a\":4294967295}");
    assert_eq!(text("a = 0x00000000001"), "{\"a\":1}");
    assert_eq!(text("a = 12"), "{\"a\":12}");
    assert_eq!(text("a = 1.5"), "{\"a\":1.5}");
    assert_eq!(text("a = 1."), "{\"a\":1.}");
    assert_eq!(text("a = .5"), "{\"a\":.5}");
    assert_eq!(text("a = 1e10"), "{\"a\":1e10}");
    assert_eq!(text("a = 1.5E-3"), "{\"a\":1.5E-3}");
    assert_eq!(text("a = -2"), "{\"a\":-2}");
    assert_eq!(text("a = +2e+1"), "{\"a\":+2e+1}");
    assert_eq!(parse_hcl("a = 0x100000000"), Err(ParseError::Malformed));
    assert_eq!(parse_hcl("a = 0x"), Err(ParseError::Malformed));
    assert_eq!(parse_hcl("a = 1e1.5"), Err(ParseError::Malformed));
    assert_eq!(parse_hcl("a = ."), Err(ParseError::Malformed));
    assert_eq!(parse_hcl("a = -"), Err(ParseError::Malformed));
    assert_eq!(parse_hcl("a = 1e"), Err(ParseError::Malformed));
}

#[test]
fn booleans() {
    assert_eq!(text("a = true\nb = false"), "{\"a\":true,\"b\":false}");
    assert_eq!(parse_hcl("a = True"), Err(ParseError::Malformed));
    assert_eq!(parse_hcl("a = yes"), Err(ParseError::Malformed));
}

#[test]
fn arrays() {
    assert_eq!(text("a = [1, 2, 3]"), "{\"a\":[1,2,3]}");
    assert_eq!(text("a = [1, 2, 3,]"), "{\"a\":[1,2,3]}");
    assert_eq!(text("a = [\n  \"x\", # first\n  [true],\n  {b = 1}\n]"), "{\"a\":[\"x\",[true],{\"b\":1}]}");
    assert_eq!(text("a = []"), "{\"a\":[]}");
    assert_eq!(text("a = [ ]"), "{\"a\":[]}");
    assert_eq!(parse_hcl("a = [1, 2"), Err(ParseError::Malformed));
    assert_eq!(parse_hcl("a = [1 = 2]"), Err(ParseError::Malformed));
}

#[test]
fn objects() {
    assert_eq!(text("a = {b = 1, c = 2}"), "{\"a\":{\"b\":1,\"c\":2}}");
    assert_eq!(text("a {}"), "{\"a\":{}}");
    assert_eq!(text("a {\n}"), "{\"a\":{}}");
    assert_eq!(text("a = \"x\" \"y\" { b = 1 }"), "{\"a\":{\"x\":{\"y\":{\"b\":1}}}}");
    assert_eq!(parse_hcl("a {"), Err(ParseError::Malformed));
    assert_eq!(parse_hcl("a }"), Err(ParseError::Malformed));
    assert_eq!(parse_hcl("a { b = 1 } }"), Err(ParseError::Malformed));
}

#[test]
fn repeated_keys_merge() {
    assert_eq!(text("a = 1\na = 2"), "{\"a\":2}");
    assert_eq!(text("a { x = 1 }\nb = 0\na { y = 2 }"), "{\"a\":{\"x\":1,\"y\":2},\"b\":0}");
    assert_eq!(text("a { x = 1\n z = 1 }\na { x = 2\n y = 2 }"), "{\"a\":{\"x\":1,\"z\":1,\"y\":2}}");
    assert_eq!(text("a { x = 1 }\na = 2"), "{\"a\":2}");
    assert_eq!(text("a = 2\na { x = 1 }"), "{\"a\":{\"x\":1}}");
    assert_eq!(text("a = [1]\na = [2]"), "{\"a\":[2]}");
}

#[test]
fn repeated_keys_nest() {
    assert_eq!(nested_text("a { x = 1 }\nb = 0\na { y = 2 }"), "{\"a\":[{\"x\":1},{\"y\":2}],\"b\":0}");
    assert_eq!(nested_text("a = [1]\na = [2, 3]"), "{\"a\":[1,2,3]}");
    assert_eq!(nested_text("a = 1\na = 2"), "{\"a\":2}");
    assert_eq!(nested_text("a = 1\na { x = 1 }"), "{\"a\":[{\"x\":1}]}");
    assert_eq!(nested_text("a = { x = 1 }"), "{\"a\":[{\"x\":1}]}");
    assert_eq!(nested_text("a = [{ x = 1 }]"), "{\"a\":[{\"x\":1}]}");
}

#[test]
fn quoted_strings() {
    assert_eq!(text("a = \"x\\\\y\""), "{\"a\":\"x\\\\y\"}");
    assert_eq!(text("a = \"${x}${y}z\""), "{\"a\":\"${x}${y}z\"}");
    assert_eq!(text("a = \"${\\q}\""), "{\"a\":\"${\\\\q}\"}");
    assert_eq!(text("a = \"x${\"}y\""), "{\"a\":\"x${\\\"}y\"}");
    assert_eq!(parse_hcl("a = \"x${\\q}\""), Err(ParseError::Malformed));
    assert_eq!(text("a = \"h\u{e9}${\"}\u{e9}\""), "{\"a\":\"h\\u{e9}${\\\"}\\u{e9}\"}");
    assert_eq!(parse_hcl("a = \"x\\qy\""), Err(ParseError::Malformed));
    assert_eq!(parse_hcl("a = \"x\\\""), Err(ParseError::Malformed));
    assert_eq!(parse_hcl("a = \"x\ny\""), Err(ParseError::Malformed));
    assert_eq!(parse_hcl("a = \"${x\""), Err(ParseError::Malformed));
}

#[test]
fn heredocs() {
    assert_eq!(text("a = <<EOF\nfoo\n  bar\nEOF\n"), "{\"a\":\"foo\\n  bar\\n\"}");
    assert_eq!(text("a = <<EOF\nfoo\nEOF"), "{\"a\":\"foo\\n\"}");
    assert_eq!(text("a = <<EOF\nEOF\n"), "{\"a\":\"\\n\"}");
    assert_eq!(text("a = <<EOF\r\nfoo\r\nEOF\r\nb = 1"), "{\"a\":\"foo\\r\\n\",\"b\":1}");
    assert_eq!(parse_hcl("a = <<EOF\nfoo\n"), Err(ParseError::Malformed));
    assert_eq!(parse_hcl("a = <<EOF foo\nEOF\n"), Err(ParseError::Malformed));
    assert_eq!(parse_hcl("a = <<\nfoo\n\n"), Err(ParseError::Malformed));
    assert_eq!(parse_hcl("a = <<EOF\nfoo\nEOFX\n"), Err(ParseError::Malformed));
}

#[test]
fn heredoc_with_dedent_marker() {
    assert_eq!(text("a = <<-EOF\n    foo\n    bar\n    EOF\n"), "{\"a\":\"foo\\nbar\\n\"}");
    assert_eq!(text("a = <<-EOF\n    foo\n    bar\nEOF\n"), "{\"a\":\"foo\\nbar\\n\"}");
    assert_eq!(text("a = <<-EOF\n    foo\n    bar\n  EOF\n"), "{\"a\":\"foo\\nbar\\n\"}");
    assert_eq!(text("a = <<-EOF\n\tfoo\n\tbar\n\tEOF\n"), "{\"a\":\"foo\\nbar\\n\"}");
}

#[test]
fn heredoc_indentation_rule() {
    assert_eq!(text("a = <<-EOF\n    foo\n      bar\n    EOF\n"), "{\"a\":\"    foo\\n      bar\\n\"}");
    assert_eq!(text("a = <<-EOF\n      foo\n    bar\n    EOF\n"), "{\"a\":\"  foo\\nbar\\n\"}");
    assert_eq!(text("a = <<-EOF\n    foo\n\n    bar\n    EOF\n"), "{\"a\":\"    foo\\n\\n    bar\\n\"}");
    assert_eq!(text("a = <<-EOF\n  foo\n    EOF\n"), "{\"a\":\"foo\\n\"}");
}

#[test]
fn to_i_reads_radix_16() {
    assert_eq!(to_i("42"), Ok(66));
    assert_eq!(to_i("+fF"), Ok(255));
    assert_eq!(to_i("ffffffff"), Ok(4294967295));
    assert_eq!(to_i("000000000000a"), Ok(10));
    for sample in ["", "+", "-1", "g", "1 ", "100000000", "0x10", "fffffffff", "++1"].iter() {
        assert_eq!(to_i(sample), Err(ParseError::Malformed));
        assert!(u32::from_str_radix(sample, 16).is_err());
    }
    for sample in ["0", "7", "+7", "abcdef", "ABCDEF", "12345678", "fffffff0"].iter() {
        assert_eq!(to_i(sample).ok(), u32::from_str_radix(sample, 16).ok());
    }
}

#[test]
fn lengths() {
    assert_eq!(slen("".to_string()), 0);
    assert_eq!(slen("abc".to_string()), 3);
    assert_eq!(slen("h\u{e9}".to_string()), 3);
    assert_eq!(slen("\u{e9}".to_string()), 2);
    assert_eq!(slen("bar".to_string()), 3);
    assert_eq!(slen("\u{2764}\u{1f600}".to_string()), 7);
    assert_eq!(take_limited(2, 5), 2);
    assert_eq!(take_limited(5, 2), 2);
    assert_eq!(take_limited(3, 3), 3);
    assert_eq!(take_limited(0, 7), 0);
}

#[test]
fn dict_holds_one_value_per_key() {
    let mut d = Dict::new();
    assert_eq!(d.len(), 0);
    assert!(d.get("a").is_none());
    d.insert("a".to_string(), string("x"));
    d.insert("b".to_string(), string("y"));
    d.insert("a".to_string(), string("z"));
    assert_eq!(d.len(), 2);
    assert_eq!(d.key(0), "a");
    assert_eq!(d.value(0), &string("z"));
    assert_eq!(d.get("b"), Some(&string("y")));
    assert!(d.contains_key("a"));
    assert!(!d.contains_key("c"));
}

#[test]
fn dict_places_entries_first() {
    let mut d = Dict::new();
    d.place("a".to_string(), string("x"), Mode::Merge);
    d.place("b".to_string(), string("y"), Mode::Merge);
    d.place("a".to_string(), string("z"), Mode::Merge);
    assert_eq!(Value::Object(d).to_string(), "{\"a\":\"x\",\"b\":\"y\"}");
}

#[test]
fn dict_merge_prefers_incoming() {
    let mut a = Dict::new();
    a.insert("k".to_string(), string("new"));
    a.insert("only_a".to_string(), string("a"));
    let mut b = Dict::new();
    b.insert("only_b".to_string(), string("b"));
    b.insert("k".to_string(), string("old"));
    let merged = Dict::merge(a, b);
    assert_eq!(Value::Object(merged).to_string(), "{\"k\":\"new\",\"only_a\":\"a\",\"only_b\":\"b\"}");
}

#[test]
fn combine_by_mode() {
    let one = || single(Value::Bool(true));
    let two = || single(Value::Bool(false));
    assert_eq!(combine(Mode::ArrayNested, one(), two()).to_string(), "[true,false]");
    assert_eq!(combine(Mode::Merge, one(), two()).to_string(), "[false]");
    assert_eq!(combine(Mode::ArrayNested, string("x"), two()).to_string(), "[false]");
    assert_eq!(combine(Mode::Merge, string("x"), string("y")).to_string(), "\"y\"");
}

#[test]
fn block_wraps_labels() {
    let labels = || vec!["l1".to_string(), "l2".to_string()];
    let inner = || Value::Object(Dict::new());
    assert_eq!(block(Mode::Merge, labels(), inner()).to_string(), "{\"l1\":{\"l2\":{}}}");
    assert_eq!(block(Mode::ArrayNested, labels(), inner()).to_string(), "[{\"l1\":[{\"l2\":[{}]}]}]");
    assert_eq!(block(Mode::Merge, Vec::new(), inner()).to_string(), "{}");
    assert_eq!(block(Mode::ArrayNested, Vec::new(), inner()).to_string(), "[{}]");
}

#[test]
fn fold_places_the_last_entry_first() {
    let pairs = vec![
        ("a".to_string(), Value::Number(Number::from_hex(1))),
        ("b".to_string(), Value::Number(Number::from_hex(2))),
        ("a".to_string(), Value::Number(Number::from_hex(3))),
    ];
    assert_eq!(Value::Object(fold(Mode::Merge, pairs)).to_string(), "{\"a\":3,\"b\":2}");
}

#[test]
fn number_literals_are_checked() {
    for sample in ["0", "12", "1.5", "1.", ".5", "-3", "+3", "1e5", "1E5", "1.5e-3", "-.5e+2"].iter() {
        let number = Number::from_literal(sample.to_string()).unwrap();
        assert_eq!(Value::Number(number).to_string(), *sample);
        assert!(sample.parse::<f32>().is_ok());
    }
    for sample in ["", ".", "-", "e5", "1e", "1e1.5", "1e5.", "0x10", "1 ", " 1", "1,5", "--1", "inf", "NaN", "1_000"].iter() {
        assert!(Number::from_literal(sample.to_string()).is_none());
    }
}

#[test]
fn heredoc_indentation_has_no_bound() {
    let pad = " ".repeat(100);
    let config = format!("a = <<-EOF\n{}foo\n{}bar\nEOF\n", pad, pad);
    assert_eq!(text(&config), "{\"a\":\"foo\\nbar\\n\"}");
    let more = format!("a = <<-EOF\n{}foo\n{} bar\nEOF\n", pad, pad);
    assert_eq!(text(&more), format!("{{\"a\":\"{}foo\\n{} bar\\n\"}}", pad, pad));
}

#[test]
fn clones_hold_the_same_tree() {
    let parsed = parse_hcl("a = 1\nb = [true, \"x\", 0x10]\nc \"l\" { d = <<EOF\nh\nEOF\n}").unwrap();
    let copy = parsed.clone();
    assert_eq!(copy, parsed);
    assert_eq!(copy.to_string(), parsed.to_string());
    if let Value::Object(d) = &parsed {
        let e = d.clone();
        assert_eq!(&e, d);
        assert_eq!(e.len(), 3);
    } else {
        panic!("object did not parse");
    }
}
