use molysite::hcl::{parse_hcl, parse_hcl_with};
use molysite::model::Mode;
use molysite::types::{Number, ParseError, Value, N};

fn as_f64(number: &Number) -> f64 {
    match number.n() {
        N::Hex(v) => *v as f32 as f64,
        N::Decimal(text) => text.parse::<f32>().unwrap() as f64,
    }
}

#[test]
fn hcl_hex_num() {
    let test = "foo = 0x42";
    if let Ok(Value::Object(dict)) = parse_hcl(test) {
        if let Some(&Value::Number(ref resp)) = dict.get("foo") {
            return assert_eq!(66., as_f64(resp));
        }
    }
    panic!("object did not parse");
}

#[test]
fn hcl_string_empty() {
    let test = "foo = \"\"";
    if let Ok(Value::Object(dict)) = parse_hcl(test) {
        if let Some(&Value::String(ref resp)) = dict.get("foo") {
            return assert_eq!("", resp);
        }
    }
    panic!("object did not parse");
}

#[test]
fn hcl_string_with_escaped_quote_test() {
    let test = "foo = \"bar\\\"foo\"";
    if let Ok(Value::Object(dict)) = parse_hcl(test) {
        if let Some(&Value::String(ref resp)) = dict.get("foo") {
            return assert_eq!("bar\"foo", resp);
        }
    }
    panic!("object did not parse");
}

#[test]
fn hcl_string_with_escaped_newline_test() {
    let test = "foo = \"bar\\nfoo\"";
    if let Ok(Value::Object(dict)) = parse_hcl(test) {
        if let Some(&Value::String(ref resp)) = dict.get("foo") {
            return assert_eq!("bar\nfoo", resp);
        }
    }
    panic!("object did not parse");
}

#[test]
fn hcl_string_with_space_test() {
    let test = "foo = \"bar foo\"";
    if let Ok(Value::Object(dict)) = parse_hcl(test) {
        if let Some(&Value::String(ref resp)) = dict.get("foo") {
            return assert_eq!("bar foo", resp);
        }
    }
    panic!("object did not parse");
}

#[test]
fn hcl_string_with_template_test() {
    let test = "foo = \"${bar\"foo}\"";
    if let Ok(Value::Object(dict)) = parse_hcl(test) {
        if let Some(&Value::String(ref resp)) = dict.get("foo") {
            return assert_eq!("${bar\"foo}", resp);
        }
    }
    panic!("object did not parse");
}

#[test]
fn hcl_string_with_escapes_and_template_test() {
    let test = "foo = \"wow\\\"wow${bar\"foo}\"";
    if let Ok(Value::Object(dict)) = parse_hcl(test) {
        if let Some(&Value::String(ref resp)) = dict.get("foo") {
            return assert_eq!("wow\"wow${bar\"foo}", resp);
        }
    }
    panic!("object did not parse");
}

#[test]
fn hcl_string_multi_with_template() {
    let test = "foo = \"wow\"\nbar= \"${bar\"foo}\"";
    if let Ok(Value::Object(dict)) = parse_hcl(test) {
        if let Some(&Value::String(ref resp)) = dict.get("foo") {
            return assert_eq!("wow", resp);
        }
    }
    panic!("object did not parse");
}

#[test]
fn hcl_block_empty_key() {
    let test = "foo \"\" {\nbar = 1\n}";
    if let Ok(Value::Object(dict)) = parse_hcl(test) {
        if let Some(&Value::Object(ref dict)) = dict.get("foo") {
            if let Some(&Value::Object(ref dict)) = dict.get("") {
                if let Some(&Value::Number(ref resp)) = dict.get("bar") {
                    return assert_eq!(1., as_f64(resp));
                }
            }
        }
    }
    panic!("object did not parse");
}

#[test]
fn hcl_hcl_block_empty_key() {
    let test = "foo \"\" {\nbar = 1\n}";
    if let Ok(Value::Object(dict)) = parse_hcl_with(test, Mode::ArrayNested) {
        if let Some(&Value::Array(ref array)) = dict.get("foo") {
            if let Some(&Value::Object(ref dict)) = array.get(0) {
                if let Some(&Value::Array(ref array)) = dict.get("") {
                    if let Some(&Value::Object(ref dict)) = array.get(0) {
                        if let Some(&Value::Number(ref resp)) = dict.get("bar") {
                            return assert_eq!(1., as_f64(resp));
                        }
                    }
                }
            }
        }
    }
    panic!("object did not parse");
}

#[test]
fn hcl_block_key() {
    let test = "potato \"salad\\\"is\" {\nnot = \"real\"\n}";
    if let Ok(Value::Object(dict)) = parse_hcl(test) {
        if let Some(&Value::Object(ref dict)) = dict.get("potato") {
            if let Some(&Value::Object(ref dict)) = dict.get("salad\"is") {
                if let Some(&Value::String(ref resp)) = dict.get("not") {
                    return assert_eq!("real", resp);
                }
            }
        }
    }
    panic!("object did not parse");
}

#[test]
fn hcl_hcl_block_key() {
    let test = "potato \"salad\\\"is\" {\nnot = \"real\"\n}";
    if let Ok(Value::Object(dict)) = parse_hcl_with(test, Mode::ArrayNested) {
        if let Some(&Value::Array(ref array)) = dict.get("potato") {
            if let Some(&Value::Object(ref dict)) = array.get(0) {
                if let Some(&Value::Array(ref array)) = dict.get("salad\"is") {
                    if let Some(&Value::Object(ref dict)) = array.get(0) {
                        if let Some(&Value::String(ref resp)) = dict.get("not") {
                            return assert_eq!("real", resp);
                        }
                    }
                }
            }
        }
    }
    panic!("object did not parse");
}

#[test]
fn hcl_block_nested_key() {
    let test = "potato \"salad\" \"is\" {\nnot = \"real\"\n}";
    if let Ok(Value::Object(dict)) = parse_hcl(test) {
        if let Some(&Value::Object(ref dict)) = dict.get("potato") {
            if let Some(&Value::Object(ref dict)) = dict.get("salad") {
                if let Some(&Value::Object(ref dict)) = dict.get("is") {
                    if let Some(&Value::String(ref resp)) = dict.get("not") {
                        return assert_eq!("real", resp);
                    }
                }
            }
        }
    }
    panic!("object did not parse");
}

#[test]
fn hcl_hcl_block_nested_key() {
    let test = "potato \"salad\" \"is\" {\nnot = \"real\"\n}";
    if let Ok(Value::Object(dict)) = parse_hcl_with(test, Mode::ArrayNested) {
        if let Some(&Value::Array(ref array)) = dict.get("potato") {
            if let Some(&Value::Object(ref dict)) = array.get(0) {
                if let Some(&Value::Array(ref array)) = dict.get("salad") {
                    if let Some(&Value::Object(ref dict)) = array.get(0) {
                        if let Some(&Value::Array(ref array)) = dict.get("is") {
                            if let Some(&Value::Object(ref dict)) = array.get(0) {
                                if let Some(&Value::String(ref resp)) = dict.get("not") {
                                    return assert_eq!("real", resp);
                                }
                            }
                        }
                    }
                }
            }
        }
    }
    panic!("object did not parse");
}

#[test]
fn hcl_key_chars() {
    let test = "foo_bar = \"bar\"";
    if let Ok(Value::Object(dict)) = parse_hcl(test) {
        if let Some(&Value::String(ref resp)) = dict.get("foo_bar") {
            return assert_eq!("bar", resp);
        }
    }

    let test = "foo_bar = \"bar\"";
    if let Ok(Value::Object(dict)) = parse_hcl(test) {
        if let Some(&Value::String(ref resp)) = dict.get("foo_bar") {
            return assert_eq!("bar", resp);
        }
    }

    panic!("object did not parse");
}

#[test]
fn hcl_slice_expand() {
    let test = "service \"foo\" {
  key = \"value\"
}

service \"bar\" {
  key = \"value\"
}";
    if let Ok(Value::Object(dict)) = parse_hcl(test) {
        if let Some(&Value::Object(ref dict)) = dict.get("service") {
            let mut pass = false;
            if let Some(&Value::Object(_)) = dict.get("foo") {
                pass = true;
            }
            if !pass {
                panic!("missing nested object")
            }
            pass = false;
            if let Some(&Value::Object(_)) = dict.get("bar") {
                pass = true;
            }
            if !pass {
                panic!("missing nested object")
            }
            return;
        }
    }
    panic!("object did not parse")
}

#[test]
fn hcl_hcl_slice_expand() {
    let test = "service \"foo\" {
  key = \"value\"
}

service \"bar\" {
  key = \"value\"
}";
    if let Ok(Value::Object(dict)) = parse_hcl_with(test, Mode::ArrayNested) {
        if let Some(&Value::Array(ref array)) = dict.get("service") {
            let mut pass = false;
            if let Some(&Value::Object(_)) = array.get(0) {
                pass = true;
            }
            if !pass {
                panic!("missing nested object")
            }
            pass = false;
            if let Some(&Value::Object(_)) = array.get(1) {
                pass = true;
            }
            if !pass {
                panic!("missing nested object")
            }
            return;
        }
    }
    panic!("object did not parse")
}

#[test]
fn malformed_inputs_fail() {
    assert_eq!(parse_hcl("foo = \"bar"), Err(ParseError::Malformed));
    assert_eq!(parse_hcl("/*\nFoo"), Err(ParseError::Malformed));
    assert_eq!(parse_hcl("foo \"baz\" {\n  bar = \"baz\"\n"), Err(ParseError::Malformed));
    assert_eq!(parse_hcl("foo = 0755x"), Err(ParseError::Malformed));
}

#[test]
fn faults_inside_strings_and_comments_are_text() {
    assert_eq!(parse_hcl("a = \"/*\"").unwrap().to_string(), "{\"a\":\"/*\"}");
    assert_eq!(parse_hcl("a = \"{\"").unwrap().to_string(), "{\"a\":\"{\"}");
    assert_eq!(parse_hcl("a = 1 # \"\n").unwrap().to_string(), "{\"a\":1}");
    assert_eq!(parse_hcl("a = 1 /* { \" */").unwrap().to_string(), "{\"a\":1}");
    assert_eq!(parse_hcl("a = <<EOF\n{ \" /*\nEOF\n").unwrap().to_string(), "{\"a\":\"{ \\\" /*\\n\"}");
}

#[test]
fn nothing_is_kept_of_a_malformed_text() {
    let good = "a = 1\nb = 2\n";
    assert!(parse_hcl(good).is_ok());
    for fault in ["c = \"open", "/* open", "c {", "c { d = 1", "c = [1, 2", "c = <<EOF\nbody\n", "}"].iter() {
        let config = format!("{}{}", good, fault);
        assert_eq!(parse_hcl(&config), Err(ParseError::Malformed));
        assert_eq!(parse_hcl_with(&config, Mode::ArrayNested), Err(ParseError::Malformed));
    }
}
