use molysite::hcl::parse_hcl;
use molysite::types::{Number, Value, N};

fn as_f64(number: &Number) -> f64 {
    match number.n() {
        N::Hex(v) => *v as f32 as f64,
        N::Decimal(text) => text.parse::<f32>().unwrap() as f64,
    }
}

fn to_serde(value: &Value) -> serde_json::Value {
    match value {
        Value::Null => serde_json::Value::Null,
        Value::Bool(b) => serde_json::Value::Bool(*b),
        Value::Number(n) => serde_json::Value::Number(serde_json::Number::from_f64(as_f64(n)).unwrap()),
        Value::String(s) => serde_json::Value::String(s.clone()),
        Value::Array(items) => serde_json::Value::Array(items.iter().map(to_serde).collect()),
        Value::Object(d) => {
            let mut map = serde_json::Map::new();
            for i in 0..d.len() {
                map.insert(d.key(i).clone(), to_serde(d.value(i)));
            }
            serde_json::Value::Object(map)
        }
    }
}

#[test]
fn hcl_serde_basic() {
    let test = "fingerprint = \"foo\"
location = \"bar\"";

    if let Ok(j) = parse_hcl(test) {
        let u = to_serde(&j);
        assert_eq!("foo", u["fingerprint"].as_str().unwrap());
        assert_eq!("bar", u["location"].as_str().unwrap());
    }
}

#[test]
fn hcl_serde_policy() {
    let test = "key \"\" {
	policy = \"read\"
}

key \"foo/\" {
	policy = \"write\"
    options = [\"list\", \"edit\"]
}

key \"foo/bar/\" {
	policy = \"read\"
}

key \"foo/bar/baz\" {
	policy = \"deny\"
}";

    if let Ok(j) = parse_hcl(test) {
        let u = to_serde(&j);
        println!("{:?}", u);
        let key = u["key"].as_object().unwrap();
        if let Some(policy) = key.get("") {
            assert_eq!(policy["policy"], "read");
        } else {
            panic!("missing key");
        }
        if let Some(policy) = key.get("foo/") {
            assert_eq!(policy["policy"], "write");
        } else {
            panic!("missing key");
        }
        if let Some(policy) = key.get("foo/bar/") {
            assert_eq!(policy["policy"], "read");
        } else {
            panic!("missing key");
        }
        if let Some(policy) = key.get("foo/bar/baz") {
            assert_eq!(policy["policy"], "deny");
        } else {
            panic!("missing key");
        }
    }
}
