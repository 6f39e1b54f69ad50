use streamduck_core::codec::{decode_value, decode_values, encode_value, encode_values};
use streamduck_core::value::{UIFieldValue, UIValue};

fn val(name: &str, value: UIFieldValue) -> UIValue {
    UIValue { name: name.to_string(), display_name: format!("{} shown", name), description: "d\"q\\\n".to_string(), read_only: false, value }
}

fn describe(v: &UIValue) -> String {
    let inner = match &v.value {
        UIFieldValue::Header => "header".to_string(),
        UIFieldValue::Bool(b) => format!("bool {}", b),
        UIFieldValue::Integer(i) => format!("int {}", i),
        UIFieldValue::UnsignedInteger(u) => format!("uint {}", u),
        UIFieldValue::Text(s) => format!("text {:?}", s),
        UIFieldValue::Color(r, g, b, a) => format!("color {} {} {} {}", r, g, b, a),
        UIFieldValue::Path(p) => format!("path {:?}", p),
        UIFieldValue::Choice(o, s) => format!("choice {:?} {:?}", o, s),
        UIFieldValue::Array(t, es) => format!("array {} [{}]", describe(t), es.iter().map(describe).collect::<Vec<_>>().join(", ")),
        UIFieldValue::Group(fs) => format!("group [{}]", fs.iter().map(describe).collect::<Vec<_>>().join(", ")),
    };
    format!("{}|{}|{:?}|{}|{}", v.name, v.display_name, v.description, v.read_only, inner)
}

fn sample() -> UIValue {
    val(
        "root",
        UIFieldValue::Group(vec![
            val("h", UIFieldValue::Header),
            val("b", UIFieldValue::Bool(true)),
            val("i", UIFieldValue::Integer(i64::MIN)),
            val("j", UIFieldValue::Integer(-1)),
            val("u", UIFieldValue::UnsignedInteger(u64::MAX)),
            val("t", UIFieldValue::Text("héllo \u{1} wörld".to_string())),
            val("c", UIFieldValue::Color(255, 0, 128, 7)),
            val("p", UIFieldValue::Path("/tmp/a b".to_string())),
            val("ch", UIFieldValue::Choice(vec!["x".to_string(), "y".to_string()], "y".to_string())),
            val("ch0", UIFieldValue::Choice(vec![], String::new())),
            val(
                "arr",
                UIFieldValue::Array(
                    Box::new(val("tpl", UIFieldValue::Integer(0))),
                    vec![val("e", UIFieldValue::Integer(10)), val("e", UIFieldValue::Bool(false))],
                ),
            ),
            val("empty", UIFieldValue::Group(vec![])),
        ]),
    )
}

#[test]
fn value_round_trip() {
    let v = sample();
    let bytes = encode_value(&v);
    let back = decode_value(&bytes).unwrap();
    assert_eq!(describe(&back), describe(&v));
}

#[test]
fn encoding_is_json() {
    let v = UIValue {
        name: "a".to_string(),
        display_name: "A".to_string(),
        description: String::new(),
        read_only: true,
        value: UIFieldValue::Integer(1),
    };
    let text = String::from_utf8(encode_value(&v)).unwrap();
    assert_eq!(text, "[\"a\",\"A\",\"\",true,[2,\"0000000000000001\"]]");
    let parsed: serde_json::Value = serde_json::from_str(&String::from_utf8(encode_value(&sample())).unwrap()).unwrap();
    assert!(parsed.is_array());
}

#[test]
fn trailing_or_broken_input_is_refused() {
    let mut bytes = encode_value(&sample());
    bytes.push(b' ');
    assert!(decode_value(&bytes).is_none());
    bytes.pop();
    bytes.pop();
    assert!(decode_value(&bytes).is_none());
    assert!(decode_value(&b"[]".to_vec()).is_none());
    assert!(decode_value(&Vec::new()).is_none());
}

#[test]
fn value_list_round_trip() {
    let vs = vec![sample(), val("x", UIFieldValue::Bool(false))];
    let bytes = encode_values(&vs);
    let back = decode_values(&bytes).unwrap();
    assert_eq!(back.len(), 2);
    assert_eq!(describe(&back[0]), describe(&vs[0]));
    assert_eq!(describe(&back[1]), describe(&vs[1]));
    assert!(decode_values(&encode_values(&vec![])).unwrap().is_empty());
    assert_eq!(encode_values(&vec![]), b"[]".to_vec());
}
