use streamduck_core::value::{change_from_path, copy_value, find_value, parse_path, PathEdit, PathSegment, UIFieldValue, UIValue};

fn val(name: &str, value: UIFieldValue) -> UIValue {
    UIValue {
        name: name.to_string(),
        display_name: name.to_string(),
        description: String::new(),
        read_only: false,
        value,
    }
}

fn int_value(name: &str, i: i64) -> UIValue {
    val(name, UIFieldValue::Integer(i))
}

fn ints(v: &UIValue) -> Vec<i64> {
    match &v.value {
        UIFieldValue::Array(_, es) => es
            .iter()
            .map(|e| match e.value {
                UIFieldValue::Integer(i) => i,
                _ => panic!("not an integer"),
            })
            .collect(),
        _ => panic!("not an array"),
    }
}

fn as_int(v: &UIValue) -> i64 {
    match v.value {
        UIFieldValue::Integer(i) => i,
        _ => panic!("not an integer"),
    }
}

/// `{a: int = 1, arr: [int] = [10, 20, 30]}`
fn tree() -> Vec<UIValue> {
    vec![
        int_value("a", 1),
        val("arr", UIFieldValue::Array(Box::new(int_value("item", 0)), vec![int_value("item", 10), int_value("item", 20), int_value("item", 30)])),
    ]
}

fn field(n: &str) -> PathSegment {
    PathSegment::Field(n.to_string())
}

#[test]
fn array_remove_in_range() {
    let (t, ok) = change_from_path(&vec![field("arr")], tree(), &PathEdit::ArrayRemove(1));
    assert!(ok);
    assert_eq!(as_int(&t[0]), 1);
    assert_eq!(ints(&t[1]), vec![10, 30]);
}

#[test]
fn array_remove_out_of_range_fails() {
    let (t, ok) = change_from_path(&vec![field("arr")], tree(), &PathEdit::ArrayRemove(9));
    assert!(!ok);
    assert_eq!(as_int(&t[0]), 1);
    assert_eq!(ints(&t[1]), vec![10, 20, 30]);
}

#[test]
fn array_add_appends_template() {
    let (t, ok) = change_from_path(&vec![field("arr")], tree(), &PathEdit::ArrayAdd);
    assert!(ok);
    assert_eq!(ints(&t[1]), vec![10, 20, 30, 0]);
    let (_, ok) = change_from_path(&vec![field("a")], tree(), &PathEdit::ArrayAdd);
    assert!(!ok);
}

#[test]
fn set_then_get_keeps_siblings() {
    let path = vec![field("arr"), PathSegment::Index(2)];
    let (t, ok) = change_from_path(&path, tree(), &PathEdit::SetValue(int_value("whatever", 99)));
    assert!(ok);
    assert_eq!(ints(&t[1]), vec![10, 20, 99]);
    match &t[1].value {
        UIFieldValue::Array(_, es) => assert_eq!(es[2].name, "item"),
        _ => panic!("not an array"),
    }
    assert_eq!(as_int(&t[0]), 1);
}

#[test]
fn set_with_other_variant_fails() {
    let (t, ok) = change_from_path(&vec![field("a")], tree(), &PathEdit::SetValue(val("a", UIFieldValue::Bool(true))));
    assert!(!ok);
    assert_eq!(as_int(&t[0]), 1);
}

#[test]
fn nested_group_paths() {
    let g = val("group", UIFieldValue::Group(vec![int_value("x", 1), val("sub", UIFieldValue::Group(vec![int_value("y", 2)]))]));
    let path = vec![field("group"), field("sub"), field("y")];
    let (t, ok) = change_from_path(&path, vec![g], &PathEdit::SetValue(int_value("y", 5)));
    assert!(ok);
    match &t[0].value {
        UIFieldValue::Group(fs) => {
            assert_eq!(as_int(&fs[0]), 1);
            match &fs[1].value {
                UIFieldValue::Group(inner) => assert_eq!(as_int(&inner[0]), 5),
                _ => panic!("not a group"),
            }
        }
        _ => panic!("not a group"),
    }
}

#[test]
fn missing_paths_fail() {
    let (_, ok) = change_from_path(&vec![field("nope")], tree(), &PathEdit::ArrayAdd);
    assert!(!ok);
    let (_, ok) = change_from_path(&vec![field("arr"), PathSegment::Index(3)], tree(), &PathEdit::SetValue(int_value("i", 1)));
    assert!(!ok);
    let (_, ok) = change_from_path(&vec![], tree(), &PathEdit::ArrayAdd);
    assert!(!ok);
    let (_, ok) = change_from_path(&vec![PathSegment::Index(0)], tree(), &PathEdit::ArrayAdd);
    assert!(!ok);
}

#[test]
fn read_only_rejects_edits() {
    let mut t = tree();
    t[1].read_only = true;
    let (t, ok) = change_from_path(&vec![field("arr")], t, &PathEdit::ArrayRemove(0));
    assert!(!ok);
    assert_eq!(ints(&t[1]), vec![10, 20, 30]);
}

#[test]
fn copy_and_find() {
    let t = tree();
    assert_eq!(find_value(&t, &"arr".to_string()), Some(1));
    assert_eq!(find_value(&t, &"zzz".to_string()), None);
    let c = copy_value(&t[1]);
    assert_eq!(ints(&c), vec![10, 20, 30]);
    assert_eq!(c.name, "arr");
}

fn describe(p: &[PathSegment]) -> Vec<String> {
    p.iter()
        .map(|s| match s {
            PathSegment::Field(n) => format!("f:{}", n),
            PathSegment::Index(i) => format!("i:{}", i),
        })
        .collect()
}

#[test]
fn path_parsing() {
    assert_eq!(describe(&parse_path("group.field[2].sub").unwrap()), vec!["f:group", "f:field", "i:2", "f:sub"]);
    assert_eq!(describe(&parse_path("arr").unwrap()), vec!["f:arr"]);
    assert_eq!(describe(&parse_path("m[10][0]").unwrap()), vec!["f:m", "i:10", "i:0"]);
    assert!(parse_path("").is_none());
    assert!(parse_path("[1]").is_none());
    assert!(parse_path("a.").is_none());
    assert!(parse_path("a[]").is_none());
    assert!(parse_path("a[01]").is_none());
    assert!(parse_path("a[1").is_none());
    assert!(parse_path("a]").is_none());
    assert!(parse_path("a[99999999999999999999999]").is_none());
}

#[test]
fn parsed_path_edits() {
    let p = parse_path("arr[1]").unwrap();
    let (t, ok) = change_from_path(&p, tree(), &PathEdit::SetValue(int_value("v", 5)));
    assert!(ok);
    assert_eq!(ints(&t[1]), vec![10, 5, 30]);
}
