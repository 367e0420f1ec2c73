use fgt_parser::{get_by_path, parse_forti, Value};

fn as_str(v: &Value) -> &str {
    match v {
        Value::Str(s) => s.as_str(),
        _ => panic!("expected a string value"),
    }
}

#[test]
fn block_round_trip() {
    let tree = parse_forti("config a\nedit e\nset k v\nnext\nend\n");
    let got = get_by_path(&tree, "a.e.k");
    assert_eq!(as_str(&got), "v");
}

#[test]
fn set_single_value_is_scalar() {
    let tree = parse_forti("config t\nset name alpha\nend");
    match get_by_path(&tree, "t.name") {
        Value::Str(s) => assert_eq!(s, "alpha"),
        _ => panic!("expected scalar string"),
    }
}

#[test]
fn set_many_values_is_list() {
    let tree = parse_forti("config t\nset member a b c\nend");
    match get_by_path(&tree, "t.member") {
        Value::Arr(items) => {
            assert_eq!(items.len(), 3);
            assert_eq!(as_str(&items[0]), "a");
            assert_eq!(as_str(&items[2]), "c");
        },
        _ => panic!("expected list"),
    }
}

#[test]
fn set_zero_values_is_empty_list() {
    let tree = parse_forti("config t\nset flags\nend");
    match get_by_path(&tree, "t.flags") {
        Value::Arr(items) => assert_eq!(items.len(), 0),
        _ => panic!("expected empty list"),
    }
}

#[test]
fn set_overwrites_scalar() {
    let tree = parse_forti("config t\nset k v1\nset k v2\nend");
    assert_eq!(as_str(&get_by_path(&tree, "t.k")), "v2");
}

#[test]
fn append_accumulates_in_order() {
    let tree = parse_forti("config t\nappend k x\nappend k y\nend");
    match get_by_path(&tree, "t.k") {
        Value::Arr(items) => {
            assert_eq!(items.len(), 2);
            assert_eq!(as_str(&items[0]), "x");
            assert_eq!(as_str(&items[1]), "y");
        },
        _ => panic!("expected list"),
    }
}

#[test]
fn append_to_scalar_makes_list_with_original_first() {
    let tree = parse_forti("config t\nset k v\nappend k w\nend");
    match get_by_path(&tree, "t.k") {
        Value::Arr(items) => {
            assert_eq!(items.len(), 2);
            assert_eq!(as_str(&items[0]), "v");
            assert_eq!(as_str(&items[1]), "w");
        },
        _ => panic!("expected list"),
    }
}

#[test]
fn unset_stores_null() {
    let tree = parse_forti("config t\nset k v\nunset k trailing junk\nend");
    match get_by_path(&tree, "t.k") {
        Value::Null => {},
        _ => panic!("expected null"),
    }
}

#[test]
fn directives_are_case_insensitive() {
    let tree = parse_forti("CONFIG a\nEDIT e\nSET k v\nNEXT\nEND");
    assert_eq!(as_str(&get_by_path(&tree, "a.e.k")), "v");
}

#[test]
fn edit_outside_config_is_ignored() {
    let tree = parse_forti("edit ghost\nconfig t\nset k v\nend");
    assert_eq!(as_str(&get_by_path(&tree, "t.k")), "v");
    match get_by_path(&tree, "ghost") {
        Value::Null => {},
        _ => panic!("ghost entry should not exist"),
    }
}

#[test]
fn unknown_directives_are_ignored() {
    let tree = parse_forti("bogus one two\nconfig t\nset k v\nend\nanother junk line");
    assert_eq!(as_str(&get_by_path(&tree, "t.k")), "v");
}

#[test]
fn nested_config_blocks() {
    let text = "config firewall\nconfig address\nedit host1\nset type ipmask\nnext\nend\nend";
    let tree = parse_forti(text);
    assert_eq!(as_str(&get_by_path(&tree, "firewall.address.host1.type")), "ipmask");
}

#[test]
fn missing_intermediate_resolves_to_null() {
    let tree = parse_forti("config a\nedit e\nset k v\nnext\nend");
    match get_by_path(&tree, "a.missing.k") {
        Value::Null => {},
        _ => panic!("expected null for missing segment"),
    }
}

#[test]
fn blank_or_dotless_paths() {
    let tree = parse_forti("config a\nset k v\nend");
    match get_by_path(&tree, "") {
        Value::Null => {},
        _ => panic!("empty path should be null"),
    }
    match get_by_path(&tree, "   ") {
        Value::Null => {},
        _ => panic!("blank path should be null"),
    }
    // consecutive dots skip empty segments
    assert_eq!(as_str(&get_by_path(&tree, "a..k")), "v");
}

#[test]
fn unicode_whitespace_only_path_is_null() {
    let tree = Value::Obj(vec![(
        String::from("\u{b}"),
        Value::Str(String::from("x")),
    )]);
    match get_by_path(&tree, "\u{b}") {
        Value::Null => {},
        _ => panic!("a whitespace-only address must resolve to null"),
    }
    match get_by_path(&tree, "\u{a0}\u{2029}") {
        Value::Null => {},
        _ => panic!("a whitespace-only address must resolve to null"),
    }
}

#[test]
fn quoted_names_with_spaces() {
    let tree = parse_forti("config firewall\nconfig address\nedit \"web server 1\"\nset comment \"a, b\"\nnext\nend\nend");
    assert_eq!(
        as_str(&get_by_path(&tree, "firewall.address.web server 1.comment")),
        "a, b"
    );
}
