use fgt_parser::{
    csv_escape, extract_addresses, extract_policies, get_by_path, parse_forti, rows_from_node,
    to_csv, Row, Value,
};

const ADDR_CONF: &str = "config firewall\nconfig address\nedit e1\nset type ipmask\nset subnet 1.2.3.0 255.255.255.0\nnext\nedit e2\nset type fqdn\nset fqdn example.com\nset associated-interface wan1\nset comment \"edge host\"\nnext\nend\nend";

#[test]
fn table_shape_yields_one_row_per_child_with_name() {
    let tree = parse_forti(ADDR_CONF);
    let node = get_by_path(&tree, "firewall.address");
    let rows = rows_from_node(&node);
    assert_eq!(rows.len(), 2);
    assert_eq!(rows[0].get("name").unwrap(), "e1");
    assert_eq!(rows[1].get("name").unwrap(), "e2");
    assert_eq!(rows[0].get("type").unwrap(), "ipmask");
    assert_eq!(rows[0].get("subnet").unwrap(), "1.2.3.0 | 255.255.255.0");
}

#[test]
fn addresses_extraction_renders_subnet_with_space() {
    let tree = parse_forti(ADDR_CONF);
    let rows = extract_addresses(&tree);
    assert_eq!(rows.len(), 2);
    assert_eq!(rows[0].get("name").unwrap(), "e1");
    assert_eq!(rows[0].get("subnet").unwrap(), "1.2.3.0 255.255.255.0");
    assert_eq!(rows[1].get("fqdn").unwrap(), "example.com");
    assert_eq!(rows[1].get("interface").unwrap(), "wan1");
    assert_eq!(rows[1].get("comment").unwrap(), "edge host");
    assert_eq!(rows[0].get("interface").unwrap(), "");
}

#[test]
fn null_node_yields_no_rows() {
    let rows = rows_from_node(&Value::Null);
    assert_eq!(rows.len(), 0);
}

#[test]
fn record_shape_yields_single_flat_row() {
    let tree = parse_forti("config system\nset hostname fw1\nset timezone 04\nend");
    let node = get_by_path(&tree, "system");
    let rows = rows_from_node(&node);
    assert_eq!(rows.len(), 1);
    assert_eq!(rows[0].get("hostname").unwrap(), "fw1");
    assert_eq!(rows[0].get("timezone").unwrap(), "04");
}

#[test]
fn scalar_node_yields_value_column() {
    let rows = rows_from_node(&Value::Str(String::from("hello")));
    assert_eq!(rows.len(), 1);
    assert_eq!(rows[0].get("value").unwrap(), "hello");
}

#[test]
fn nested_objects_flatten_with_dotted_keys() {
    let inner = Value::Obj(vec![(String::from("b"), Value::Str(String::from("x")))]);
    let outer = Value::Obj(vec![
        (String::from("a"), inner),
        (String::from("c"), Value::Str(String::from("y"))),
    ]);
    let rows = rows_from_node(&outer);
    assert_eq!(rows.len(), 1);
    assert_eq!(rows[0].get("a.b").unwrap(), "x");
    assert_eq!(rows[0].get("c").unwrap(), "y");
}

#[test]
fn flatten_renders_scalars_canonically() {
    let node = Value::Obj(vec![
        (String::from("flag"), Value::Bool(true)),
        (String::from("count"), Value::Num(-12)),
        (String::from("gone"), Value::Null),
    ]);
    let rows = rows_from_node(&node);
    assert_eq!(rows.len(), 1);
    assert_eq!(rows[0].get("flag").unwrap(), "true");
    assert_eq!(rows[0].get("count").unwrap(), "-12");
    assert_eq!(rows[0].get("gone").unwrap(), "");
}

#[test]
fn extreme_numbers_render_in_decimal() {
    let rows = rows_from_node(&Value::Num(i64::MIN));
    assert_eq!(rows[0].get("value").unwrap(), "-9223372036854775808");
    let rows = rows_from_node(&Value::Num(i64::MAX));
    assert_eq!(rows[0].get("value").unwrap(), "9223372036854775807");
    let rows = rows_from_node(&Value::Num(0));
    assert_eq!(rows[0].get("value").unwrap(), "0");
}

#[test]
fn list_of_mixed_values_joins_forms() {
    let node = Value::Arr(vec![
        Value::Str(String::from("a")),
        Value::Num(7),
        Value::Bool(false),
    ]);
    let rows = rows_from_node(&node);
    assert_eq!(rows.len(), 1);
    assert_eq!(rows[0].get("value").unwrap(), "a | 7 | false");
}

#[test]
fn empty_rows_serialize_to_empty_string() {
    let rows: Vec<Row> = Vec::new();
    assert_eq!(to_csv(&rows, None), "");
}

#[test]
fn csv_has_sorted_header_and_escaped_fields() {
    let mut r1 = Row::new();
    r1.insert(String::from("b"), String::from("1"));
    r1.insert(String::from("a"), String::from("x,y"));
    let mut r2 = Row::new();
    r2.insert(String::from("c"), String::from("2"));
    let rows = vec![r1, r2];
    let out = to_csv(&rows, None);
    assert_eq!(out, "a,b,c\n\"x,y\",1,\n,,2\n");
}

#[test]
fn preferred_columns_come_first_then_sorted_rest() {
    let mut r = Row::new();
    r.insert(String::from("zeta"), String::from("1"));
    r.insert(String::from("beta"), String::from("2"));
    r.insert(String::from("alpha"), String::from("3"));
    let rows = vec![r];
    let pref = vec![String::from("zeta"), String::from("alpha")];
    let out = to_csv(&rows, Some(&pref));
    assert_eq!(out, "zeta,alpha,beta\n1,3,2\n");
}

#[test]
fn escape_quotes_and_commas() {
    let s = String::from("He said \"hi\", ok");
    assert_eq!(csv_escape(s), "\"He said \"\"hi\"\", ok\"");
    assert_eq!(csv_escape(String::from("plain")), "plain");
    assert_eq!(csv_escape(String::from("line\nbreak")), "\"line\nbreak\"");
}

#[test]
fn policies_extraction_joins_lists_and_falls_back() {
    let text = "config firewall\nconfig policy\nedit 1\nset name allow-web\nset action accept\nset srcintf lan wan\nset dstaddr all\nset logtraffic_start enable\nset comment legacy\nnext\nend\nend";
    let tree = parse_forti(text);
    let rows = extract_policies(&tree);
    assert_eq!(rows.len(), 1);
    assert_eq!(rows[0].get("id").unwrap(), "1");
    assert_eq!(rows[0].get("name").unwrap(), "allow-web");
    assert_eq!(rows[0].get("srcintf").unwrap(), "lan | wan");
    assert_eq!(rows[0].get("dstaddr").unwrap(), "all");
    assert_eq!(rows[0].get("logtraffic").unwrap(), "enable");
    assert_eq!(rows[0].get("comments").unwrap(), "legacy");
    assert_eq!(rows[0].get("schedule").unwrap(), "");
}

#[test]
fn full_address_export_csv() {
    let tree = parse_forti(ADDR_CONF);
    let rows = extract_addresses(&tree);
    let pref = vec![
        String::from("name"),
        String::from("type"),
        String::from("subnet"),
        String::from("fqdn"),
        String::from("interface"),
        String::from("comment"),
    ];
    let out = to_csv(&rows, Some(&pref));
    assert_eq!(
        out,
        "name,type,subnet,fqdn,interface,comment\ne1,ipmask,1.2.3.0 255.255.255.0,,,\ne2,fqdn,,example.com,wan1,edge host\n"
    );
}
