use substrait_lambda::binding::{
    binding_items, parse_input, parse_inputs, split_binding, InputBinding,
};
use substrait_lambda::error::{Error, RunError};
use substrait_lambda::table::TableReference;

fn bare(table: &str) -> TableReference<String> {
    TableReference::Bare { table: table.to_string() }
}

fn binding(table: &str, location: &str) -> InputBinding<String> {
    InputBinding { table_ref: bare(table), location: location.to_string() }
}

fn invalid(raw: &str) -> Error {
    RunError::InvalidBinding { raw: raw.to_string() }
}

fn not_s3(location: &str) -> Error {
    RunError::NotS3Location { location: location.to_string() }
}

#[test]
fn documented_inputs() {
    assert_eq!(
        parse_inputs("orders|s3://bucket/orders/;lineitem|s3://bucket/lineitem/"),
        Ok(vec![
            binding("orders", "s3://bucket/orders/"),
            binding("lineitem", "s3://bucket/lineitem/"),
        ])
    );
}

#[test]
fn split_at_first_bar() {
    assert_eq!(
        split_binding("t|s3://b/x|y"),
        Ok(("t".to_string(), "s3://b/x|y".to_string()))
    );
    assert_eq!(split_binding("|s3://b"), Ok((String::new(), "s3://b".to_string())));
    assert_eq!(split_binding("t|s3://"), Ok(("t".to_string(), "s3://".to_string())));
    assert_eq!(split_binding("orders"), Err(invalid("orders")));
    assert_eq!(split_binding(""), Err(invalid("")));
    assert_eq!(split_binding("t|"), Err(not_s3("")));
    assert_eq!(split_binding("t| s3://b"), Err(not_s3(" s3://b")));
    assert_eq!(split_binding("t|S3://b"), Err(not_s3("S3://b")));
    assert_eq!(split_binding("t|http://b/s3://"), Err(not_s3("http://b/s3://")));
    assert_eq!(
        split_binding("\u{e9}|s3://\u{e9}"),
        Ok(("\u{e9}".to_string(), "s3://\u{e9}".to_string()))
    );
}

#[test]
fn items_between_semicolons() {
    assert_eq!(binding_items(""), Vec::<String>::new());
    assert_eq!(binding_items(" ;;\t; \u{3000}"), Vec::<String>::new());
    assert_eq!(binding_items("a"), vec!["a".to_string()]);
    assert_eq!(
        binding_items(" a ;;b;"),
        vec![" a ".to_string(), "b".to_string()]
    );
    assert_eq!(
        binding_items("\u{e9};\u{1f600}"),
        vec!["\u{e9}".to_string(), "\u{1f600}".to_string()]
    );
}

#[test]
fn blank_inputs_are_no_error() {
    assert_eq!(parse_inputs(""), Ok(vec![]));
    assert_eq!(parse_inputs(" ; ;\n;"), Ok(vec![]));
}

#[test]
fn surrounding_blanks_change_nothing() {
    let expected = Ok(vec![binding("a", "s3://x/")]);
    assert_eq!(parse_inputs("a|s3://x/"), expected);
    assert_eq!(parse_inputs("a|s3://x/;"), expected);
    assert_eq!(parse_inputs("; ;a|s3://x/; "), expected);
}

#[test]
fn concatenation_keeps_the_order() {
    let a = "a|s3://x/;b|s3://y/";
    let b = "c|s3://z/";
    let mut all = parse_inputs(a).unwrap();
    all.extend(parse_inputs(b).unwrap());
    assert_eq!(parse_inputs(&format!("{a};{b}")), Ok(all));
}

#[test]
fn first_refused_item_is_reported() {
    assert_eq!(
        parse_inputs("a|s3://x/;broken;c|http://z/"),
        Err(invalid("broken"))
    );
    assert_eq!(
        parse_inputs("a|s3://x/;c|http://z/;broken"),
        Err(not_s3("http://z/"))
    );
}

#[test]
fn written_bindings_are_read_back() {
    let written = [("a", "s3://x/1|2"), ("b_2", "s3://y"), ("c", "s3://")];
    let raw = written
        .iter()
        .map(|(table, location)| format!("{table}|{location}"))
        .collect::<Vec<_>>()
        .join(";");
    let expected = written
        .iter()
        .map(|(table, location)| binding(table, location))
        .collect::<Vec<_>>();
    assert_eq!(parse_inputs(&raw), Ok(expected));
}

#[test]
fn table_references() {
    let read = |table: &str| parse_input(&format!("{table}|s3://b/")).unwrap().table_ref;
    assert_eq!(read("orders"), bare("orders"));
    assert_eq!(read(" Orders "), bare("orders"));
    assert_eq!(read("\"Orders\""), bare("Orders"));
    assert_eq!(
        read("Sales.Orders"),
        TableReference::Partial { schema: "sales".to_string(), table: "orders".to_string() }
    );
    assert_eq!(
        read("Main.sales.\"a.B\""),
        TableReference::Full {
            catalog: "main".to_string(),
            schema: "sales".to_string(),
            table: "a.B".to_string(),
        }
    );
    assert_eq!(read("TABLE()"), bare("TABLE()"));
    assert_eq!(read("a.b.c.d"), bare("a.b.c.d"));
    assert_eq!(read("a."), bare("a."));
    assert_eq!(read(""), bare(""));
}

#[test]
fn plain_names_are_kept() {
    let mut names = vec![
        "_".to_string(),
        "__".to_string(),
        "select".to_string(),
        "table".to_string(),
        "from".to_string(),
        "null".to_string(),
        "true".to_string(),
        "lineitem_partitions".to_string(),
    ];
    for first in "abcdefghijklmnopqrstuvwxyz_".chars() {
        for rest in ["", "0", "9a", "_1", "e5", "x"] {
            names.push(format!("{first}{rest}"));
        }
    }
    for name in names {
        let read = parse_input(&format!("{name}|s3://b/")).unwrap();
        assert_eq!(read, binding(&name, "s3://b/"));
    }
}
