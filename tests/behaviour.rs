use rust_sysctl_loader::schema::{self, SchemaHashMap, SchemaType};
use rust_sysctl_loader::sysctl::parse_str;
use rust_sysctl_loader::validator::{validate, validate_value};
use rust_sysctl_loader::{parse_sysctl_conf_str, SysctlParameterHashMap, SysctlParameterValue};

fn path(p: &str) -> Vec<String> {
    p.split('.').map(|s| s.to_string()).collect()
}

fn leaf(m: &SysctlParameterHashMap, p: &str) -> Option<String> {
    match m.get(&path(p)) {
        Some(SysctlParameterValue::V(s)) => Some(s.clone()),
        _ => None,
    }
}

#[test]
fn parsing_twice_gives_equal_maps() {
    let text = "a.b = 1\nc = two\na.d = 3";
    assert_eq!(parse_str(text).unwrap(), parse_str(text).unwrap());
}

#[test]
fn equality_ignores_insertion_order() {
    let first = parse_str("x = 1\ny.z = 2").unwrap();
    let second = parse_str("y.z = 2\nx = 1").unwrap();
    assert_eq!(first, second);
    assert_ne!(first, parse_str("x = 1\ny.z = 3").unwrap());
}

#[test]
fn later_value_wins_at_a_path() {
    let mut m = SysctlParameterHashMap::new();
    m.insert(&path("net.core.limit"), "1");
    m.insert(&path("net.core.limit"), "2");
    assert_eq!(leaf(&m, "net.core.limit"), Some("2".to_string()));
}

#[test]
fn leaf_replaces_subtree() {
    let m = parse_str("a.b = 1\na = 2").unwrap();
    assert!(m.get(&path("a.b")).is_none());
    assert_eq!(leaf(&m, "a"), Some("2".to_string()));
}

#[test]
fn subtree_replaces_leaf() {
    let m = parse_str("a = 1\na.b = 2").unwrap();
    assert_eq!(leaf(&m, "a.b"), Some("2".to_string()));
    assert!(matches!(m.get(&path("a")), Some(SysctlParameterValue::M(_))));
}

#[test]
fn quiet_document_gives_empty_map() {
    let m = parse_str("#x\n;y\n-z\n\n   \n").unwrap();
    assert_eq!(m, SysctlParameterHashMap::new());
    let s = schema::parse_str("#x\n;y\n-z\n\n").unwrap();
    assert_eq!(s, SchemaHashMap::new());
}

#[test]
fn example_document_leaves() {
    let m = parse_str("endpoint = localhost:3000\ndebug = true\nlog.file = /var/log/console.log")
        .unwrap();
    assert_eq!(leaf(&m, "endpoint"), Some("localhost:3000".to_string()));
    assert_eq!(leaf(&m, "debug"), Some("true".to_string()));
    assert_eq!(leaf(&m, "log.file"), Some("/var/log/console.log".to_string()));
    assert!(matches!(m.get(&path("log")), Some(SysctlParameterValue::M(_))));
}

#[test]
fn get_on_empty_path_finds_nothing() {
    let m = parse_str("a = 1").unwrap();
    assert!(m.get(&Vec::new()).is_none());
    assert!(m.get(&path("a.b")).is_none());
    assert!(m.get(&path("missing")).is_none());
}

#[test]
fn value_keeps_later_separators() {
    let m = parse_str("url = a=b").unwrap();
    assert_eq!(leaf(&m, "url"), Some("a=b".to_string()));
}

#[test]
fn carriage_return_inside_line_is_rejected() {
    assert_eq!(
        parse_str("a = b\rc"),
        Err("'a = b\rc' is not a single line".to_string())
    );
}

#[test]
fn crlf_line_endings_are_accepted() {
    let m = parse_str("a = 1\r\nb = 2\r\n").unwrap();
    assert_eq!(leaf(&m, "b"), Some("2".to_string()));
}

#[test]
fn empty_token_is_a_single_empty_segment() {
    let m = parse_str("= v").unwrap();
    assert_eq!(leaf(&m, ""), Some("v".to_string()));
}

#[test]
fn integer_literals() {
    assert_eq!(validate_value("p", "18446744073709551615", SchemaType::Integer()), Ok(()));
    assert_eq!(validate_value("p", "+7", SchemaType::Integer()), Ok(()));
    assert_eq!(validate_value("p", "007", SchemaType::Integer()), Ok(()));
    assert_eq!(
        validate_value("p", "18446744073709551616", SchemaType::Integer()),
        Err("'p' has not a integer value '18446744073709551616'".to_string())
    );
    assert_eq!(
        validate_value("p", "-1", SchemaType::Integer()),
        Err("'p' has not a integer value '-1'".to_string())
    );
    assert_eq!(
        validate_value("p", "", SchemaType::Integer()),
        Err("'p' has not a integer value ''".to_string())
    );
    assert_eq!(
        validate_value("p", "+", SchemaType::Integer()),
        Err("'p' has not a integer value '+'".to_string())
    );
}

#[test]
fn bool_literals() {
    assert_eq!(validate_value("p", "true", SchemaType::Bool()), Ok(()));
    assert_eq!(validate_value("p", "false", SchemaType::Bool()), Ok(()));
    assert_eq!(
        validate_value("p", "True", SchemaType::Bool()),
        Err("'p' has not a bool value 'True'".to_string())
    );
    assert_eq!(validate_value("p", "anything", SchemaType::String()), Ok(()));
}

#[test]
fn validation_stops_at_first_failing_entry() {
    let conf = parse_str("a = x\nb = y").unwrap();
    let sch = schema::parse_str("a => integer\nb => bool").unwrap();
    assert_eq!(
        validate(conf, sch),
        Err("'a' has not a integer value 'x'".to_string())
    );
}

#[test]
fn validation_example_bool() {
    let conf = parse_str("endpoint = localhost:3000").unwrap();
    let sch = schema::parse_str("endpoint => bool").unwrap();
    assert_eq!(
        validate(conf, sch),
        Err("'endpoint' has not a bool value 'localhost:3000'".to_string())
    );
}

#[test]
fn validation_example_submap() {
    let conf = parse_str("log.file = f").unwrap();
    let sch = schema::parse_str("log => string").unwrap();
    assert_eq!(
        validate(conf, sch),
        Err("'log' is not a literal value, is a submap".to_string())
    );
}

#[test]
fn validation_example_missing() {
    let conf = parse_str("a = 1").unwrap();
    let sch = schema::parse_str("net.ipv4.forward => integer").unwrap();
    assert_eq!(
        validate(conf, sch),
        Err("'net.ipv4.forward' is not found".to_string())
    );
}

#[test]
fn schema_keeps_first_position_on_overwrite() {
    let s = schema::parse_str("a => string\nb => bool\na => integer").unwrap();
    assert_eq!(s.len(), 2);
    assert_eq!(s.get(&"a".to_string()), Some(SchemaType::Integer()));
    let (p, t) = s.entry(0);
    assert_eq!(p, "a");
    assert_eq!(t, SchemaType::Integer());
}

#[test]
fn schema_line_break_and_type_errors() {
    assert_eq!(
        schema::parse_str("a => x\ry"),
        Err("'a => x\ry' is not a single line".to_string())
    );
    assert_eq!(
        schema::parse_str("a => String"),
        Err("'a' has an invalid schema type 'String' (must be string, bool or integer)".to_string())
    );
}

#[test]
fn first_bad_line_fails_whole_document() {
    assert_eq!(
        parse_str("a = 1\nbad line\nc.. = 2"),
        Err("'bad line' is not in format `token = value`".to_string())
    );
}

#[test]
fn render_quotes_and_nests() {
    let m = parse_str("a.b = 1").unwrap();
    assert_eq!(m.render(), "{\"a\": {\"b\": \"1\"}}");
    let m = parse_str("q = say \"hi\"").unwrap();
    assert_eq!(m.render(), "{\"q\": \"say \\\"hi\\\"\"}");
    let m = parse_str("x = 1\ny = 2").unwrap();
    assert_eq!(m.render(), "{\"x\": \"1\", \"y\": \"2\"}");
    assert_eq!(SysctlParameterHashMap::new().render(), "{}");
}

#[test]
fn entries_can_be_listed() {
    let m = parse_str("x = 1\ny.z = 2\nx = 3").unwrap();
    assert_eq!(m.len(), 2);
    let (k0, v0) = m.entry(0);
    assert_eq!(k0, "x");
    assert!(matches!(v0, SysctlParameterValue::V(s) if s == "3"));
    let (k1, v1) = m.entry(1);
    assert_eq!(k1, "y");
    assert!(matches!(v1, SysctlParameterValue::M(_)));
}

#[test]
fn crate_root_parser_agrees_with_sysctl_parser() {
    for text in [".endpoint = a", "no separator", "a.b = 1\nc = 2", "#only"] {
        assert_eq!(parse_sysctl_conf_str(text), parse_str(text));
    }
}
