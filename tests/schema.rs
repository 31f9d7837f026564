use rust_sysctl_loader::schema::{parse_str, SchemaHashMap, SchemaType};

fn schema_of(entries: &[(&str, SchemaType)]) -> SchemaHashMap {
    let mut m = SchemaHashMap::new();
    for (p, t) in entries {
        m.insert(p.to_string(), *t);
    }
    m
}

#[test]
fn sample() {
    let result = parse_str(
        "endpoint => string
debug => bool
log.file => string
log.limit => integer",
    );
    assert_eq!(
        result.unwrap(),
        schema_of(&[
            ("endpoint", SchemaType::String()),
            ("debug", SchemaType::Bool()),
            ("log.file", SchemaType::String()),
            ("log.limit", SchemaType::Integer()),
        ])
    );
}

#[test]
fn schema_overwrite() {
    let result = parse_str(
        "endpoint => string
endpoint => bool",
    );
    assert_eq!(result.unwrap(), schema_of(&[("endpoint", SchemaType::Bool())]));
}

#[test]
fn schema_whitespaces() {
    let result = parse_str(
        "  endpoint => string  

        ",
    );
    assert_eq!(result.unwrap(), schema_of(&[("endpoint", SchemaType::String())]));
}

#[test]
fn schema_comments() {
    let result = parse_str(
        "#commentline
;commentline2
  #commentline3
  ;commentline4
endpoint => string
",
    );
    assert_eq!(result.unwrap(), schema_of(&[("endpoint", SchemaType::String())]));
}

#[test]
fn schema_invalid_token_begins_with_hyphen() {
    let result = parse_str(
        "endpoint => integer
-log.file => string",
    );
    assert_eq!(result.unwrap(), schema_of(&[("endpoint", SchemaType::Integer())]));
}

#[test]
fn schema_invalid_token_begins_with_dot() {
    let result = parse_str(".endpoint => string");
    assert_eq!(
        result,
        Err("Token '.endpoint' has an invalid hierarchical structure".to_string())
    );
}

#[test]
fn schema_invalid_token_ends_with_dot() {
    let result = parse_str("endpoint. => string");
    assert_eq!(
        result,
        Err("Token 'endpoint.' has an invalid hierarchical structure".to_string())
    );
}

#[test]
fn schema_invalid_token_has_continuous_dots() {
    let result = parse_str("end..point => string");
    assert_eq!(
        result,
        Err("Token 'end..point' has an invalid hierarchical structure".to_string())
    );
}

#[test]
fn schema_invalid_syntax() {
    let result = parse_str("end.point = localhost:3000");
    assert_eq!(
        result,
        Err("'end.point = localhost:3000' is not in format `token => schema_type`".to_string())
    );
}

#[test]
fn invalid_schema_type() {
    let result = parse_str("end.point => localhost:3000");
    assert_eq!(
        result,
        Err("'end.point' has an invalid schema type 'localhost:3000' (must be string, bool or integer)".to_string())
    );
}
