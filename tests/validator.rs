use rust_sysctl_loader::schema::{SchemaHashMap, SchemaType};
use rust_sysctl_loader::validator::validate;
use rust_sysctl_loader::SysctlParameterHashMap;

fn path(p: &str) -> Vec<String> {
    p.split('.').map(|s| s.to_string()).collect()
}

fn map_of(entries: &[(&str, &str)]) -> SysctlParameterHashMap {
    let mut m = SysctlParameterHashMap::new();
    for (p, v) in entries {
        m.insert(&path(p), v);
    }
    m
}

fn schema_of(entries: &[(&str, SchemaType)]) -> SchemaHashMap {
    let mut m = SchemaHashMap::new();
    for (p, t) in entries {
        m.insert(p.to_string(), *t);
    }
    m
}

#[test]
fn validator_sample1() {
    let result = validate(
        map_of(&[
            ("endpoint", "localhost:3000"),
            ("debug", "true"),
            ("log.file", "/var/log/console.log"),
            ("log.limit", "1024"),
        ]),
        schema_of(&[
            ("endpoint", SchemaType::String()),
            ("debug", SchemaType::Bool()),
            ("log.file", SchemaType::String()),
            ("log.limit", SchemaType::Integer()),
        ]),
    );
    assert_eq!(result, Ok(()),);
}

#[test]
fn invalid_sysctl_conf_no_such_token() {
    let result = validate(
        map_of(&[("endpoint", "localhost:3000")]),
        schema_of(&[("log.limit", SchemaType::Integer())]),
    );
    assert_eq!(result, Err(format!("'log.limit' is not found")),);
}

#[test]
fn invalid_sysctl_conf_submap_token() {
    let result = validate(
        map_of(&[
            ("endpoint", "localhost:3000"),
            ("debug", "true"),
            ("log.file", "/var/log/console.log"),
            ("log.limit", "1024"),
        ]),
        schema_of(&[("log", SchemaType::String())]),
    );
    assert_eq!(
        result,
        Err(format!("'log' is not a literal value, is a submap")),
    );
}

#[test]
fn invalid_sysctl_conf_invalid_bool() {
    let result = validate(
        map_of(&[("endpoint", "localhost:3000")]),
        schema_of(&[("endpoint", SchemaType::Bool())]),
    );
    assert_eq!(
        result,
        Err(format!("'endpoint' has not a bool value 'localhost:3000'")),
    );
}

#[test]
fn invalid_sysctl_conf_invalid_integer() {
    let result = validate(
        map_of(&[("endpoint", "localhost:3000")]),
        schema_of(&[("endpoint", SchemaType::Integer())]),
    );
    assert_eq!(
        result,
        Err(format!("'endpoint' has not a integer value 'localhost:3000'")),
    );
}
