use rust_sysctl_loader::sysctl::parse_str;
use rust_sysctl_loader::SysctlParameterHashMap;

fn path(p: &str) -> Vec<String> {
    p.split('.').map(|s| s.to_string()).collect()
}

fn map_of(entries: &[(&str, &str)]) -> SysctlParameterHashMap {
    let mut m = SysctlParameterHashMap::new();
    for (p, v) in entries {
        m.insert(&path(p), v);
    }
    m
}

#[test]
fn sysctl_sample1() {
    let result = parse_str(
        "endpoint = localhost:3000
debug = true
log.file = /var/log/console.log
log.limit = 1024",
    );
    assert_eq!(
        result.unwrap(),
        map_of(&[
            ("endpoint", "localhost:3000"),
            ("debug", "true"),
            ("log.file", "/var/log/console.log"),
            ("log.limit", "1024"),
        ])
    );
}

#[test]
fn sysctl_sample2() {
    let result = parse_str(
        "endpoint = localhost:3000
# debug = true
log.file = /var/log/console.log
log.limit = 1024
log.name = default.log",
    );
    assert_eq!(
        result.unwrap(),
        map_of(&[
            ("endpoint", "localhost:3000"),
            ("log.file", "/var/log/console.log"),
            ("log.limit", "1024"),
            ("log.name", "default.log"),
        ])
    );
}

#[test]
fn sysctl_overwrite() {
    let result = parse_str(
        "endpoint = localhost:3000
endpoint = localhost:3001",
    );
    assert_eq!(result.unwrap(), map_of(&[("endpoint", "localhost:3001")]));
}

#[test]
fn sysctl_whitespaces() {
    let result = parse_str(
        "  endpoint = localhost:3000  

        ",
    );
    assert_eq!(result.unwrap(), map_of(&[("endpoint", "localhost:3000")]));
}

#[test]
fn sysctl_comments() {
    let result = parse_str(
        "#commentline
;commentline2
  #commentline3
  ;commentline4
endpoint = localhost:3000
",
    );
    assert_eq!(result.unwrap(), map_of(&[("endpoint", "localhost:3000")]));
}

#[test]
fn sysctl_invalid_token_begins_with_hyphen() {
    let result = parse_str(
        "endpoint = localhost:3000
-log.file = /var/log/console.log",
    );
    assert_eq!(result.unwrap(), map_of(&[("endpoint", "localhost:3000")]));
}

#[test]
fn sysctl_invalid_token_begins_with_dot() {
    let result = parse_str(".endpoint = localhost:3000");
    assert_eq!(
        result,
        Err("Token '.endpoint' has an invalid hierarchical structure".to_string())
    );
}

#[test]
fn sysctl_invalid_token_ends_with_dot() {
    let result = parse_str("endpoint. = localhost:3000");
    assert_eq!(
        result,
        Err("Token 'endpoint.' has an invalid hierarchical structure".to_string())
    );
}

#[test]
fn sysctl_invalid_token_has_continuous_dots() {
    let result = parse_str("end..point = localhost:3000");
    assert_eq!(
        result,
        Err("Token 'end..point' has an invalid hierarchical structure".to_string())
    );
}

#[test]
fn sysctl_invalid_syntax() {
    let result = parse_str("end.point.localhost:3000");
    assert_eq!(
        result,
        Err("'end.point.localhost:3000' is not in format `token = value`".to_string())
    );
}
