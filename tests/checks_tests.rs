use rigra::checks::{run_checks, Check};
use rigra::json::Json;

fn s(x: &str) -> Json {
    Json::Str(x.to_string())
}

fn doc() -> Json {
    Json::Object(vec![
        ("name".to_string(), s("pkg")),
        ("version".to_string(), Json::Number("1.5".to_string())),
        ("count".to_string(), Json::Number("3".to_string())),
        ("tags".to_string(), Json::Array(vec![s("a"), s("b")])),
        ("repository".to_string(), Json::Object(vec![("type".to_string(), s("git"))])),
    ])
}

#[test]
fn required_reports_each_missing_field() {
    let c = vec![Check::Required {
        fields: vec!["name".into(), "repository.directory".into(), "license".into()],
        message: None,
        level: None,
    }];
    let out = run_checks(&c, &doc(), "p.json", "r");
    assert_eq!(out.len(), 2);
    assert_eq!(out[0].path, "$.repository.directory");
    assert_eq!(out[0].message, "Field 'repository.directory' is required");
    assert_eq!(out[0].severity, "error");
    assert_eq!(out[1].path, "$.license");
}

#[test]
fn type_mismatch_names_the_found_kind() {
    let c = vec![Check::Type {
        fields: vec![("name".into(), "number".into()), ("count".into(), "integer".into()), ("version".into(), "integer".into())],
        message: None,
        level: Some("warn".into()),
    }];
    let out = run_checks(&c, &doc(), "p.json", "r");
    assert_eq!(out.len(), 2);
    assert_eq!(out[0].message, "Type mismatch at $.name, got string");
    assert_eq!(out[0].severity, "warn");
    assert_eq!(out[1].message, "Type mismatch at $.version, got number");
}

#[test]
fn const_and_enum() {
    let c = vec![
        Check::Const { field: "repository.type".into(), value: s("git"), message: None, level: None },
        Check::Const { field: "name".into(), value: s("other"), message: Some("bad name".into()), level: None },
        Check::Enum { field: "name".into(), values: vec![s("x"), s("pkg")], message: None, level: None },
        Check::Enum { field: "missing".into(), values: vec![s("x")], message: None, level: Some("info".into()) },
    ];
    let out = run_checks(&c, &doc(), "p.json", "r");
    assert_eq!(out.len(), 2);
    assert_eq!(out[0].message, "bad name");
    assert_eq!(out[1].message, "Field 'missing' must be one of the allowed values");
    assert_eq!(out[1].severity, "info");
}

#[test]
fn length_bounds_on_strings_and_arrays() {
    let c = vec![
        Check::MinLength { field: "name".into(), min: 4, message: None, level: None },
        Check::MaxLength { field: "tags".into(), max: 1, message: None, level: None },
        Check::MaxLength { field: "count".into(), max: 0, message: None, level: None },
        Check::MinLength { field: "$.tags".into(), min: 2, message: None, level: None },
    ];
    let out = run_checks(&c, &doc(), "p.json", "r");
    assert_eq!(out.len(), 2);
    assert_eq!(out[0].message, "Field 'name' is shorter than 4");
    assert_eq!(out[1].message, "Field 'tags' is longer than 1");
    assert_eq!(out[1].path, "$.tags");
}
