use rigra::format::finish_format;
use rigra::json::Json;
use rigra::linebreak::{
    apply_in_field_linebreaks, apply_linebreaks, compute_in_field_keep_map,
    merge_linebreak_fields,
};
use rigra::models::{LineBreakRule, LineBreakSpec, OrderSpec};
use rigra::order::apply_order_from;

fn num(s: &str) -> Json {
    Json::Number(s.to_string())
}

fn text(s: &str) -> Json {
    Json::Str(s.to_string())
}

fn obj(entries: Vec<(&str, Json)>) -> Json {
    Json::Object(entries.into_iter().map(|(k, v)| (k.to_string(), v)).collect())
}

fn keys(j: &Json) -> Vec<String> {
    match j {
        Json::Object(m) => m.iter().map(|(k, _)| k.clone()).collect(),
        _ => panic!("not an object"),
    }
}

#[test]
fn test_apply_order_top_then_sub_then_rest() {
    let mut json = obj(vec![
        ("z", num("1")),
        ("b", num("2")),
        ("a", num("3")),
        ("name", text("n")),
        ("version", text("v")),
    ]);
    let sub = vec![("meta".to_string(), vec!["version".to_string()])];
    let order = OrderSpec {
        top: vec![vec!["name".into()]],
        sub,
        message: None,
        level: None,
    };
    let changed = apply_order_from(&mut json, &order.top, &order.sub);
    assert!(changed);
    let keys: Vec<_> = keys(&json);
    assert_eq!(keys, vec!["name", "version", "a", "b", "z"]);
}

#[test]
fn test_apply_linebreaks_between_groups_inserts_blank_line() {
    let pretty = "{\n  \"name\": \"x\",\n  \"version\": \"1.0.0\",\n  \"scripts\": {},\n  \"dependencies\": {}\n}".to_string();
    let groups = vec![
        vec!["name".to_string(), "version".to_string()],
        vec!["scripts".to_string(), "dependencies".to_string()],
    ];
    let field_rules: Vec<(String, LineBreakRule)> = Vec::new();
    let out = apply_linebreaks(pretty.clone(), &groups, true, &field_rules);
    assert!(out.contains("\n\n  \"scripts\""));
}

#[test]
fn test_apply_linebreaks_before_fields_respects_rules() {
    let pretty = "{\n  \"name\": \"x\",\n  \"license\": \"MIT\",\n  \"scripts\": {}\n}".to_string();
    let groups = vec![
        vec!["name".to_string(), "license".to_string()],
        vec!["scripts".to_string()],
    ];
    let rules: Vec<(String, LineBreakRule)> = vec![("license".to_string(), LineBreakRule::Strip)];
    let out_none = apply_linebreaks(pretty.clone(), &groups, true, &rules);
    assert!(out_none.contains("\n  \"license\""));
    assert!(out_none.contains("\n\n  \"scripts\""));
}

#[test]
fn test_apply_in_field_linebreaks_keep_does_not_insert() {
    let pretty = "{\n    \"scripts\": {\n        \"build\": \"echo build\",\n        \"test\": \"echo test\"\n    }\n}".to_string();
    let rules: Vec<(String, LineBreakRule)> = vec![("scripts".to_string(), LineBreakRule::Keep)];
    let keep_map: Vec<(String, Vec<String>)> = Vec::new();
    let out = apply_in_field_linebreaks(pretty, &rules, &keep_map);
    assert!(!out.contains("\n\n"));
}

#[test]
fn test_apply_in_field_linebreaks_keep_preserves_existing_single_blank() {
    let original = "{\n    \"scripts\": {\n        \"build\": \"echo build\",\n\n        \"test\": \"echo test\"\n    }\n}";
    let pretty = "{\n  \"scripts\": {\n    \"build\": \"echo build\",\n    \"test\": \"echo test\"\n  }\n}".to_string();
    let rules: Vec<(String, LineBreakRule)> = vec![("scripts".to_string(), LineBreakRule::Keep)];
    let keep_map = compute_in_field_keep_map(original, &rules);
    let out = apply_in_field_linebreaks(pretty, &rules, &keep_map);
    assert!(out.contains("\"build\": \"echo build\",\n\n    \"test\""));
}

#[test]
fn order_scenario_name_before_scripts() {
    let mut json = obj(vec![("scripts", obj(vec![("build", text("x"))])), ("name", text("n"))]);
    let top = vec![vec!["name".to_string()], vec!["scripts".to_string()]];
    let changed = apply_order_from(&mut json, &top, &Vec::new());
    assert!(changed);
    assert_eq!(keys(&json), vec!["name", "scripts"]);
}

#[test]
fn order_normalizing_twice_keeps_key_order() {
    let mut json = obj(vec![("b", num("1")), ("name", text("n")), ("a", num("2"))]);
    let top = vec![vec!["name".to_string()]];
    apply_order_from(&mut json, &top, &Vec::new());
    let first = keys(&json);
    let changed = apply_order_from(&mut json, &top, &Vec::new());
    assert!(changed);
    assert_eq!(keys(&json), first);
    let mut plain = obj(vec![("b", num("1")), ("a", num("2"))]);
    assert!(!apply_order_from(&mut plain, &top, &Vec::new()));
    assert_eq!(keys(&plain), vec!["a", "b"]);
    assert!(!apply_order_from(&mut plain, &top, &Vec::new()));
    assert_eq!(keys(&plain), vec!["a", "b"]);
}

#[test]
fn order_leaves_non_objects_and_nested_alone() {
    let mut arr = Json::Array(vec![num("1")]);
    assert!(!apply_order_from(&mut arr, &vec![vec!["a".to_string()]], &Vec::new()));
    let mut json = obj(vec![("x", obj(vec![("b", num("1")), ("a", num("2"))]))]);
    apply_order_from(&mut json, &Vec::new(), &Vec::new());
    match &json {
        Json::Object(m) => assert_eq!(keys(&m[0].1), vec!["b", "a"]),
        _ => panic!(),
    }
}

#[test]
fn linebreaks_collapse_double_blank_and_skip_first_group() {
    let pretty = "{\n  \"name\": \"x\",\n\n\n  \"scripts\": {}\n}".to_string();
    let groups = vec![vec!["name".to_string()], vec!["scripts".to_string()]];
    let out = apply_linebreaks(pretty, &groups, true, &Vec::new());
    assert_eq!(out, "{\n  \"name\": \"x\",\n\n  \"scripts\": {}\n}");
    let four = "{\n  \"name\": \"x\",\n\n\n\n\n  \"scripts\": {}\n}".to_string();
    assert_eq!(apply_linebreaks(four, &groups, true, &Vec::new()), "{\n  \"name\": \"x\",\n\n  \"scripts\": {}\n}");
    let strip = vec![("scripts".to_string(), LineBreakRule::Strip)];
    let two = "{\n  \"name\": \"x\",\n\n\n  \"scripts\": {}\n}".to_string();
    assert_eq!(apply_linebreaks(two, &groups, true, &strip), "{\n  \"name\": \"x\",\n  \"scripts\": {}\n}");
    let pretty2 = "{\n\n  \"name\": \"x\"\n}".to_string();
    let out2 = apply_linebreaks(pretty2, &groups, true, &Vec::new());
    assert_eq!(out2, "{\n\n  \"name\": \"x\"\n}");
}

#[test]
fn linebreaks_round_trip_is_stable() {
    let pretty = "{\n  \"name\": \"x\",\n  \"scripts\": {}\n}".to_string();
    let groups = vec![vec!["name".to_string()], vec!["scripts".to_string()]];
    let once = apply_linebreaks(pretty, &groups, true, &Vec::new());
    let twice = apply_linebreaks(once.clone(), &groups, true, &Vec::new());
    assert_eq!(once, twice);
}

#[test]
fn linebreaks_off_returns_text_unchanged() {
    let pretty = "{\n  \"a\": 1\n}\n".to_string();
    let out = apply_linebreaks(pretty.clone(), &vec![vec!["a".to_string()]], false, &Vec::new());
    assert_eq!(out, pretty);
}

#[test]
fn in_field_blank_removed_when_original_has_none() {
    let original = "{\n  \"scripts\": {\n    \"build\": \"b\",\n    \"test\": \"t\"\n  }\n}";
    let pretty = "{\n  \"scripts\": {\n    \"build\": \"b\",\n\n    \"test\": \"t\"\n  }\n}".to_string();
    let rules = vec![("scripts".to_string(), LineBreakRule::Keep)];
    let keep_map = compute_in_field_keep_map(original, &rules);
    assert!(keep_map.is_empty());
    let out = apply_in_field_linebreaks(pretty, &rules, &keep_map);
    assert_eq!(out, "{\n  \"scripts\": {\n    \"build\": \"b\",\n    \"test\": \"t\"\n  }\n}");
}

#[test]
fn in_field_strip_removes_blank_lines() {
    let pretty = "{\n  \"deps\": {\n    \"a\": \"1\",\n\n    \"b\": \"2\"\n  }\n}".to_string();
    let rules = vec![("deps".to_string(), LineBreakRule::Strip)];
    let out = apply_in_field_linebreaks(pretty, &rules, &Vec::new());
    assert!(!out.contains("\n\n"));
}

#[test]
fn keep_map_records_child_keys() {
    let original = "{\n  \"scripts\": {\n    \"a\": \"1\",\n\n    \"b\": \"2\"\n  }\n}";
    let rules = vec![("scripts".to_string(), LineBreakRule::Keep)];
    let m = compute_in_field_keep_map(original, &rules);
    assert_eq!(m, vec![("scripts".to_string(), vec!["b".to_string()])]);
}

#[test]
fn override_words_map_to_rules() {
    let policy = vec![("a".to_string(), LineBreakRule::Keep)];
    let ov = vec![("a".to_string(), "none".to_string()), ("b".to_string(), "keep".to_string())];
    let out = merge_linebreak_fields(Some(&policy), &ov);
    assert_eq!(
        out,
        vec![("a".to_string(), LineBreakRule::Strip), ("b".to_string(), LineBreakRule::Keep)]
    );
    assert!(merge_linebreak_fields(None, &Vec::new()).is_empty());
}

#[test]
fn finish_format_applies_both_passes() {
    let original = "{\n  \"scripts\": {\n    \"a\": \"1\",\n\n    \"b\": \"2\"\n  },\n  \"name\": \"n\"\n}";
    let pretty = "{\n  \"name\": \"n\",\n  \"scripts\": {\n    \"a\": \"1\",\n    \"b\": \"2\"\n  }\n}".to_string();
    let top = vec![vec!["name".to_string()], vec!["scripts".to_string()]];
    let lb = LineBreakSpec {
        between_groups: Some(true),
        before_fields: Vec::new(),
        in_fields: vec![("scripts".to_string(), LineBreakRule::Keep)],
    };
    let out = finish_format(pretty.clone(), original, &top, Some(&lb), true, None, &Vec::new(), &Vec::new());
    assert_eq!(
        out,
        "{\n  \"name\": \"n\",\n\n  \"scripts\": {\n    \"a\": \"1\",\n\n    \"b\": \"2\"\n  }\n}"
    );
    let off = finish_format(pretty.clone(), original, &top, Some(&lb), false, None, &Vec::new(), &Vec::new());
    assert_eq!(off, pretty);
}

#[test]
fn in_field_runs_collapse_and_first_child_has_none() {
    let rules = vec![("s".to_string(), LineBreakRule::Keep)];
    let keep = vec![("s".to_string(), vec!["b".to_string()])];
    let pretty = "{\n  \"s\": {\n\n    \"a\": \"1\",\n\n\n\n    \"b\": \"2\"\n  }\n}".to_string();
    let out = apply_in_field_linebreaks(pretty, &rules, &keep);
    assert_eq!(out, "{\n  \"s\": {\n    \"a\": \"1\",\n\n    \"b\": \"2\"\n  }\n}");
    let strip = vec![("s".to_string(), LineBreakRule::Strip)];
    let pretty = "{\n  \"s\": {\n    \"a\": \"1\",\n\n\n    \"b\": \"2\"\n  }\n}".to_string();
    assert!(!apply_in_field_linebreaks(pretty, &strip, &Vec::new()).contains("\n\n"));
}
