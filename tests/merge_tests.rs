use rigra::config::SyncClientMergeCfg;
use rigra::json::{json_eq, Json};
use rigra::merge::{merge_documents, union_arrays};
use rigra::path::{get_path, parse_path, set_path};
use rigra::sync::{fingerprint, needs_write};

fn s(x: &str) -> Json {
    Json::Str(x.to_string())
}

fn obj(entries: Vec<(&str, Json)>) -> Json {
    Json::Object(entries.into_iter().map(|(k, v)| (k.to_string(), v)).collect())
}

fn strs(j: &Json) -> Vec<String> {
    match j {
        Json::Array(v) => v
            .iter()
            .map(|x| match x {
                Json::Str(t) => t.clone(),
                _ => panic!("not a string"),
            })
            .collect(),
        _ => panic!("not an array"),
    }
}

fn cfg() -> SyncClientMergeCfg {
    SyncClientMergeCfg { keep_paths: Vec::new(), override_paths: Vec::new(), nosync_paths: Vec::new(), array: None }
}

#[test]
fn union_keeps_target_then_new_source_items() {
    let src = obj(vec![("files", Json::Array(vec![s("a"), s("b")]))]);
    let dst = obj(vec![("files", Json::Array(vec![s("b"), s("c")]))]);
    let mut c = cfg();
    c.array = Some(vec![("files".to_string(), "union".to_string())]);
    let out = merge_documents(&src, &dst, &c);
    assert_eq!(strs(get_path(&out, "files").unwrap()), vec!["b", "c", "a"]);
}

#[test]
fn union_without_target_array_takes_source() {
    let sa = vec![s("a"), s("a")];
    let out = union_arrays(None, &sa);
    assert_eq!(strs(&Json::Array(out)), vec!["a"]);
}

#[test]
fn replace_strategy_takes_source_array() {
    let src = obj(vec![("files", Json::Array(vec![s("a")]))]);
    let dst = obj(vec![("files", Json::Array(vec![s("z")]))]);
    let mut c = cfg();
    c.array = Some(vec![("$.files".to_string(), "replace".to_string())]);
    let out = merge_documents(&src, &dst, &c);
    assert_eq!(strs(get_path(&out, "files").unwrap()), vec!["a"]);
}

#[test]
fn keep_preserves_target_value_and_clears_when_absent() {
    let src = obj(vec![("version", s("2")), ("name", s("src"))]);
    let dst = obj(vec![("version", s("1"))]);
    let mut c = cfg();
    c.keep_paths = vec!["version".to_string(), "name".to_string()];
    let out = merge_documents(&src, &dst, &c);
    assert!(json_eq(get_path(&out, "version").unwrap(), &s("1")));
    assert!(get_path(&out, "name").is_none());
}

#[test]
fn override_wins_when_no_other_rule_touches_the_path() {
    let src = obj(vec![("a", s("src"))]);
    let dst = obj(vec![("a", s("dst"))]);
    let mut c = cfg();
    c.override_paths = vec!["a".to_string()];
    let out = merge_documents(&src, &dst, &c);
    assert!(json_eq(get_path(&out, "a").unwrap(), &s("src")));
}

#[test]
fn nosync_keeps_target_nested_value() {
    let src = obj(vec![("x", obj(vec![("y", s("new"))]))]);
    let dst = obj(vec![("x", obj(vec![("y", s("old"))]))]);
    let mut c = cfg();
    c.nosync_paths = vec!["x.y".to_string()];
    let out = merge_documents(&src, &dst, &c);
    assert!(json_eq(get_path(&out, "x.y").unwrap(), &s("old")));
}

#[test]
fn path_through_non_object_is_left_alone() {
    let doc = obj(vec![("a", s("leaf"))]);
    let out = set_path(doc, "a.b", Some(s("v")));
    assert!(json_eq(&out, &obj(vec![("a", s("leaf"))])));
}

#[test]
fn set_path_creates_missing_objects() {
    let out = set_path(obj(Vec::new()), "$.a.b", Some(s("v")));
    assert!(json_eq(&out, &obj(vec![("a", obj(vec![("b", s("v"))]))])));
}

#[test]
fn parse_path_drops_dollar_and_empty_keys() {
    assert_eq!(parse_path(" $.a..b. "), vec!["a".to_string(), "b".to_string()]);
    assert!(parse_path("$").is_empty());
}

#[test]
fn object_equality_ignores_entry_order() {
    let a = obj(vec![("x", s("1")), ("y", s("2"))]);
    let b = obj(vec![("y", s("2")), ("x", s("1"))]);
    assert!(json_eq(&a, &b));
    assert!(!json_eq(&a, &obj(vec![("x", s("1"))])));
}

#[test]
fn merge_twice_needs_no_second_write() {
    let src = obj(vec![("files", Json::Array(vec![s("a"), s("b")]))]);
    let dst = obj(vec![("files", Json::Array(vec![s("b"), s("c")]))]);
    let mut c = cfg();
    c.array = Some(vec![("files".to_string(), "union".to_string())]);
    let once = merge_documents(&src, &dst, &c);
    let twice = merge_documents(&src, &once, &c);
    assert!(json_eq(&once, &twice));
    let text = "{\n  \"files\": [\"b\", \"c\", \"a\"]\n}";
    assert!(!needs_write(text, Some(text)));
    assert!(needs_write(text, Some("{}")));
    assert!(needs_write(text, None));
}

#[test]
fn fingerprint_is_hash_and_byte_length() {
    let f = fingerprint("héllo");
    let (hex, len) = f.split_once('-').unwrap();
    assert_eq!(hex.len(), 16);
    assert!(hex.chars().all(|c| c.is_ascii_hexdigit() && !c.is_ascii_uppercase()));
    assert_eq!(len, "6");
    assert_ne!(fingerprint("a"), fingerprint("b"));
    assert_eq!(fingerprint("a"), fingerprint("a"));
}

#[test]
fn clearing_through_missing_key_changes_nothing() {
    let out = set_path(obj(vec![("a", s("1"))]), "x.y", None);
    assert!(json_eq(&out, &obj(vec![("a", s("1"))])));
    let src = obj(vec![("a", s("1"))]);
    let mut c = cfg();
    c.keep_paths = vec!["x.y".to_string()];
    let merged = merge_documents(&src, &Json::Null, &c);
    assert!(json_eq(&merged, &src));
}
