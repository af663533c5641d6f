use rigra::cli::effective_write;
use rigra::config::{
    conv_path, detect_repo_root, package_owner_repo, parse_conv_ref, resolve_effective,
    rsplit_once_at, ConvCfg, FormatCfg, RigletConfig,
};
use rigra::json::Json;
use rigra::lint::{
    drift_issue, invalid_index_result, invalid_policy_issue, missing_index_result, missing_policy_issue,
    order_conforms, order_issue, sort_issues, summarize,
};
use rigra::models::{Issue, OrderSpec, SyncRule};
use rigra::sync::{checksum_path, is_rule_enabled, join_path, plan_sync, resolve_path};

fn empty_cfg() -> RigletConfig {
    RigletConfig { index: None, scope: None, output: None, format: None, rules: None, conv: None, sync: None }
}

#[test]
fn scope_gating() {
    assert!(is_rule_enabled("repo|app", "repo"));
    assert!(!is_rule_enabled("repo", "lib"));
    assert!(is_rule_enabled("*", "lib"));
    assert!(is_rule_enabled("", "lib"));
    assert!(is_rule_enabled("  ALL ", "x"));
    assert!(is_rule_enabled("lib, REPO", "repo"));
    assert!(!is_rule_enabled(",|", "repo"));
}

#[test]
fn sync_when_filters_rules_plan() {
    let rules = vec![
        SyncRule { id: "r1".into(), source: "templates/a.txt".into(), target: "out/repo.txt".into(), when: "repo|app".into(), format: None, level: None, message: None },
        SyncRule { id: "r2".into(), source: "templates/a.txt".into(), target: "out/lib.txt".into(), when: "lib".into(), format: None, level: None, message: None },
    ];
    let plans = plan_sync(&rules, "conv/index.toml", "/root", "repo", &None);
    assert_eq!(plans.len(), 1);
    assert_eq!(plans[0].rule, 0);
    assert_eq!(plans[0].source, "conv/templates/a.txt");
    assert_eq!(plans[0].target, "/root/out/repo.txt");
    assert!(!plans[0].merge);
}

#[test]
fn paths_join_and_resolve() {
    assert_eq!(join_path("a", "b"), "a/b");
    assert_eq!(join_path("a/", "b"), "a/b");
    assert_eq!(join_path("a", "/abs"), "/abs");
    assert_eq!(join_path("", "b"), "b");
    assert_eq!(resolve_path("index.toml", "t.txt"), "t.txt");
    assert_eq!(checksum_path("/r", "out/a.json"), "/r/.rigra/sync/checksums/out__a.json.chk");
}

#[test]
fn rsplit_and_owner_repo() {
    assert_eq!(rsplit_once_at("a@b@c", '@'), Some(("a@b".to_string(), "c".to_string())));
    assert_eq!(rsplit_once_at("abc", '@'), None);
    assert_eq!(package_owner_repo("@owner/repo"), Some(("owner".to_string(), "repo".to_string())));
    assert_eq!(package_owner_repo("solo"), Some(("solo".to_string(), "solo".to_string())));
}

#[test]
fn conv_refs_resolve_to_cache_paths() {
    assert_eq!(
        parse_conv_ref("conv:hyperedge@v0.1.0"),
        Some(("hyperedge".to_string(), "v0.1.0".to_string(), "index.toml".to_string()))
    );
    assert_eq!(parse_conv_ref("conventions/index.toml"), None);
    assert_eq!(conv_path("@nazahex/conv-lib-ts-mono", "v0.1.0", "index.toml"), ".rigra/conv/@nazahex__conv-lib-ts-mono@v0.1.0/index.toml");
}

#[test]
fn conv_index_resolution_default_subpath() {
    let mut cfg = empty_cfg();
    cfg.index = Some("conv:hyperedge@v0.1.0".to_string());
    cfg.scope = Some("repo".to_string());
    cfg.output = Some("json".to_string());
    let eff = resolve_effective("/r".to_string(), Some(cfg), None, None, None, None, None, None);
    assert!(eff.index_configured);
    assert_eq!(eff.index, ".rigra/conv/hyperedge@v0.1.0/index.toml");
    assert_eq!(eff.output, "json");
}

#[test]
fn conv_without_index_uses_package() {
    let mut cfg = empty_cfg();
    cfg.conv = Some(ConvCfg { auto_install: None, package: Some("@nazahex/conv-lib-ts-mono@v0.1.0".to_string()), source: None, subpath: None });
    let eff = resolve_effective("/r".to_string(), Some(cfg), None, None, None, None, None, None);
    assert!(eff.index_configured);
    assert_eq!(eff.index, ".rigra/conv/@nazahex__conv-lib-ts-mono@v0.1.0/index.toml");
}

#[test]
fn defaults_and_precedence() {
    let eff = resolve_effective("/r".to_string(), None, None, None, None, None, None, None);
    assert!(!eff.index_configured);
    assert_eq!(eff.index, "");
    assert_eq!(eff.scope, "repo");
    assert_eq!(eff.output, "human");
    assert!(!eff.write && !eff.diff && !eff.check);
    assert!(eff.strict_linebreak);
    let mut cfg = empty_cfg();
    cfg.index = Some("cfg/index.toml".to_string());
    cfg.format = Some(FormatCfg { write: Some(true), diff: None, check: None, strict_linebreak: Some(false), linebreak: None });
    let eff = resolve_effective("/r".to_string(), Some(cfg), Some("cli/index.toml"), Some("lib"), None, Some(false), None, None);
    assert_eq!(eff.index, "cli/index.toml");
    assert_eq!(eff.scope, "lib");
    assert!(!eff.write);
    assert!(!eff.strict_linebreak);
    assert!(!effective_write(true, true, false));
    assert!(effective_write(true, false, false));
}

#[test]
fn repo_root_is_first_marked_ancestor() {
    let anc = vec!["/a/b".to_string(), "/a".to_string(), "/".to_string()];
    assert_eq!(detect_repo_root(&anc, &vec![false, true, true]), "/a");
    assert_eq!(detect_repo_root(&anc, &vec![false, false, false]), "/a/b");
}

fn issue(file: &str, sev: &str, msg: &str) -> Issue {
    Issue { file: file.into(), rule: "r".into(), severity: sev.into(), path: "$".into(), message: msg.into() }
}

#[test]
fn summary_counts_by_severity() {
    let v = vec![issue("a", "error", "m"), issue("a", "warning", "m"), issue("a", "warn", "m"), issue("a", "info", "m")];
    let s = summarize(&v, 4);
    assert_eq!((s.errors, s.warnings, s.infos, s.files), (1, 1, 2, 4));
}

#[test]
fn issues_sorted_by_file_then_message() {
    let v = vec![issue("b", "error", "x"), issue("a", "error", "z"), issue("a", "error", "y")];
    let out = sort_issues(v);
    let got: Vec<(String, String)> = out.iter().map(|i| (i.file.clone(), i.message.clone())).collect();
    assert_eq!(got, vec![("a".into(), "y".into()), ("a".into(), "z".into()), ("b".into(), "x".into())]);
}

#[test]
fn order_conformance() {
    let ord = OrderSpec { top: vec![vec!["name".to_string()]], sub: Vec::new(), message: None, level: None };
    let good = Json::Object(vec![("name".into(), Json::Null), ("a".into(), Json::Null), ("b".into(), Json::Null)]);
    let bad = Json::Object(vec![("a".into(), Json::Null), ("name".into(), Json::Null)]);
    assert!(order_conforms(&good, &ord));
    assert!(!order_conforms(&bad, &ord));
    assert!(order_conforms(&Json::Null, &ord));
}

#[test]
fn order_issue_defaults_and_overrides() {
    let bad = Json::Object(vec![("a".into(), Json::Null), ("name".into(), Json::Null)]);
    let mut ord = OrderSpec { top: vec![vec!["name".to_string()]], sub: Vec::new(), message: None, level: None };
    let i = order_issue(&bad, &ord, "f.json", "r1").unwrap();
    assert_eq!((i.severity.as_str(), i.path.as_str(), i.message.as_str()), ("error", "$", "Object key order does not match policy"));
    ord.level = Some("warn".into());
    ord.message = Some("keys out of order".into());
    let i = order_issue(&bad, &ord, "f.json", "r1").unwrap();
    assert_eq!((i.severity.as_str(), i.message.as_str()), ("warn", "keys out of order"));
    let good = Json::Object(vec![("name".into(), Json::Null), ("a".into(), Json::Null)]);
    assert!(order_issue(&good, &ord, "f.json", "r1").is_none());
}

#[test]
fn drift_issue_shape() {
    let mut rule = SyncRule { id: "tsconfig".into(), source: "s".into(), target: "t".into(), when: "*".into(), format: None, level: None, message: None };
    let i = drift_issue("/r/out.json", &rule);
    assert_eq!(i.rule, "sync:tsconfig");
    assert_eq!(i.severity, "info");
    assert_eq!(i.file, "/r/out.json");
    assert_eq!(i.message, "Not synced yet. Please run rigra sync.");
    rule.level = Some("warning".into());
    rule.message = Some("run sync".into());
    let i = drift_issue("/r/out.json", &rule);
    assert_eq!((i.severity.as_str(), i.message.as_str()), ("warning", "run sync"));
}

#[test]
fn order_conformance_follows_sub_orders() {
    let ord = OrderSpec { top: Vec::new(), sub: vec![("meta".to_string(), vec!["version".to_string()])], message: None, level: None };
    let doc = Json::Object(vec![("a".into(), Json::Null), ("version".into(), Json::Null)]);
    assert!(!order_conforms(&doc, &ord));
    assert!(order_issue(&doc, &ord, "f.json", "r").is_some());
    let good = Json::Object(vec![("version".into(), Json::Null), ("a".into(), Json::Null)]);
    assert!(order_conforms(&good, &ord));
}

#[test]
fn key_declared_twice_can_conform() {
    let ord = OrderSpec { top: vec![vec!["name".to_string()], vec!["name".to_string(), "x".to_string()]], sub: Vec::new(), message: None, level: None };
    let doc = Json::Object(vec![("name".into(), Json::Null), ("x".into(), Json::Null)]);
    assert!(order_conforms(&doc, &ord));
}

#[test]
fn index_and_policy_failures() {
    let r = missing_index_result("/r/idx.toml");
    assert_eq!(r.issues.len(), 1);
    assert_eq!(r.issues[0].rule, "load-index");
    assert_eq!(r.issues[0].message, "Index file not found. Looked at '/r/idx.toml'. Pass --index or add rigra.{toml,yaml}.");
    assert_eq!(r.summary.errors, 1);
    let r = invalid_index_result("/r/idx.toml");
    assert_eq!(r.issues[0].rule, "parse-index");
    assert_eq!(r.issues[0].message, "Index file is not valid TOML");
    let i = missing_policy_issue("/r/p.toml", "pkg");
    assert_eq!(i.message, "Policy file not found for rule 'pkg': /r/p.toml");
    assert_eq!(i.severity, "error");
    assert_eq!(invalid_policy_issue("/r/p.toml", "pkg").message, "Policy file is not valid TOML");
}
