use rigra::models::{Issue, LintResult, Summary};
use rigra::output::compose_lint_grouped_lines;

fn issue(file: &str, rule: &str, severity: &str, path: &str, message: &str) -> Issue {
    Issue {
        file: file.into(),
        rule: rule.into(),
        severity: severity.into(),
        path: path.into(),
        message: message.into(),
    }
}

#[test]
fn test_compose_lint_grouped_lines_headers_and_basenames() {
    let res = LintResult {
        issues: vec![
            issue(
                "conventions/hyperedge/ts-base/package.json",
                "pkgjson-sub",
                "error",
                "$.repository.directory",
                "Field 'repository.directory' is required",
            ),
            issue(
                "conventions/hyperedge/ts-lib-mono/package.json",
                "pkgjson-sub",
                "error",
                "$.author",
                "Author must be in the format 'Name <email> (url)'",
            ),
            issue("package.json", "pkgjson-root", "warn", "$.name", "Type mismatch at $.name, got string"),
        ],
        summary: Summary { errors: 2, warnings: 1, infos: 0, files: 3 },
    };
    let lines = compose_lint_grouped_lines(&res, false);
    assert!(lines.iter().any(|l| l == "conventions/hyperedge/ts-base"));
    assert!(lines.iter().any(|l| l == "conventions/hyperedge/ts-lib-mono"));
    assert!(lines.iter().any(|l| l == "⌂ (root)"));
    assert!(lines
        .iter()
        .any(|l| l.contains(" package.json ❲pkgjson-sub❳ — Field 'repository.directory' is required")));
    assert!(lines
        .iter()
        .any(|l| l.contains(" package.json ❲pkgjson-sub❳ — Author must be in the format")));
    assert!(lines
        .iter()
        .any(|l| l.contains(" package.json ❲pkgjson-root❳ — Type mismatch at $.name")));
}

#[test]
fn grouped_lines_exact_order_and_icons() {
    let res = LintResult {
        issues: vec![
            issue("b/x.json", "r", "info", "$", "m1"),
            issue("a/y.json", "r", "error", "$", "m2"),
            issue("b/z.json", "r", "warning", "$", "m3"),
        ],
        summary: Summary { errors: 1, warnings: 1, infos: 1, files: 3 },
    };
    let lines = compose_lint_grouped_lines(&res, false);
    assert_eq!(
        lines,
        vec![
            "a".to_string(),
            "  \x1b[31m✖\x1b[39m ⟦error⟧ y.json ❲r❳ — m2".to_string(),
            "b".to_string(),
            "  \x1b[34m◆\x1b[39m ⟦info⟧ x.json ❲r❳ — m1".to_string(),
            "  \x1b[33m▲\x1b[39m ⟦warn⟧ z.json ❲r❳ — m3".to_string(),
        ]
    );
}

#[test]
fn grouped_lines_with_color() {
    let res = LintResult {
        issues: vec![issue("d/f.json", "r", "error", "$", "m")],
        summary: Summary { errors: 1, warnings: 0, infos: 0, files: 1 },
    };
    let lines = compose_lint_grouped_lines(&res, true);
    assert_eq!(lines[0], "▣ \x1b[1md\x1b[0m");
    assert_eq!(
        lines[1],
        "  \x1b[31m✖\x1b[39m \x1b[1m\x1b[31m⟦error⟧\x1b[39m\x1b[0m \x1b[1mf.json\x1b[0m ❲r❳ — m"
    );
}

#[test]
fn grouped_lines_empty() {
    let res = LintResult { issues: Vec::new(), summary: Summary { errors: 0, warnings: 0, infos: 0, files: 0 } };
    assert!(compose_lint_grouped_lines(&res, false).is_empty());
}
