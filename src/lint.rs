//! Lint core: key-order conformance, severity counts and issue ordering.
use vstd::prelude::*;
use crate::json::{emodel, seg_model, JModel, Json};
use crate::config::str_or;
use crate::models::{Issue, LintResult, OrderSpec, Summary, SyncRule};
use crate::text::{append_str, string_of};
use crate::order::{apply_order_from, entry_keys, group_keys, key_less, key_lt, keys_of, normalized};
use crate::text::str_eq;

verus! {

/// Whether an object's keys already stand in the order that normalization by
/// the policy (top groups, then sub-orders, then the rest sorted) gives;
/// values other than objects always conform.
pub open spec fn conforms(doc: JModel, top: Seq<Vec<String>>, sub: Seq<(String, Vec<String>)>) -> bool {
    match doc {
        JModel::Object(m) => keys_of(normalized(m, group_keys(top, sub))) == keys_of(m),
        _ => true,
    }
}

fn same_keys(a: &Vec<String>, b: &Vec<String>) -> (r: bool)
    ensures
        r == (seg_model(a@) == seg_model(b@)),
{
    if a.len() != b.len() {
        return false;
    }
    let mut q: usize = 0;
    while q < a.len()
        invariant
            q <= a@.len(),
            a@.len() == b@.len(),
            forall|z: int| 0 <= z < q ==> seg_model(a@)[z] == seg_model(b@)[z],
        decreases a.len() - q,
    {
        if !str_eq(a[q].as_str(), b[q].as_str()) {
            proof {
                assert(seg_model(a@)[q as int] != seg_model(b@)[q as int]);
            }
            return false;
        }
        q += 1;
    }
    proof {
        assert(seg_model(a@) =~= seg_model(b@));
    }
    true
}

/// Whether the object's key order conforms to the policy's order.
pub fn order_conforms(json: &Json, order: &OrderSpec) -> (r: bool)
    ensures
        r == conforms(json.model(), order.top@, order.sub@),
{
    match json {
        Json::Object(m) => {
            let mut copy = json.deep_clone();
            let ghost before = copy;
            proof {
                match before {
                    Json::Object(c) => {
                        assert(emodel(c@) == emodel(m@));
                    },
                    _ => {
                        assert(false);
                    },
                }
            }
            let _ = apply_order_from(&mut copy, &order.top, &order.sub);
            match &copy {
                Json::Object(n) => {
                    let kn = entry_keys(n);
                    let km = entry_keys(m);
                    same_keys(&kn, &km)
                },
                _ => false,
            }
        },
        _ => true,
    }
}

/// The severity class used by the counts: 0 error, 1 warning, 2 other.
pub open spec fn count_class(sev: Seq<char>) -> int {
    if sev == "error"@ {
        0
    } else if sev == "warning"@ {
        1
    } else {
        2
    }
}

/// The number of the first `n` issues in a class.
pub open spec fn count_of(issues: Seq<Issue>, class: int, n: nat) -> nat
    decreases n,
{
    if n == 0 || n > issues.len() {
        0
    } else {
        count_of(issues, class, (n - 1) as nat) + if count_class(issues[n - 1].severity@) == class {
            1nat
        } else {
            0nat
        }
    }
}

proof fn lemma_count_le(issues: Seq<Issue>, class: int, n: nat)
    requires
        n <= issues.len(),
    ensures
        count_of(issues, class, n) <= n,
    decreases n,
{
    if n > 0 {
        lemma_count_le(issues, class, (n - 1) as nat);
    }
}

/// Counts issues by severity: `error`, `warning`, and all others as infos.
pub fn summarize(issues: &Vec<Issue>, files: usize) -> (r: Summary)
    ensures
        r.errors == count_of(issues@, 0, issues@.len()),
        r.warnings == count_of(issues@, 1, issues@.len()),
        r.infos == count_of(issues@, 2, issues@.len()),
        r.files == files,
{
    let mut errors: usize = 0;
    let mut warnings: usize = 0;
    let mut infos: usize = 0;
    let mut i: usize = 0;
    while i < issues.len()
        invariant
            i <= issues@.len(),
            errors == count_of(issues@, 0, i as nat),
            warnings == count_of(issues@, 1, i as nat),
            infos == count_of(issues@, 2, i as nat),
        decreases issues.len() - i,
    {
        proof {
            lemma_count_le(issues@, 0, i as nat);
            lemma_count_le(issues@, 1, i as nat);
            lemma_count_le(issues@, 2, i as nat);
        }
        let sev = issues[i].severity.as_str();
        if str_eq(sev, "error") {
            errors += 1;
        } else if str_eq(sev, "warning") {
            warnings += 1;
        } else {
            infos += 1;
        }
        i += 1;
    }
    Summary { errors, warnings, infos, files }
}

/// Whether issue `a` sorts before `b`: by file, then by message.
pub open spec fn issue_lt(a: Issue, b: Issue) -> bool {
    key_lt(a.file@, b.file@) || (a.file@ == b.file@ && key_lt(a.message@, b.message@))
}

/// `x` placed before the first issue of `s` that sorts after it.
pub open spec fn insert_issue(s: Seq<Issue>, x: Issue) -> Seq<Issue>
    decreases s.len(),
{
    if s.len() == 0 {
        seq![x]
    } else if issue_lt(x, s[0]) {
        seq![x] + s
    } else {
        seq![s[0]] + insert_issue(s.drop_first(), x)
    }
}

/// The issues in order of file, then message; equal ones keep their order.
pub open spec fn sorted_issues(s: Seq<Issue>) -> Seq<Issue>
    decreases s.len(),
{
    if s.len() == 0 {
        Seq::empty()
    } else {
        insert_issue(sorted_issues(s.drop_last()), s.last())
    }
}

proof fn lemma_insert_issue_at(s: Seq<Issue>, x: Issue, p: int)
    requires
        0 <= p <= s.len(),
        forall|q: int| 0 <= q < p ==> !issue_lt(x, #[trigger] s[q]),
        p < s.len() ==> issue_lt(x, s[p]),
    ensures
        insert_issue(s, x) == s.insert(p, x),
    decreases s.len(),
{
    if s.len() == 0 {
        assert(seq![x] =~= s.insert(p, x));
    } else if p == 0 {
        assert(seq![x] + s =~= s.insert(p, x));
    } else {
        let t = s.drop_first();
        assert forall|q: int| 0 <= q < p - 1 implies !issue_lt(x, #[trigger] t[q]) by {
            assert(t[q] == s[q + 1]);
        }
        lemma_insert_issue_at(t, x, p - 1);
        assert(seq![s[0]] + t.insert(p - 1, x) =~= s.insert(p, x));
    }
}

fn issue_less(a: &Issue, b: &Issue) -> (r: bool)
    ensures
        r == issue_lt(*a, *b),
{
    key_less(&a.file, &b.file) || (str_eq(a.file.as_str(), b.file.as_str()) && key_less(&a.message, &b.message))
}

/// Orders issues by file, then message, so that results do not depend on the
/// order in which documents were processed.
pub fn sort_issues(v: Vec<Issue>) -> (r: Vec<Issue>)
    ensures
        r@ == sorted_issues(v@),
{
    let mut src = v;
    let ghost all = src@;
    let total = src.len();
    let mut out: Vec<Issue> = Vec::new();
    let mut taken: usize = 0;
    while src.len() > 0
        invariant
            taken + src@.len() == all.len(),
            all.len() == total,
            src@ == all.subrange(taken as int, all.len() as int),
            out@ == sorted_issues(all.subrange(0, taken as int)),
        decreases src.len(),
    {
        let x = src.remove(0);
        let mut p: usize = 0;
        while p < out.len() && !issue_less(&x, &out[p])
            invariant
                p <= out@.len(),
                forall|q: int| 0 <= q < p ==> !issue_lt(x, #[trigger] out@[q]),
            decreases out.len() - p,
        {
            p += 1;
        }
        proof {
            lemma_insert_issue_at(out@, x, p as int);
            let w = all.subrange(0, taken + 1);
            assert(w.drop_last() =~= all.subrange(0, taken as int));
            assert(w.last() == x);
        }
        out.insert(p, x);
        taken += 1;
        proof {
            assert(src@ =~= all.subrange(taken as int, all.len() as int));
        }
    }
    proof {
        assert(all.subrange(0, taken as int) =~= all);
    }
    out
}


/// The issue of a document whose key order does not conform, if any: the
/// policy's level (default `error`) and message (default `Object key order
/// does not match policy`), at `$`.
pub fn order_issue(doc: &Json, order: &OrderSpec, file: &str, rule: &str) -> (r: Option<Issue>)
    ensures
        match r {
            Some(i) => !conforms(doc.model(), order.top@, order.sub@) && i.file@ == file@ && i.rule@ == rule@
                && i.severity@ == str_or(order.level, "error"@) && i.path@ == "$"@
                && i.message@ == str_or(order.message, "Object key order does not match policy"@),
            None => conforms(doc.model(), order.top@, order.sub@),
        },
{
    if order_conforms(doc, order) {
        return None;
    }
    let severity = match &order.level {
        Some(l) => l.clone(),
        None => "error".to_string(),
    };
    let message = match &order.message {
        Some(m) => m.clone(),
        None => "Object key order does not match policy".to_string(),
    };
    Some(Issue { file: file.to_string(), rule: rule.to_string(), severity, path: "$".to_string(), message })
}

/// The issue of a sync target not yet in sync: rule `sync:<id>`, at `$`, with
/// the rule's level (default `info`) and message (default `Not synced yet.
/// Please run rigra sync.`).
pub fn drift_issue(target: &str, rule: &SyncRule) -> (r: Issue)
    ensures
        r.file@ == target@,
        r.rule@ == "sync:"@ + rule.id@,
        r.severity@ == str_or(rule.level, "info"@),
        r.path@ == "$"@,
        r.message@ == str_or(rule.message, "Not synced yet. Please run rigra sync."@),
{
    let mut v: Vec<char> = Vec::new();
    append_str(&mut v, "sync:");
    append_str(&mut v, rule.id.as_str());
    let severity = match &rule.level {
        Some(l) => l.clone(),
        None => "info".to_string(),
    };
    let message = match &rule.message {
        Some(m) => m.clone(),
        None => "Not synced yet. Please run rigra sync.".to_string(),
    };
    Issue { file: target.to_string(), rule: string_of(&v), severity, path: "$".to_string(), message }
}

/// The result of a run whose index cannot be used: one `error` issue at `$`
/// on the index file, and an error count of one.
pub open spec fn index_failure_spec(r: LintResult, file: Seq<char>, rule: Seq<char>, message: Seq<char>) -> bool {
    &&& r.issues@.len() == 1
    &&& r.issues@[0].file@ == file
    &&& r.issues@[0].rule@ == rule
    &&& r.issues@[0].severity@ == "error"@
    &&& r.issues@[0].path@ == "$"@
    &&& r.issues@[0].message@ == message
    &&& r.summary.errors == 1 && r.summary.warnings == 0 && r.summary.infos == 0 && r.summary.files == 0
}

fn single_error(file: &str, rule: &str, message: String) -> (r: LintResult)
    ensures
        index_failure_spec(r, file@, rule@, message@),
{
    let i = Issue { file: file.to_string(), rule: rule.to_string(), severity: "error".to_string(), path: "$".to_string(), message };
    let mut issues: Vec<Issue> = Vec::new();
    issues.push(i);
    LintResult { issues, summary: Summary { errors: 1, warnings: 0, infos: 0, files: 0 } }
}

/// The result when the index file is missing: rule `load-index`.
pub fn missing_index_result(idx_path: &str) -> (r: LintResult)
    ensures
        index_failure_spec(r, idx_path@, "load-index"@,
            "Index file not found. Looked at '"@ + idx_path@ + "'. Pass --index or add rigra.{toml,yaml}."@),
{
    let mut v: Vec<char> = Vec::new();
    append_str(&mut v, "Index file not found. Looked at '");
    append_str(&mut v, idx_path);
    append_str(&mut v, "'. Pass --index or add rigra.{toml,yaml}.");
    single_error(idx_path, "load-index", string_of(&v))
}

/// The result when the index file does not parse: rule `parse-index`.
pub fn invalid_index_result(idx_path: &str) -> (r: LintResult)
    ensures
        index_failure_spec(r, idx_path@, "parse-index"@, "Index file is not valid TOML"@),
{
    single_error(idx_path, "parse-index", "Index file is not valid TOML".to_string())
}

/// The issue of a rule whose policy file is missing: `error` at `$` on the
/// policy path.
pub fn missing_policy_issue(pol_path: &str, rule_id: &str) -> (r: Issue)
    ensures
        r.file@ == pol_path@,
        r.rule@ == rule_id@,
        r.severity@ == "error"@,
        r.path@ == "$"@,
        r.message@ == "Policy file not found for rule '"@ + rule_id@ + "': "@ + pol_path@,
{
    let mut v: Vec<char> = Vec::new();
    append_str(&mut v, "Policy file not found for rule '");
    append_str(&mut v, rule_id);
    append_str(&mut v, "': ");
    append_str(&mut v, pol_path);
    Issue { file: pol_path.to_string(), rule: rule_id.to_string(), severity: "error".to_string(), path: "$".to_string(), message: string_of(&v) }
}

/// The issue of a rule whose policy file does not parse: `error` at `$` on the
/// policy path.
pub fn invalid_policy_issue(pol_path: &str, rule_id: &str) -> (r: Issue)
    ensures
        r.file@ == pol_path@,
        r.rule@ == rule_id@,
        r.severity@ == "error"@,
        r.path@ == "$"@,
        r.message@ == "Policy file is not valid TOML"@,
{
    Issue {
        file: pol_path.to_string(),
        rule: rule_id.to_string(),
        severity: "error".to_string(),
        path: "$".to_string(),
        message: "Policy file is not valid TOML".to_string(),
    }
}

} // verus!
