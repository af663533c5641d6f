//! Predicate checks on documents, each finding reported as an issue.
use vstd::prelude::*;
use crate::config::str_or;
use crate::json::{json_eq, lemma_items_model, same, JModel, Json};
use crate::models::Issue;
use crate::path::{get_path, path_segments};
use crate::sync::{decimal, decimal_exec};
use crate::text::{append_str, chars_of, str_eq, string_of};
use crate::json::get_in;

verus! {

/// A predicate on a document, with its message and severity (`error` when
/// none is given).
pub enum Check {
    /// Each field must exist.
    Required { fields: Vec<String>, message: Option<String>, level: Option<String> },
    /// Each field, where present, must be of its kind: `string`, `number`,
    /// `integer`, `boolean`, `array`, `object` or `null`.
    Type { fields: Vec<(String, String)>, message: Option<String>, level: Option<String> },
    /// The field must equal the value.
    Const { field: String, value: Json, message: Option<String>, level: Option<String> },
    /// The field must equal one of the values.
    Enum { field: String, values: Vec<Json>, message: Option<String>, level: Option<String> },
    /// The field, where a string or an array, must be at least this long.
    MinLength { field: String, min: usize, message: Option<String>, level: Option<String> },
    /// The field, where a string or an array, must be at most this long.
    MaxLength { field: String, max: usize, message: Option<String>, level: Option<String> },
}

/// An issue as sequences: file, rule, severity, path and message.
pub type IssueView = (Seq<char>, Seq<char>, Seq<char>, Seq<char>, Seq<char>);

pub open spec fn issue_view(i: Issue) -> IssueView {
    (i.file@, i.rule@, i.severity@, i.path@, i.message@)
}

pub open spec fn issues_view(v: Seq<Issue>) -> Seq<IssueView> {
    v.map_values(|i: Issue| issue_view(i))
}

/// The path of a field as reported: as given when it starts with `$`, else
/// under `$.`.
pub open spec fn report_path(f: Seq<char>) -> Seq<char> {
    if f.len() > 0 && f[0] == '$' {
        f
    } else {
        "$."@ + f
    }
}

/// The kind of a value.
pub open spec fn kind_of(v: JModel) -> Seq<char> {
    match v {
        JModel::Null => "null"@,
        JModel::Bool(_) => "boolean"@,
        JModel::Number(_) => "number"@,
        JModel::Str(_) => "string"@,
        JModel::Array(_) => "array"@,
        JModel::Object(_) => "object"@,
    }
}

/// Whether a value is of the expected kind; `integer` takes numbers written
/// without a fraction or an exponent.
pub open spec fn kind_matches(expected: Seq<char>, v: JModel) -> bool {
    expected == kind_of(v) || (expected == "integer"@ && match v {
        JModel::Number(t) => !t.contains('.') && !t.contains('e') && !t.contains('E'),
        _ => false,
    })
}

/// `'f'` quoted in a message.
pub open spec fn quoted(f: Seq<char>) -> Seq<char> {
    "Field '"@ + f + "'"@
}

/// Issues of the first `n` required fields that are missing.
pub open spec fn required_issues(doc: JModel, fields: Seq<String>, msg: Option<String>, sev: Seq<char>, file: Seq<char>, rule: Seq<char>, n: nat) -> Seq<IssueView>
    decreases n,
{
    if n == 0 || n > fields.len() {
        Seq::empty()
    } else {
        let r = required_issues(doc, fields, msg, sev, file, rule, (n - 1) as nat);
        let f = fields[n - 1]@;
        if get_in(doc, path_segments(f)) is None {
            r.push((file, rule, sev, report_path(f), str_or(msg, quoted(f) + " is required"@)))
        } else {
            r
        }
    }
}

/// Issues of the first `n` typed fields present with another kind.
pub open spec fn type_issues(doc: JModel, fields: Seq<(String, String)>, msg: Option<String>, sev: Seq<char>, file: Seq<char>, rule: Seq<char>, n: nat) -> Seq<IssueView>
    decreases n,
{
    if n == 0 || n > fields.len() {
        Seq::empty()
    } else {
        let r = type_issues(doc, fields, msg, sev, file, rule, (n - 1) as nat);
        let f = fields[n - 1].0@;
        match get_in(doc, path_segments(f)) {
            Some(v) => if kind_matches(fields[n - 1].1@, v) {
                r
            } else {
                r.push((file, rule, sev, report_path(f), str_or(msg, "Type mismatch at "@ + report_path(f) + ", got "@ + kind_of(v))))
            },
            None => r,
        }
    }
}

/// Whether `v` is the same as one of the values.
pub open spec fn one_of(v: JModel, values: Seq<Json>) -> bool {
    exists|j: int| 0 <= j < values.len() && same(v, (#[trigger] values[j]).model())
}

/// The length a length bound applies to: characters of a string, items of an array.
pub open spec fn length_of(v: Option<JModel>) -> Option<nat> {
    match v {
        Some(JModel::Str(s)) => Some(s.len()),
        Some(JModel::Array(xs)) => Some(xs.len()),
        _ => None,
    }
}

/// The issues one check yields on a document.
pub open spec fn check_spec(c: Check, doc: JModel, file: Seq<char>, rule: Seq<char>) -> Seq<IssueView> {
    match c {
        Check::Required { fields, message, level } => required_issues(doc, fields@, message, str_or(level, "error"@), file, rule, fields@.len()),
        Check::Type { fields, message, level } => type_issues(doc, fields@, message, str_or(level, "error"@), file, rule, fields@.len()),
        Check::Const { field, value, message, level } => {
            let ok = match get_in(doc, path_segments(field@)) {
                Some(v) => same(v, value.model()),
                None => false,
            };
            if ok {
                Seq::empty()
            } else {
                seq![(file, rule, str_or(level, "error"@), report_path(field@), str_or(message, quoted(field@) + " must equal the expected value"@))]
            }
        },
        Check::Enum { field, values, message, level } => {
            let ok = match get_in(doc, path_segments(field@)) {
                Some(v) => one_of(v, values@),
                None => false,
            };
            if ok {
                Seq::empty()
            } else {
                seq![(file, rule, str_or(level, "error"@), report_path(field@), str_or(message, quoted(field@) + " must be one of the allowed values"@))]
            }
        },
        Check::MinLength { field, min, message, level } => match length_of(get_in(doc, path_segments(field@))) {
            Some(n) => if n < min {
                seq![(file, rule, str_or(level, "error"@), report_path(field@), str_or(message, quoted(field@) + " is shorter than "@ + decimal(min as nat)))]
            } else {
                Seq::empty()
            },
            None => Seq::empty(),
        },
        Check::MaxLength { field, max, message, level } => match length_of(get_in(doc, path_segments(field@))) {
            Some(n) => if n > max {
                seq![(file, rule, str_or(level, "error"@), report_path(field@), str_or(message, quoted(field@) + " is longer than "@ + decimal(max as nat)))]
            } else {
                Seq::empty()
            },
            None => Seq::empty(),
        },
    }
}

/// The issues of the first `n` checks, in order.
pub open spec fn checks_spec(cs: Seq<Check>, doc: JModel, file: Seq<char>, rule: Seq<char>, n: nat) -> Seq<IssueView>
    decreases n,
{
    if n == 0 || n > cs.len() {
        Seq::empty()
    } else {
        checks_spec(cs, doc, file, rule, (n - 1) as nat) + check_spec(cs[n - 1], doc, file, rule)
    }
}

fn text_or(o: &Option<String>, d: String) -> (r: String)
    ensures
        r@ == str_or(*o, d@),
{
    match o {
        Some(s) => s.clone(),
        None => d,
    }
}

fn report_path_exec(f: &String) -> (r: String)
    ensures
        r@ == report_path(f@),
{
    let c = chars_of(f.as_str());
    if c.len() > 0 && c[0] == '$' {
        f.clone()
    } else {
        let mut v: Vec<char> = Vec::new();
        append_str(&mut v, "$.");
        append_str(&mut v, f.as_str());
        string_of(&v)
    }
}

fn field_message(f: &String, tail: &str) -> (r: String)
    ensures
        r@ == quoted(f@) + tail@,
{
    let mut v: Vec<char> = Vec::new();
    append_str(&mut v, "Field '");
    append_str(&mut v, f.as_str());
    append_str(&mut v, "'");
    append_str(&mut v, tail);
    proof {
        assert(v@ =~= quoted(f@) + tail@);
    }
    string_of(&v)
}

fn kind_exec(v: &Json) -> (r: String)
    ensures
        r@ == kind_of(v.model()),
{
    match v {
        Json::Null => "null".to_string(),
        Json::Bool(_) => "boolean".to_string(),
        Json::Number(_) => "number".to_string(),
        Json::Str(_) => "string".to_string(),
        Json::Array(_) => "array".to_string(),
        Json::Object(_) => "object".to_string(),
    }
}

fn kind_matches_exec(expected: &String, v: &Json) -> (r: bool)
    ensures
        r == kind_matches(expected@, v.model()),
{
    let k = kind_exec(v);
    if str_eq(expected.as_str(), k.as_str()) {
        return true;
    }
    if !str_eq(expected.as_str(), "integer") {
        return false;
    }
    match v {
        Json::Number(t) => {
            let c = chars_of(t.as_str());
            !crate::text::has_char(&c, '.') && !crate::text::has_char(&c, 'e') && !crate::text::has_char(&c, 'E')
        },
        _ => false,
    }
}

fn push_issue(out: &mut Vec<Issue>, file: &str, rule: &str, sev: &String, path: String, message: String)
    ensures
        issues_view(final(out)@) == issues_view(old(out)@).push((file@, rule@, sev@, path@, message@)),
{
    let i = Issue { file: file.to_string(), rule: rule.to_string(), severity: sev.clone(), path, message };
    let ghost o = out@;
    out.push(i);
    proof {
        assert(issues_view(out@) =~= issues_view(o).push(issue_view(i)));
    }
}

/// Appends the issues one check yields on a document.
pub fn check_issues(c: &Check, doc: &Json, file: &str, rule: &str, out: &mut Vec<Issue>)
    ensures
        issues_view(final(out)@) == issues_view(old(out)@) + check_spec(*c, doc.model(), file@, rule@),
{
    let ghost o0 = issues_view(out@);
    match c {
        Check::Required { fields, message, level } => {
            let sev = text_or(level, "error".to_string());
            let mut i: usize = 0;
            proof {
                assert(o0 + required_issues(doc.model(), fields@, *message, sev@, file@, rule@, 0) =~= o0);
            }
            while i < fields.len()
                invariant
                    i <= fields@.len(),
                    issues_view(out@) == o0 + required_issues(doc.model(), fields@, *message, sev@, file@, rule@, i as nat),
                decreases fields.len() - i,
            {
                let f = &fields[i];
                if get_path(doc, f.as_str()).is_none() {
                    let m = text_or(message, field_message(f, " is required"));
                    push_issue(out, file, rule, &sev, report_path_exec(f), m);
                }
                proof {
                    let a = required_issues(doc.model(), fields@, *message, sev@, file@, rule@, i as nat);
                    let b = required_issues(doc.model(), fields@, *message, sev@, file@, rule@, (i + 1) as nat);
                    if b != a {
                        assert(o0 + b =~= (o0 + a).push(b.last()));
                    }
                }
                i += 1;
            }
        },
        Check::Type { fields, message, level } => {
            let sev = text_or(level, "error".to_string());
            let mut i: usize = 0;
            proof {
                assert(o0 + type_issues(doc.model(), fields@, *message, sev@, file@, rule@, 0) =~= o0);
            }
            while i < fields.len()
                invariant
                    i <= fields@.len(),
                    issues_view(out@) == o0 + type_issues(doc.model(), fields@, *message, sev@, file@, rule@, i as nat),
                decreases fields.len() - i,
            {
                let f = &fields[i].0;
                match get_path(doc, f.as_str()) {
                    Some(v) => {
                        if !kind_matches_exec(&fields[i].1, v) {
                            let mut d: Vec<char> = Vec::new();
                            append_str(&mut d, "Type mismatch at ");
                            let rp = report_path_exec(f);
                            append_str(&mut d, rp.as_str());
                            append_str(&mut d, ", got ");
                            let k = kind_exec(v);
                            append_str(&mut d, k.as_str());
                            let m = text_or(message, string_of(&d));
                            push_issue(out, file, rule, &sev, report_path_exec(f), m);
                        }
                    },
                    None => {},
                }
                proof {
                    let a = type_issues(doc.model(), fields@, *message, sev@, file@, rule@, i as nat);
                    let b = type_issues(doc.model(), fields@, *message, sev@, file@, rule@, (i + 1) as nat);
                    if b != a {
                        assert(o0 + b =~= (o0 + a).push(b.last()));
                    }
                }
                i += 1;
            }
        },
        Check::Const { field, value, message, level } => {
            let ok = match get_path(doc, field.as_str()) {
                Some(v) => json_eq(v, value),
                None => false,
            };
            if !ok {
                let sev = text_or(level, "error".to_string());
                let m = text_or(message, field_message(field, " must equal the expected value"));
                push_issue(out, file, rule, &sev, report_path_exec(field), m);
                proof {
                    assert(issues_view(out@) =~= o0 + check_spec(*c, doc.model(), file@, rule@));
                }
            } else {
                proof {
                    assert(issues_view(out@) =~= o0 + check_spec(*c, doc.model(), file@, rule@));
                }
            }
        },
        Check::Enum { field, values, message, level } => {
            let mut ok = false;
            match get_path(doc, field.as_str()) {
                Some(v) => {
                    let mut j: usize = 0;
                    while j < values.len()
                        invariant
                            j <= values@.len(),
                            ok == exists|q: int| 0 <= q < j && same(v.model(), (#[trigger] values@[q]).model()),
                        decreases values.len() - j,
                    {
                        let e = json_eq(v, &values[j]);
                        proof {
                            if e {
                                assert(0 <= j < j + 1 && same(v.model(), values@[j as int].model()));
                            } else if !ok {
                                assert forall|q: int| 0 <= q < j + 1 implies !same(v.model(), (#[trigger] values@[q]).model()) by {
                                    if q < j {
                                        assert(!(0 <= q < j && same(v.model(), values@[q].model())));
                                    }
                                }
                            }
                        }
                        ok = ok || e;
                        j += 1;
                    }
                },
                None => {},
            }
            if !ok {
                let sev = text_or(level, "error".to_string());
                let m = text_or(message, field_message(field, " must be one of the allowed values"));
                push_issue(out, file, rule, &sev, report_path_exec(field), m);
                proof {
                    assert(issues_view(out@) =~= o0 + check_spec(*c, doc.model(), file@, rule@));
                }
            } else {
                proof {
                    assert(issues_view(out@) =~= o0 + check_spec(*c, doc.model(), file@, rule@));
                }
            }
        },
        Check::MinLength { field, min, message, level } => {
            let len: Option<usize> = match get_path(doc, field.as_str()) {
                Some(Json::Str(s)) => Some(chars_of(s.as_str()).len()),
                Some(Json::Array(xs)) => {
                    proof {
                        lemma_items_model(xs@, xs@.len());
                    }
                    Some(xs.len())
                },
                _ => None,
            };
            match len {
                Some(n) => {
                    if n < *min {
                        let sev = text_or(level, "error".to_string());
                        let d = decimal_exec(*min as u64);
                        let mut t: Vec<char> = Vec::new();
                        append_str(&mut t, " is shorter than ");
                        let ds = string_of(&d);
                        append_str(&mut t, ds.as_str());
                        let ts = string_of(&t);
                        let m = text_or(message, field_message(field, ts.as_str()));
                        push_issue(out, file, rule, &sev, report_path_exec(field), m);
                        proof {
                            assert(quoted(field@) + ts@ =~= quoted(field@) + " is shorter than "@ + decimal(*min as nat));
                            assert(issues_view(out@) =~= o0 + check_spec(*c, doc.model(), file@, rule@));
                        }
                    } else {
                        proof {
                            assert(issues_view(out@) =~= o0 + check_spec(*c, doc.model(), file@, rule@));
                        }
                    }
                },
                None => {
                    proof {
                        assert(issues_view(out@) =~= o0 + check_spec(*c, doc.model(), file@, rule@));
                    }
                },
            }
        },
        Check::MaxLength { field, max, message, level } => {
            let len: Option<usize> = match get_path(doc, field.as_str()) {
                Some(Json::Str(s)) => Some(chars_of(s.as_str()).len()),
                Some(Json::Array(xs)) => {
                    proof {
                        lemma_items_model(xs@, xs@.len());
                    }
                    Some(xs.len())
                },
                _ => None,
            };
            match len {
                Some(n) => {
                    if n > *max {
                        let sev = text_or(level, "error".to_string());
                        let d = decimal_exec(*max as u64);
                        let mut t: Vec<char> = Vec::new();
                        append_str(&mut t, " is longer than ");
                        let ds = string_of(&d);
                        append_str(&mut t, ds.as_str());
                        let ts = string_of(&t);
                        let m = text_or(message, field_message(field, ts.as_str()));
                        push_issue(out, file, rule, &sev, report_path_exec(field), m);
                        proof {
                            assert(quoted(field@) + ts@ =~= quoted(field@) + " is longer than "@ + decimal(*max as nat));
                            assert(issues_view(out@) =~= o0 + check_spec(*c, doc.model(), file@, rule@));
                        }
                    } else {
                        proof {
                            assert(issues_view(out@) =~= o0 + check_spec(*c, doc.model(), file@, rule@));
                        }
                    }
                },
                None => {
                    proof {
                        assert(issues_view(out@) =~= o0 + check_spec(*c, doc.model(), file@, rule@));
                    }
                },
            }
        },
    }
}

/// The issues of all checks on a document, in declaration order.
pub fn run_checks(checks: &Vec<Check>, doc: &Json, file: &str, rule: &str) -> (r: Vec<Issue>)
    ensures
        issues_view(r@) == checks_spec(checks@, doc.model(), file@, rule@, checks@.len()),
{
    let mut out: Vec<Issue> = Vec::new();
    let mut i: usize = 0;
    proof {
        assert(issues_view(out@) =~= Seq::empty());
    }
    while i < checks.len()
        invariant
            i <= checks@.len(),
            issues_view(out@) == checks_spec(checks@, doc.model(), file@, rule@, i as nat),
        decreases checks.len() - i,
    {
        check_issues(&checks[i], doc, file, rule, &mut out);
        i += 1;
    }
    out
}

} // verus!
