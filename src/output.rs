//! Human-readable grouping of lint findings.
use vstd::prelude::*;
use owo_colors::OwoColorize;
use crate::models::{Issue, LintResult};
use crate::order::{sort_keys, sort_strings};
use crate::json::seg_model;
use crate::text::{append_str, chars_of, file_name_of, parent_of, path_file_name, path_parent, string_of, str_eq};

verus! {

/// Relies on owo-colors' `bold`: the text between `ESC[1m` and `ESC[0m`.
#[verifier::external_body]
fn bold(s: &str) -> (r: String)
    ensures
        r@ == "\x1b[1m"@ + s@ + "\x1b[0m"@,
{
    s.bold().to_string()
}

/// Relies on owo-colors' `red`: the text between `ESC[31m` and `ESC[39m`.
#[verifier::external_body]
fn red(s: &str) -> (r: String)
    ensures
        r@ == "\x1b[31m"@ + s@ + "\x1b[39m"@,
{
    s.red().to_string()
}

/// Relies on owo-colors' `yellow`: the text between `ESC[33m` and `ESC[39m`.
#[verifier::external_body]
fn yellow(s: &str) -> (r: String)
    ensures
        r@ == "\x1b[33m"@ + s@ + "\x1b[39m"@,
{
    s.yellow().to_string()
}

/// Relies on owo-colors' `blue`: the text between `ESC[34m` and `ESC[39m`.
#[verifier::external_body]
fn blue(s: &str) -> (r: String)
    ensures
        r@ == "\x1b[34m"@ + s@ + "\x1b[39m"@,
{
    s.blue().to_string()
}

pub open spec fn bold_spec(s: Seq<char>) -> Seq<char> {
    "\x1b[1m"@ + s + "\x1b[0m"@
}

/// The severity class of a finding: 0 error, 1 warning, 2 info.
pub open spec fn sev_class(sev: Seq<char>) -> int {
    if sev == "error"@ {
        0
    } else if sev == "warning"@ || sev == "warn"@ {
        1
    } else {
        2
    }
}

/// The directory header under which a file's findings are listed.
pub open spec fn dir_label(file: Seq<char>) -> Seq<char> {
    match parent_of(file) {
        Some(d) => if d.len() > 0 {
            d
        } else {
            "⌂ (root)"@
        },
        None => "⌂ (root)"@,
    }
}

/// The label of a severity, colored when asked.
pub open spec fn sev_label(sev: Seq<char>, color: bool) -> Seq<char> {
    let c = sev_class(sev);
    if c == 0 {
        if color { bold_spec("\x1b[31m"@ + "⟦error⟧"@ + "\x1b[39m"@) } else { "⟦error⟧"@ }
    } else if c == 1 {
        if color { bold_spec("\x1b[33m"@ + "⟦warn⟧"@ + "\x1b[39m"@) } else { "⟦warn⟧"@ }
    } else {
        if color { bold_spec("\x1b[34m"@ + "⟦info⟧"@ + "\x1b[39m"@) } else { "⟦info⟧"@ }
    }
}

/// The icon of a severity, always colored.
pub open spec fn icon_label(sev: Seq<char>) -> Seq<char> {
    let c = sev_class(sev);
    if c == 0 {
        "\x1b[31m"@ + "✖"@ + "\x1b[39m"@
    } else if c == 1 {
        "\x1b[33m"@ + "▲"@ + "\x1b[39m"@
    } else {
        "\x1b[34m"@ + "◆"@ + "\x1b[39m"@
    }
}

/// The line of one finding: icon, severity, file name, rule and message.
pub open spec fn item_line(is: Issue, color: bool) -> Seq<char> {
    let base = match file_name_of(is.file@) {
        Some(b) => b,
        None => is.file@,
    };
    "  "@ + icon_label(is.severity@) + " "@ + sev_label(is.severity@, color) + " "@ + (if color {
        bold_spec(base)
    } else {
        base
    }) + " ❲"@ + is.rule@ + "❳ — "@ + is.message@
}

/// The header line of a directory.
pub open spec fn header_line(d: Seq<char>, color: bool) -> Seq<char> {
    if color {
        "▣ "@ + bold_spec(d)
    } else {
        d
    }
}

/// The directories of the first `n` findings, each once, in order of first appearance.
pub open spec fn distinct_dirs(issues: Seq<Issue>, n: nat) -> Seq<Seq<char>>
    decreases n,
{
    if n == 0 || n > issues.len() {
        Seq::empty()
    } else {
        let r = distinct_dirs(issues, (n - 1) as nat);
        let d = dir_label(issues[n - 1].file@);
        if r.contains(d) {
            r
        } else {
            r.push(d)
        }
    }
}

/// The lines of the first `n` findings that lie in directory `d`.
pub open spec fn items_in(issues: Seq<Issue>, d: Seq<char>, color: bool, n: nat) -> Seq<Seq<char>>
    decreases n,
{
    if n == 0 || n > issues.len() {
        Seq::empty()
    } else {
        let r = items_in(issues, d, color, (n - 1) as nat);
        if dir_label(issues[n - 1].file@) == d {
            r.push(item_line(issues[n - 1], color))
        } else {
            r
        }
    }
}

/// For the first `m` directories: the header, then the lines of its findings.
pub open spec fn group_lines(issues: Seq<Issue>, dirs: Seq<Seq<char>>, color: bool, m: nat) -> Seq<Seq<char>>
    decreases m,
{
    if m == 0 || m > dirs.len() {
        Seq::empty()
    } else {
        group_lines(issues, dirs, color, (m - 1) as nat) + seq![header_line(dirs[m - 1], color)]
            + items_in(issues, dirs[m - 1], color, issues.len())
    }
}

/// The report lines: directories in ascending order, each followed by its
/// findings in their order.
pub open spec fn grouped_spec(issues: Seq<Issue>, color: bool) -> Seq<Seq<char>> {
    let dirs = sort_keys(distinct_dirs(issues, issues.len()));
    group_lines(issues, dirs, color, dirs.len())
}

/// The directory header of a file.
fn dir_of(file: &String) -> (r: String)
    ensures
        r@ == dir_label(file@),
{
    match path_parent(file.as_str()) {
        Some(d) => {
            if chars_of(d.as_str()).len() > 0 {
                proof {
                    assert(d@.len() > 0);
                }
                d
            } else {
                proof {
                    assert(d@.len() == 0);
                }
                "⌂ (root)".to_string()
            }
        },
        None => "⌂ (root)".to_string(),
    }
}

fn sev_class_exec(sev: &String) -> (r: u8)
    ensures
        r as int == sev_class(sev@),
{
    if str_eq(sev.as_str(), "error") {
        0
    } else if str_eq(sev.as_str(), "warning") || str_eq(sev.as_str(), "warn") {
        1
    } else {
        2
    }
}

fn item_text(is: &Issue, color: bool) -> (r: String)
    ensures
        r@ == item_line(*is, color),
{
    let c = sev_class_exec(&is.severity);
    let sev = if c == 0 {
        if color { bold(red("⟦error⟧").as_str()) } else { "⟦error⟧".to_string() }
    } else if c == 1 {
        if color { bold(yellow("⟦warn⟧").as_str()) } else { "⟦warn⟧".to_string() }
    } else {
        if color { bold(blue("⟦info⟧").as_str()) } else { "⟦info⟧".to_string() }
    };
    let icon = if c == 0 {
        red("✖")
    } else if c == 1 {
        yellow("▲")
    } else {
        blue("◆")
    };
    let base = match path_file_name(is.file.as_str()) {
        Some(b) => b,
        None => is.file.clone(),
    };
    let base = if color { bold(base.as_str()) } else { base };
    let mut v: Vec<char> = Vec::new();
    append_str(&mut v, "  ");
    append_str(&mut v, icon.as_str());
    append_str(&mut v, " ");
    append_str(&mut v, sev.as_str());
    append_str(&mut v, " ");
    append_str(&mut v, base.as_str());
    append_str(&mut v, " ❲");
    append_str(&mut v, is.rule.as_str());
    append_str(&mut v, "❳ — ");
    append_str(&mut v, is.message.as_str());
    proof {
        assert(v@ =~= item_line(*is, color));
    }
    string_of(&v)
}

/// The lint findings as report lines (the summary line aside): a header per
/// directory, in ascending order, followed by one line per finding in it.
pub fn compose_lint_grouped_lines(res: &LintResult, color: bool) -> (r: Vec<String>)
    ensures
        seg_model(r@) == grouped_spec(res.issues@, color),
{
    let issues = &res.issues;
    let ghost is = issues@;
    let mut dirs: Vec<String> = Vec::new();
    let mut distinct: Vec<String> = Vec::new();
    let mut i: usize = 0;
    while i < issues.len()
        invariant
            i <= is.len(),
            is == issues@,
            dirs@.len() == i,
            forall|j: int| 0 <= j < i ==> #[trigger] dirs@[j]@ == dir_label(is[j].file@),
            seg_model(distinct@) == distinct_dirs(is, i as nat),
        decreases issues.len() - i,
    {
        let d = dir_of(&issues[i].file);
        let mut found = false;
        let mut k: usize = 0;
        while k < distinct.len()
            invariant
                k <= distinct@.len(),
                found == seg_model(distinct@).subrange(0, k as int).contains(d@),
            decreases distinct.len() - k,
        {
            let e = str_eq(distinct[k].as_str(), d.as_str());
            proof {
                let a = seg_model(distinct@).subrange(0, k as int);
                let b = seg_model(distinct@).subrange(0, k + 1);
                assert(b =~= a.push(seg_model(distinct@)[k as int]));
                assert(seg_model(distinct@)[k as int] == distinct@[k as int]@);
                if e {
                    assert(b[k as int] == d@);
                } else if !found {
                    assert forall|w: int| 0 <= w < b.len() implies b[w] != d@ by {
                        if w < k {
                            assert(b[w] == a[w]);
                        }
                    }
                } else {
                    let w = choose|w: int| 0 <= w < a.len() && a[w] == d@;
                    assert(b[w] == d@);
                }
            }
            found = found || e;
            k += 1;
        }
        proof {
            assert(seg_model(distinct@).subrange(0, k as int) =~= seg_model(distinct@));
        }
        if !found {
            let ghost d0 = distinct@;
            distinct.push(d.clone());
            proof {
                crate::json::lemma_seg_push(d0, d);
            }
        }
        dirs.push(d);
        i += 1;
    }
    let sorted = sort_strings(&distinct);
    let ghost sd = seg_model(sorted@);
    let mut lines: Vec<String> = Vec::new();
    let mut g: usize = 0;
    proof {
        assert(seg_model(lines@) =~= Seq::<Seq<char>>::empty());
    }
    while g < sorted.len()
        invariant
            g <= sorted@.len(),
            is == issues@,
            dirs@.len() == is.len(),
            forall|j: int| 0 <= j < is.len() ==> #[trigger] dirs@[j]@ == dir_label(is[j].file@),
            sd == seg_model(sorted@),
            seg_model(lines@) == group_lines(is, sd, color, g as nat),
        decreases sorted.len() - g,
    {
        let d = &sorted[g];
        let h = if color {
            let mut v: Vec<char> = Vec::new();
            append_str(&mut v, "▣ ");
            let b = bold(d.as_str());
            append_str(&mut v, b.as_str());
            string_of(&v)
        } else {
            d.clone()
        };
        let ghost l0 = lines@;
        lines.push(h);
        proof {
            crate::json::lemma_seg_push(l0, h);
        }
        let ghost base = seg_model(lines@);
        let mut j: usize = 0;
        proof {
            assert(base + items_in(is, sd[g as int], color, 0) =~= base);
        }
        while j < issues.len()
            invariant
                j <= is.len(),
                g < sorted@.len(),
                is == issues@,
                dirs@.len() == is.len(),
                forall|q: int| 0 <= q < is.len() ==> #[trigger] dirs@[q]@ == dir_label(is[q].file@),
                sd == seg_model(sorted@),
                d == sorted@[g as int],
                seg_model(lines@) == base + items_in(is, sd[g as int], color, j as nat),
            decreases issues.len() - j,
        {
            if str_eq(dirs[j].as_str(), d.as_str()) {
                let t = item_text(&issues[j], color);
                let ghost l1 = lines@;
                lines.push(t);
                proof {
                    crate::json::lemma_seg_push(l1, t);
                }
            }
            j += 1;
        }
        proof {
            assert(group_lines(is, sd, color, (g + 1) as nat) =~= group_lines(is, sd, color, g as nat)
                + seq![header_line(sd[g as int], color)] + items_in(is, sd[g as int], color, is.len()));
        }
        g += 1;
    }
    lines
}


/// A plain preview of a change: the new text under `+++ new`, then the old
/// under `--- old`; none unless both are present.
pub fn build_naive_diff(old: Option<&str>, new: Option<&str>) -> (r: Option<String>)
    ensures
        match (old, new) {
            (Some(o), Some(n)) => r matches Some(d) && d@ == "+++ new\n"@ + n@ + "\n"@ + "--- old\n"@ + o@,
            _ => r is None,
        },
{
    match (old, new) {
        (Some(o), Some(n)) => {
            let mut v: Vec<char> = Vec::new();
            append_str(&mut v, "+++ new\n");
            append_str(&mut v, n);
            append_str(&mut v, "\n");
            append_str(&mut v, "--- old\n");
            append_str(&mut v, o);
            Some(string_of(&v))
        },
        _ => None,
    }
}

} // verus!
