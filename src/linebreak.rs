//! Blank-line placement in pretty-printed documents.
//!
//! The text is scanned line by line, tracking object depth by counting braces.
//! Between top-level key groups, exactly one blank line is ensured (or none,
//! per field). Inside chosen object fields, a blank line stands before a child
//! key exactly where the text as read had one.
use vstd::prelude::*;
use crate::json::{seg_model, lemma_seg_push};
use crate::models::LineBreakRule;
use crate::text::{
    brace_delta, brace_delta_exec, contains, contains_exec, join_lines, join_text, key_of,
    key_of_exec, lemma_lmodel_push, lemma_total_push, lines, lmodel, text_lines, total_len,
    trim_start, trim_start_vec, vec_eq, chars_of, string_of, has_char,
};

verus! {

/// Output lines with every blank line that ends them removed.
pub open spec fn pop_blank(out: Seq<Seq<char>>) -> Seq<Seq<char>>
    decreases out.len(),
{
    if out.len() > 0 && out.last().len() == 0 {
        pop_blank(out.drop_last())
    } else {
        out
    }
}

/// Output lines made to end in exactly one blank line: any run of blank lines
/// at the end collapses to one, or one is added; an empty output stays empty.
pub open spec fn one_blank(out: Seq<Seq<char>>) -> Seq<Seq<char>> {
    if out.len() == 0 {
        out
    } else {
        pop_blank(out).push(Seq::empty())
    }
}

/// The rules as sequences of characters.
pub open spec fn rmodel(v: Seq<(String, LineBreakRule)>) -> Seq<(Seq<char>, LineBreakRule)> {
    v.map_values(|e: (String, LineBreakRule)| (e.0@, e.1))
}

/// The rule of the first entry under `k`.
pub open spec fn rule_for(rules: Seq<(Seq<char>, LineBreakRule)>, k: Seq<char>) -> Option<LineBreakRule>
    decreases rules.len(),
{
    if rules.len() == 0 {
        None
    } else if rules[0].0 == k {
        Some(rules[0].1)
    } else {
        rule_for(rules.drop_first(), k)
    }
}

/// Whether `k` is the first key of one of the groups.
pub open spec fn is_group_first(groups: Seq<Vec<String>>, k: Seq<char>) -> bool {
    exists|i: int| 0 <= i < groups.len() && groups[i]@.len() > 0 && (#[trigger] groups[i]@)[0]@ == k
}

/// One line of the between-groups pass; the state is the output so far,
/// whether a group's first key was met, and the depth before the line.
pub open spec fn group_step(
    st: (Seq<Seq<char>>, bool, int),
    line: Seq<char>,
    groups: Seq<Vec<String>>,
    rules: Seq<(Seq<char>, LineBreakRule)>,
) -> (Seq<Seq<char>>, bool, int) {
    let t = trim_start(line);
    let k = key_of(t);
    let hit = st.2 == 1 && k is Some && is_group_first(groups, k->0);
    let out = if hit && st.1 {
        match rule_for(rules, k->0) {
            Some(LineBreakRule::Strip) => pop_blank(st.0),
            _ => one_blank(st.0),
        }
    } else {
        st.0
    };
    (out.push(line), st.1 || hit, st.2 + brace_delta(t))
}

/// The between-groups pass over the first `n` lines.
pub open spec fn group_run(
    ls: Seq<Seq<char>>,
    n: nat,
    groups: Seq<Vec<String>>,
    rules: Seq<(Seq<char>, LineBreakRule)>,
) -> (Seq<Seq<char>>, bool, int)
    decreases n,
{
    if n == 0 || n > ls.len() {
        (Seq::empty(), false, 0)
    } else {
        group_step(group_run(ls, (n - 1) as nat, groups, rules), ls[n - 1], groups, rules)
    }
}

/// The text after the between-groups pass.
pub open spec fn linebreaks_spec(
    pretty: Seq<char>,
    groups: Seq<Vec<String>>,
    between: bool,
    rules: Seq<(Seq<char>, LineBreakRule)>,
) -> Seq<char> {
    if !between || groups.len() == 0 {
        pretty
    } else {
        let ls = lines(pretty);
        join_lines(group_run(ls, ls.len(), groups, rules).0)
    }
}

fn pop_blank_exec(out: &mut Vec<Vec<char>>)
    ensures
        lmodel(final(out)@) == pop_blank(lmodel(old(out)@)),
{
    while out.len() > 0 && out[out.len() - 1].len() == 0
        invariant
            pop_blank(lmodel(out@)) == pop_blank(lmodel(old(out)@)),
        decreases out.len(),
    {
        let ghost o = out@;
        out.pop();
        proof {
            assert(lmodel(out@) =~= lmodel(o).drop_last());
        }
    }
}

fn one_blank_exec(out: &mut Vec<Vec<char>>)
    ensures
        lmodel(final(out)@) == one_blank(lmodel(old(out)@)),
{
    if out.len() == 0 {
        return;
    }
    pop_blank_exec(out);
    let ghost o = out@;
    let blank: Vec<char> = Vec::new();
    out.push(blank);
    proof {
        lemma_lmodel_push(o, blank);
    }
}

/// The rule of the first entry under `k`.
pub fn rule_lookup(rules: &Vec<(String, LineBreakRule)>, k: &Vec<char>) -> (r: Option<LineBreakRule>)
    ensures
        r == rule_for(rmodel(rules@), k@),
{
    let mut i: usize = 0;
    proof {
        assert(rmodel(rules@).subrange(0, rules@.len() as int) =~= rmodel(rules@));
    }
    while i < rules.len()
        invariant
            i <= rules@.len(),
            rule_for(rmodel(rules@), k@) == rule_for(
                rmodel(rules@).subrange(i as int, rules@.len() as int),
                k@,
            ),
        decreases rules.len() - i,
    {
        let ghost t = rmodel(rules@).subrange(i as int, rules@.len() as int);
        proof {
            assert(t.drop_first() =~= rmodel(rules@).subrange(i + 1, rules@.len() as int));
            assert(t[0] == (rules@[i as int].0@, rules@[i as int].1));
        }
        if vec_eq(&chars_of(rules[i].0.as_str()), k) {
            return Some(rules[i].1);
        }
        i += 1;
    }
    None
}

/// Whether `k` is the first key of one of the groups.
pub fn group_first(groups: &Vec<Vec<String>>, k: &Vec<char>) -> (r: bool)
    ensures
        r == is_group_first(groups@, k@),
{
    let mut i: usize = 0;
    while i < groups.len()
        invariant
            i <= groups@.len(),
            forall|j: int| 0 <= j < i ==> !(groups@[j]@.len() > 0 && (#[trigger] groups@[j]@)[0]@ == k@),
        decreases groups.len() - i,
    {
        if groups[i].len() > 0 && vec_eq(&chars_of(groups[i][0].as_str()), k) {
            return true;
        }
        i += 1;
    }
    false
}

/// Ensures one blank line before the first key of every top-level group but the
/// first met (none where `field_rules` says `Strip` for that key). Only lines at
/// depth 1 count; the text is rejoined with `\n`.
pub fn apply_linebreaks(
    pretty: String,
    groups: &Vec<Vec<String>>,
    between_groups: bool,
    field_rules: &Vec<(String, LineBreakRule)>,
) -> (r: String)
    ensures
        r@ == linebreaks_spec(pretty@, groups@, between_groups, rmodel(field_rules@)),
{
    if !between_groups || groups.len() == 0 {
        return pretty;
    }
    let ls = text_lines(pretty.as_str());
    let ghost lm = lmodel(ls@);
    let ghost rules = rmodel(field_rules@);
    let mut out: Vec<Vec<char>> = Vec::new();
    let mut seen_first = false;
    let mut depth: i128 = 0;
    let mut i: usize = 0;
    proof {
        assert(lmodel(out@) =~= Seq::<Seq<char>>::empty());
        assert(lm.subrange(0, 0) =~= Seq::<Seq<char>>::empty());
        lemma_prefix_total(lm, 0);
    }
    while i < ls.len()
        invariant
            i <= ls@.len(),
            lm == lmodel(ls@),
            lm == lines(pretty@),
            total_len(lm) <= usize::MAX,
            rules == rmodel(field_rules@),
            (lmodel(out@), seen_first, depth as int) == group_run(lm, i as nat, groups@, rules),
            -total_len(lm.subrange(0, i as int)) <= depth <= total_len(lm.subrange(0, i as int)),
            total_len(lm.subrange(0, i as int)) <= total_len(lm),
        decreases ls.len() - i,
    {
        let line = &ls[i];
        let t = trim_start_vec(line);
        let d = brace_delta_exec(&t);
        let mut hit = false;
        if depth == 1 {
            match key_of_exec(&t) {
                Some(k) => {
                    if group_first(groups, &k) {
                        hit = true;
                        if seen_first {
                            match rule_lookup(field_rules, &k) {
                                Some(LineBreakRule::Strip) => pop_blank_exec(&mut out),
                                _ => one_blank_exec(&mut out),
                            }
                        }
                    }
                },
                None => {},
            }
        }
        let ghost o = out@;
        out.push(line.clone());
        proof {
            lemma_lmodel_push(o, ls@[i as int]);
            assert(ls@[i as int]@ == lm[i as int]);
            let w = lm.subrange(0, i + 1);
            assert(w.drop_last() =~= lm.subrange(0, i as int));
            lemma_total_push(lm.subrange(0, i as int), lm[i as int]);
            assert(w == lm.subrange(0, i as int).push(lm[i as int]));
            lemma_prefix_total(lm, i + 1);
        }
        seen_first = seen_first || hit;
        proof {
            assert(t@.len() <= lm[i as int].len());
            assert(total_len(lm.subrange(0, i + 1)) == total_len(lm.subrange(0, i as int)) + lm[i as int].len());
        }
        depth = depth + d;
        i += 1;
    }
    proof {
        assert(lm.len() == ls@.len());
    }
    join_text(&out)
}

/// The total length of a prefix of the lines is at most that of all of them.
pub proof fn lemma_prefix_total(ls: Seq<Seq<char>>, n: int)
    requires
        0 <= n <= ls.len(),
    ensures
        0 <= total_len(ls.subrange(0, n)) <= total_len(ls),
    decreases ls.len(),
{
    if ls.len() > 0 {
        if n == ls.len() {
            assert(ls.subrange(0, n) =~= ls);
            lemma_prefix_total(ls.drop_last(), n - 1);
            assert(ls.drop_last().subrange(0, n - 1) =~= ls.drop_last());
        } else {
            lemma_prefix_total(ls.drop_last(), n);
            assert(ls.drop_last().subrange(0, n) =~= ls.subrange(0, n));
        }
    } else {
        assert(ls.subrange(0, n) =~= ls);
    }
}


/// A keep map as sequences: field, and the child keys that had a blank line
/// before them in the text as read.
pub open spec fn kmodel(v: Seq<(String, Vec<String>)>) -> Seq<(Seq<char>, Seq<Seq<char>>)> {
    v.map_values(|e: (String, Vec<String>)| (e.0@, seg_model(e.1@)))
}

/// The index of the first entry of `m` under `f`, or -1.
pub open spec fn kfind(m: Seq<(Seq<char>, Seq<Seq<char>>)>, f: Seq<char>) -> int
    decreases m.len(),
{
    if m.len() == 0 {
        -1
    } else if kfind(m.drop_last(), f) >= 0 {
        kfind(m.drop_last(), f)
    } else if m.last().0 == f {
        m.len() - 1
    } else {
        -1
    }
}

proof fn lemma_kfind(m: Seq<(Seq<char>, Seq<Seq<char>>)>, f: Seq<char>)
    ensures
        -1 <= kfind(m, f) < m.len(),
        kfind(m, f) >= 0 ==> m[kfind(m, f)].0 == f,
        forall|i: int| 0 <= i < m.len() && (kfind(m, f) < 0 || i < kfind(m, f))
            ==> #[trigger] m[i].0 != f,
    decreases m.len(),
{
    if m.len() > 0 {
        lemma_kfind(m.drop_last(), f);
        assert forall|i: int| 0 <= i < m.len() - 1 implies #[trigger] m[i] == m.drop_last()[i] by {}
    }
}

/// Whether the keep map records `child` under field `f`.
pub open spec fn keep_has(m: Seq<(Seq<char>, Seq<Seq<char>>)>, f: Seq<char>, child: Seq<char>) -> bool {
    let j = kfind(m, f);
    j >= 0 && m[j].1.contains(child)
}

/// Records `child` under field `f`, adding the field last when it is new.
pub open spec fn add_child(
    m: Seq<(Seq<char>, Seq<Seq<char>>)>,
    f: Seq<char>,
    child: Seq<char>,
) -> Seq<(Seq<char>, Seq<Seq<char>>)> {
    let j = kfind(m, f);
    if j < 0 {
        m.push((f, seq![child]))
    } else if m[j].1.contains(child) {
        m
    } else {
        m.update(j, (f, m[j].1.push(child)))
    }
}

/// Whether a trimmed line opens a chosen field: a quoted key followed by `: {`.
pub open spec fn opens_field(t: Seq<char>) -> bool {
    contains(t, ": {"@)
}

/// Whether a trimmed line is a direct child entry at depth `d` (not an object).
pub open spec fn child_entry(t: Seq<char>, d: int) -> bool {
    d == 1 && t.len() > 0 && t[0] == '"' && !contains(t, "\": {"@)
}

/// One line of the scan of the text as read. The state is the map so far,
/// the field being scanned, the depth inside it, and whether the line before
/// was blank.
pub open spec fn keep_step(
    st: (Seq<(Seq<char>, Seq<Seq<char>>)>, Option<Seq<char>>, int, bool),
    line: Seq<char>,
    rules: Seq<(Seq<char>, LineBreakRule)>,
) -> (Seq<(Seq<char>, Seq<Seq<char>>)>, Option<Seq<char>>, int, bool) {
    let t = trim_start(line);
    let k = key_of(t);
    let opens = st.1 is None && k is Some && rule_for(rules, k->0) == Some(LineBreakRule::Keep)
        && opens_field(t);
    let act = if opens { Some(k->0) } else { st.1 };
    let d0 = if opens { 0 } else { st.2 };
    let pb = if opens { false } else { st.3 };
    match act {
        None => (st.0, None, d0, t.len() == 0),
        Some(f) => {
            let d = d0 + brace_delta(t);
            let res = if child_entry(t, d) && pb && k is Some {
                add_child(st.0, f, k->0)
            } else {
                st.0
            };
            let closes = d <= 0 && t.contains('}');
            (res, if closes { None } else { Some(f) }, d, t.len() == 0)
        },
    }
}

pub open spec fn keep_run(
    ls: Seq<Seq<char>>,
    n: nat,
    rules: Seq<(Seq<char>, LineBreakRule)>,
) -> (Seq<(Seq<char>, Seq<Seq<char>>)>, Option<Seq<char>>, int, bool)
    decreases n,
{
    if n == 0 || n > ls.len() {
        (Seq::empty(), None, 0, false)
    } else {
        keep_step(keep_run(ls, (n - 1) as nat, rules), ls[n - 1], rules)
    }
}

/// For each field whose rule is `Keep`, the child keys that had a blank line
/// right before them in the text as read.
pub open spec fn keep_map_spec(original: Seq<char>, rules: Seq<(Seq<char>, LineBreakRule)>) -> Seq<
    (Seq<char>, Seq<Seq<char>>),
> {
    let ls = lines(original);
    keep_run(ls, ls.len(), rules).0
}

fn seq_has(v: &Vec<String>, c: &Vec<char>) -> (r: bool)
    ensures
        r == seg_model(v@).contains(c@),
{
    let mut i: usize = 0;
    while i < v.len()
        invariant
            i <= v@.len(),
            forall|j: int| 0 <= j < i ==> #[trigger] seg_model(v@)[j] != c@,
        decreases v.len() - i,
    {
        if vec_eq(&chars_of(v[i].as_str()), c) {
            proof {
                assert(seg_model(v@)[i as int] == c@);
            }
            return true;
        }
        i += 1;
    }
    false
}

fn kfind_exec(m: &Vec<(String, Vec<String>)>, f: &Vec<char>) -> (r: Option<usize>)
    ensures
        match r {
            Some(j) => j < m@.len() && kfind(kmodel(m@), f@) == j,
            None => kfind(kmodel(m@), f@) < 0,
        },
{
    let ghost km = kmodel(m@);
    proof {
        lemma_kfind(km, f@);
    }
    let mut i: usize = 0;
    while i < m.len()
        invariant
            i <= m@.len(),
            km == kmodel(m@),
            forall|j: int| 0 <= j < i ==> #[trigger] km[j].0 != f@,
            -1 <= kfind(km, f@) < km.len(),
            kfind(km, f@) >= 0 ==> km[kfind(km, f@)].0 == f@,
            forall|j: int| 0 <= j < km.len() && (kfind(km, f@) < 0 || j < kfind(km, f@))
                ==> #[trigger] km[j].0 != f@,
        decreases m.len() - i,
    {
        if vec_eq(&chars_of(m[i].0.as_str()), f) {
            proof {
                let q = kfind(km, f@);
                assert(km[i as int].0 == f@);
                if q >= 0 && q < i {
                    assert(km[q].0 != f@);
                }
            }
            return Some(i);
        }
        i += 1;
    }
    None
}

fn add_child_exec(m: &mut Vec<(String, Vec<String>)>, f: &Vec<char>, child: &Vec<char>)
    ensures
        kmodel(final(m)@) == add_child(kmodel(old(m)@), f@, child@),
{
    let ghost km = kmodel(m@);
    match kfind_exec(m, f) {
        None => {
            let c = string_of(child);
            let mut v: Vec<String> = Vec::new();
            v.push(c);
            proof {
                assert(seg_model(v@) =~= seq![child@]);
            }
            let e = (string_of(f), v);
            m.push(e);
            proof {
                assert(kmodel(m@) =~= km.push((f@, seq![child@])));
            }
        },
        Some(j) => {
            if !seq_has(&m[j].1, child) {
                let ghost m0 = m@;
                let (k, mut v) = m.remove(j);
                let ghost v0 = v@;
                let c = string_of(child);
                v.push(c);
                proof {
                    lemma_seg_push(v0, c);
                }
                let ghost kv = (k, v);
                m.insert(j, (k, v));
                proof {
                    assert(m@ =~= m0.update(j as int, kv));
                    assert(km[j as int] == (m0[j as int].0@, seg_model(v0)));
                    lemma_kfind(km, f@);
                    assert(km[j as int].0 == f@);
                    assert(kmodel(m@)[j as int] == (kv.0@, seg_model(kv.1@)));
                    assert(kmodel(m@) =~= km.update(j as int, (f@, km[j as int].1.push(child@))));
                }
            }
        },
    }
}

/// Scans the text as read for child keys with a blank line before them inside
/// the fields whose rule is `Keep`.
pub fn compute_in_field_keep_map(original: &str, in_field_rules: &Vec<(String, LineBreakRule)>) -> (r: Vec<(String, Vec<String>)>)
    ensures
        kmodel(r@) == keep_map_spec(original@, rmodel(in_field_rules@)),
{
    let ls = text_lines(original);
    let ghost lm = lmodel(ls@);
    let ghost rules = rmodel(in_field_rules@);
    let opener = chars_of(": {");
    let nested = chars_of("\": {");
    let mut result: Vec<(String, Vec<String>)> = Vec::new();
    let mut active: Option<Vec<char>> = None;
    let mut depth: i128 = 0;
    let mut prev_blank = false;
    let mut i: usize = 0;
    proof {
        assert(kmodel(result@) =~= Seq::empty());
        lemma_prefix_total(lm, 0);
    }
    while i < ls.len()
        invariant
            i <= ls@.len(),
            lm == lmodel(ls@),
            lm == lines(original@),
            total_len(lm) <= usize::MAX,
            rules == rmodel(in_field_rules@),
            opener@ == ": {"@,
            nested@ == "\": {"@,
            (kmodel(result@), match active {
                Some(f) => Some(f@),
                None => None::<Seq<char>>,
            }, depth as int, prev_blank) == keep_run(lm, i as nat, rules),
            -total_len(lm.subrange(0, i as int)) <= depth <= total_len(lm.subrange(0, i as int)),
        decreases ls.len() - i,
    {
        let t = trim_start_vec(&ls[i]);
        let k = key_of_exec(&t);
        let mut opens = false;
        if active.is_none() {
            match &k {
                Some(kk) => {
                    match rule_lookup(in_field_rules, kk) {
                        Some(LineBreakRule::Keep) => {
                            opens = contains_exec(&t, &opener);
                        },
                        _ => {},
                    }
                },
                None => {},
            }
        }
        if opens {
            active = k.clone();
            depth = 0;
            prev_blank = false;
        }
        let d = brace_delta_exec(&t);
        proof {
            assert(t@.len() <= lm[i as int].len());
            assert(ls@[i as int]@ == lm[i as int]);
            let w = lm.subrange(0, i + 1);
            assert(w.drop_last() =~= lm.subrange(0, i as int));
            lemma_prefix_total(lm, i + 1);
        }
        match &active {
            Some(f) => {
                depth = depth + d;
                if depth == 1 && t.len() > 0 && t[0] == '"' && !contains_exec(&t, &nested) && prev_blank {
                    match &k {
                        Some(child) => add_child_exec(&mut result, f, child),
                        None => {},
                    }
                }
                if depth <= 0 && has_char(&t, '}') {
                    active = None;
                }
            },
            None => {},
        }
        prev_blank = t.len() == 0;
        i += 1;
    }
    result
}

/// One line of the in-field pass. The state is the output so far, the field
/// being passed with whether its first child was met, and the depth inside it.
pub open spec fn infield_step(
    st: (Seq<Seq<char>>, Option<(Seq<char>, bool)>, int),
    line: Seq<char>,
    rules: Seq<(Seq<char>, LineBreakRule)>,
    keep: Seq<(Seq<char>, Seq<Seq<char>>)>,
) -> (Seq<Seq<char>>, Option<(Seq<char>, bool)>, int) {
    let t = trim_start(line);
    let k = key_of(t);
    let opens = st.1 is None && k is Some && rule_for(rules, k->0) is Some && opens_field(t);
    let act = if opens { Some((k->0, false)) } else { st.1 };
    let d0 = if opens { 0 } else { st.2 };
    match act {
        None => (st.0.push(line), None, d0),
        Some(a) => {
            let d = d0 + brace_delta(t);
            let entry = child_entry(t, d);
            let out = if entry && a.1 {
                let rule = match rule_for(rules, a.0) {
                    Some(r) => r,
                    None => LineBreakRule::Keep,
                };
                match rule {
                    LineBreakRule::Keep => if k is Some && keep_has(keep, a.0, k->0) {
                        one_blank(st.0)
                    } else {
                        pop_blank(st.0)
                    },
                    LineBreakRule::Strip => pop_blank(st.0),
                }
            } else if entry {
                pop_blank(st.0)
            } else {
                st.0
            };
            let seen = a.1 || entry;
            let closes = d <= 0 && (t == "},"@ || (t.len() > 0 && t.last() == '}'));
            (out.push(line), if closes { None } else { Some((a.0, seen)) }, d)
        },
    }
}

pub open spec fn infield_run(
    ls: Seq<Seq<char>>,
    n: nat,
    rules: Seq<(Seq<char>, LineBreakRule)>,
    keep: Seq<(Seq<char>, Seq<Seq<char>>)>,
) -> (Seq<Seq<char>>, Option<(Seq<char>, bool)>, int)
    decreases n,
{
    if n == 0 || n > ls.len() {
        (Seq::empty(), None, 0)
    } else {
        infield_step(infield_run(ls, (n - 1) as nat, rules, keep), ls[n - 1], rules, keep)
    }
}

/// The text after the in-field pass.
pub open spec fn in_field_spec(
    pretty: Seq<char>,
    rules: Seq<(Seq<char>, LineBreakRule)>,
    keep: Seq<(Seq<char>, Seq<Seq<char>>)>,
) -> Seq<char> {
    if rules.len() == 0 {
        pretty
    } else {
        let ls = lines(pretty);
        join_lines(infield_run(ls, ls.len(), rules, keep).0)
    }
}

fn keep_lookup(m: &Vec<(String, Vec<String>)>, f: &Vec<char>, child: &Vec<char>) -> (r: bool)
    ensures
        r == keep_has(kmodel(m@), f@, child@),
{
    match kfind_exec(m, f) {
        Some(j) => seq_has(&m[j].1, child),
        None => false,
    }
}

/// Inside each object field named in `in_field_rules`, keeps one blank line
/// before a child key (not the first) exactly where `keep_map` records one for a
/// `Keep` field, and removes blank lines between children otherwise.
pub fn apply_in_field_linebreaks(
    pretty: String,
    in_field_rules: &Vec<(String, LineBreakRule)>,
    keep_map: &Vec<(String, Vec<String>)>,
) -> (r: String)
    ensures
        r@ == in_field_spec(pretty@, rmodel(in_field_rules@), kmodel(keep_map@)),
{
    if in_field_rules.len() == 0 {
        return pretty;
    }
    let ls = text_lines(pretty.as_str());
    let ghost lm = lmodel(ls@);
    let ghost rules = rmodel(in_field_rules@);
    let ghost keep = kmodel(keep_map@);
    let opener = chars_of(": {");
    let nested = chars_of("\": {");
    let close_comma = chars_of("},");
    let mut out: Vec<Vec<char>> = Vec::new();
    let mut active: Option<(Vec<char>, bool)> = None;
    let mut depth: i128 = 0;
    let mut i: usize = 0;
    proof {
        assert(lmodel(out@) =~= Seq::<Seq<char>>::empty());
        lemma_prefix_total(lm, 0);
    }
    while i < ls.len()
        invariant
            i <= ls@.len(),
            lm == lmodel(ls@),
            lm == lines(pretty@),
            total_len(lm) <= usize::MAX,
            rules == rmodel(in_field_rules@),
            keep == kmodel(keep_map@),
            opener@ == ": {"@,
            nested@ == "\": {"@,
            close_comma@ == "},"@,
            (lmodel(out@), match active {
                Some(a) => Some((a.0@, a.1)),
                None => None::<(Seq<char>, bool)>,
            }, depth as int) == infield_run(lm, i as nat, rules, keep),
            -total_len(lm.subrange(0, i as int)) <= depth <= total_len(lm.subrange(0, i as int)),
        decreases ls.len() - i,
    {
        let line = &ls[i];
        let t = trim_start_vec(line);
        let k = key_of_exec(&t);
        let mut opens = false;
        if active.is_none() {
            match &k {
                Some(kk) => {
                    match rule_lookup(in_field_rules, kk) {
                        Some(_) => {
                            opens = contains_exec(&t, &opener);
                        },
                        None => {},
                    }
                },
                None => {},
            }
        }
        if opens {
            match &k {
                Some(kk) => {
                    active = Some((kk.clone(), false));
                },
                None => {},
            }
            depth = 0;
        }
        let d = brace_delta_exec(&t);
        proof {
            assert(t@.len() <= lm[i as int].len());
            assert(ls@[i as int]@ == lm[i as int]);
            let w = lm.subrange(0, i + 1);
            assert(w.drop_last() =~= lm.subrange(0, i as int));
            lemma_prefix_total(lm, i + 1);
        }
        let mut close_now = false;
        match &active {
            Some(a) => {
                depth = depth + d;
                let entry = depth == 1 && t.len() > 0 && t[0] == '"' && !contains_exec(&t, &nested);
                if entry && a.1 {
                    let rule = match rule_lookup(in_field_rules, &a.0) {
                        Some(r) => r,
                        None => LineBreakRule::Keep,
                    };
                    match rule {
                        LineBreakRule::Keep => {
                            let want = match &k {
                                Some(ck) => keep_lookup(keep_map, &a.0, ck),
                                None => false,
                            };
                            if want {
                                one_blank_exec(&mut out);
                            } else {
                                pop_blank_exec(&mut out);
                            }
                        },
                        LineBreakRule::Strip => pop_blank_exec(&mut out),
                    }
                } else if entry {
                    pop_blank_exec(&mut out);
                }
                let n = t.len();
                close_now = depth <= 0 && (vec_eq(&t, &close_comma) || (n > 0 && t[n - 1] == '}'));
                if !close_now && entry && !a.1 {
                    active = Some((a.0.clone(), true));
                }
            },
            None => {},
        }
        if close_now {
            active = None;
        }
        let ghost o = out@;
        out.push(line.clone());
        proof {
            lemma_lmodel_push(o, ls@[i as int]);
        }
        i += 1;
    }
    join_text(&out)
}


/// Sets the rule under `k`: an existing entry keeps its place, a new one goes last.
pub open spec fn put_rule(
    m: Seq<(Seq<char>, LineBreakRule)>,
    k: Seq<char>,
    r: LineBreakRule,
) -> Seq<(Seq<char>, LineBreakRule)> {
    let j = rule_index(m, k);
    if j < 0 {
        m.push((k, r))
    } else {
        m.update(j, (k, r))
    }
}

/// The index of the first rule under `k`, or -1.
pub open spec fn rule_index(m: Seq<(Seq<char>, LineBreakRule)>, k: Seq<char>) -> int
    decreases m.len(),
{
    if m.len() == 0 {
        -1
    } else if rule_index(m.drop_last(), k) >= 0 {
        rule_index(m.drop_last(), k)
    } else if m.last().0 == k {
        m.len() - 1
    } else {
        -1
    }
}

proof fn lemma_rule_index(m: Seq<(Seq<char>, LineBreakRule)>, k: Seq<char>)
    ensures
        -1 <= rule_index(m, k) < m.len(),
        rule_index(m, k) >= 0 ==> m[rule_index(m, k)].0 == k,
        forall|i: int| 0 <= i < m.len() && (rule_index(m, k) < 0 || i < rule_index(m, k))
            ==> #[trigger] m[i].0 != k,
    decreases m.len(),
{
    if m.len() > 0 {
        lemma_rule_index(m.drop_last(), k);
        assert forall|i: int| 0 <= i < m.len() - 1 implies #[trigger] m[i] == m.drop_last()[i] by {}
    }
}

/// The rule an override word names: `keep`, or anything else for none.
pub open spec fn rule_word(v: Seq<char>) -> LineBreakRule {
    if v == "keep"@ {
        LineBreakRule::Keep
    } else {
        LineBreakRule::Strip
    }
}

/// The policy's rules with the first `n` overrides applied in order.
pub open spec fn merged_rules(
    base: Seq<(Seq<char>, LineBreakRule)>,
    ov: Seq<(String, String)>,
    n: nat,
) -> Seq<(Seq<char>, LineBreakRule)>
    decreases n,
{
    if n == 0 || n > ov.len() {
        base
    } else {
        put_rule(merged_rules(base, ov, (n - 1) as nat), ov[n - 1].0@, rule_word(ov[n - 1].1@))
    }
}

/// Policy rules (none when absent) overridden by configured words.
pub fn merge_linebreak_fields(
    policy: Option<&Vec<(String, LineBreakRule)>>,
    override_map: &Vec<(String, String)>,
) -> (r: Vec<(String, LineBreakRule)>)
    ensures
        rmodel(r@) == merged_rules(
            match policy {
                Some(p) => rmodel(p@),
                None => Seq::empty(),
            },
            override_map@,
            override_map@.len(),
        ),
{
    let mut out: Vec<(String, LineBreakRule)> = Vec::new();
    match policy {
        Some(p) => {
            let mut i: usize = 0;
            while i < p.len()
                invariant
                    i <= p@.len(),
                    out@.len() == i,
                    rmodel(out@) == rmodel(p@).subrange(0, i as int),
                decreases p.len() - i,
            {
                let e = (p[i].0.clone(), p[i].1);
                let ghost o = out@;
                out.push(e);
                proof {
                    assert(out@ == o.push(e));
                    assert(rmodel(out@) =~= rmodel(o).push((e.0@, e.1)));
                    assert(rmodel(out@) =~= rmodel(p@).subrange(0, i + 1));
                }
                i += 1;
            }
            proof {
                assert(rmodel(p@).subrange(0, i as int) =~= rmodel(p@));
            }
        },
        None => {
            proof {
                assert(rmodel(out@) =~= Seq::empty());
            }
        },
    }
    let ghost base = rmodel(out@);
    let mut i: usize = 0;
    while i < override_map.len()
        invariant
            i <= override_map@.len(),
            rmodel(out@) == merged_rules(base, override_map@, i as nat),
        decreases override_map.len() - i,
    {
        let k = &override_map[i].0;
        let rule = if crate::text::str_eq(override_map[i].1.as_str(), "keep") {
            LineBreakRule::Keep
        } else {
            LineBreakRule::Strip
        };
        let kc = chars_of(k.as_str());
        let ghost om = rmodel(out@);
        proof {
            lemma_rule_index(om, k@);
        }
        let mut j: usize = 0;
        while j < out.len() && !vec_eq(&chars_of(out[j].0.as_str()), &kc)
            invariant
                j <= out@.len(),
                om == rmodel(out@),
                kc@ == k@,
                forall|q: int| 0 <= q < j ==> #[trigger] om[q].0 != k@,
            decreases out.len() - j,
        {
            j += 1;
        }
        let ghost ri = rule_index(om, k@);
        if j < out.len() {
            proof {
                assert(om[j as int].0 == k@);
                if ri >= 0 && ri < j {
                    assert(om[ri].0 != k@);
                }
                if ri < 0 || ri > j {
                    assert(om[j as int].0 != k@);
                }
            }
            out.set(j, (k.clone(), rule));
            proof {
                assert(rmodel(out@) =~= om.update(j as int, (k@, rule)));
            }
        } else {
            proof {
                if ri >= 0 {
                    assert(om[ri].0 != k@);
                }
            }
            let ghost o = out@;
            let e = (k.clone(), rule);
            out.push(e);
            proof {
                assert(rmodel(out@) =~= om.push((k@, rule)));
            }
        }
        i += 1;
    }
    out
}


/// The object depth before line `i`.
pub open spec fn depth_before(ls: Seq<Seq<char>>, i: nat) -> int
    decreases i,
{
    if i == 0 || i > ls.len() {
        0
    } else {
        depth_before(ls, (i - 1) as nat) + brace_delta(trim_start(ls[i - 1]))
    }
}

/// Line `i` holds the first key of a group at depth 1.
pub open spec fn is_hit(ls: Seq<Seq<char>>, i: nat, groups: Seq<Vec<String>>) -> bool {
    let k = key_of(trim_start(ls[i as int]));
    depth_before(ls, i) == 1 && k is Some && is_group_first(groups, k->0)
}

/// Some line before `i` holds the first key of a group at depth 1.
pub open spec fn seen_before(ls: Seq<Seq<char>>, i: nat, groups: Seq<Vec<String>>) -> bool
    decreases i,
{
    if i == 0 || i > ls.len() {
        false
    } else {
        seen_before(ls, (i - 1) as nat, groups) || is_hit(ls, (i - 1) as nat, groups)
    }
}

/// Correct group spacing: before each group's first key at depth 1, after the
/// first such key, stands exactly one blank line, or none where the rule for
/// that key says `Strip`.
pub open spec fn well_spaced(ls: Seq<Seq<char>>, groups: Seq<Vec<String>>, rules: Seq<(Seq<char>, LineBreakRule)>) -> bool {
    forall|i: int|
        0 <= i < ls.len() && #[trigger] is_hit(ls, i as nat, groups) && seen_before(ls, i as nat, groups) ==> {
            let k = key_of(trim_start(ls[i]))->0;
            if rule_for(rules, k) == Some(LineBreakRule::Strip) {
                i == 0 || ls[i - 1].len() > 0
            } else {
                i == 0 || (ls[i - 1].len() == 0 && (i < 2 || ls[i - 2].len() > 0))
            }
        }
}

proof fn lemma_group_run_spaced(
    ls: Seq<Seq<char>>,
    n: nat,
    groups: Seq<Vec<String>>,
    rules: Seq<(Seq<char>, LineBreakRule)>,
)
    requires
        n <= ls.len(),
        well_spaced(ls, groups, rules),
    ensures
        group_run(ls, n, groups, rules) == (ls.subrange(0, n as int), seen_before(ls, n, groups), depth_before(ls, n)),
    decreases n,
{
    if n == 0 {
        assert(ls.subrange(0, 0) =~= Seq::<Seq<char>>::empty());
    } else {
        let i = (n - 1) as nat;
        lemma_group_run_spaced(ls, i, groups, rules);
        let pre = ls.subrange(0, i as int);
        assert(ls.subrange(0, n as int) =~= pre.push(ls[i as int]));
        if is_hit(ls, i, groups) && seen_before(ls, i, groups) {
            let k = key_of(trim_start(ls[i as int]))->0;
            if i >= 1 {
                assert(pre.last() == ls[i - 1]);
            }
            if i >= 2 {
                assert(pre[pre.len() - 2] == ls[i - 2]);
            }
            if i == 0 {
                assert(seen_before(ls, 0, groups) == false);
            }
            match rule_for(rules, k) {
                Some(LineBreakRule::Strip) => assert(pop_blank(pre) == pre),
                _ => {
                    let d = pre.drop_last();
                    assert(pop_blank(d) == d);
                    assert(pop_blank(pre) == d);
                    assert(pre.last() =~= Seq::<char>::empty());
                    assert(d.push(Seq::<char>::empty()) =~= pre);
                },
            }
        }
    }
}

/// Blank-line round trip: on text whose lines already have correct group
/// spacing, the between-groups pass changes no line; the text comes back as
/// its lines joined with `\n`.
pub proof fn lemma_linebreaks_round_trip(
    pretty: Seq<char>,
    groups: Seq<Vec<String>>,
    rules: Seq<(Seq<char>, LineBreakRule)>,
)
    requires
        groups.len() > 0,
        well_spaced(lines(pretty), groups, rules),
    ensures
        linebreaks_spec(pretty, groups, true, rules) == join_lines(lines(pretty)),
{
    let ls = lines(pretty);
    lemma_group_run_spaced(ls, ls.len(), groups, rules);
    assert(ls.subrange(0, ls.len() as int) =~= ls);
}

/// Blank-line round trip on the text itself: text with correct group spacing,
/// no `\r` and no final newline comes back from the between-groups pass
/// unchanged, so repeated runs do not drift.
pub proof fn lemma_linebreaks_unchanged(
    pretty: Seq<char>,
    groups: Seq<Vec<String>>,
    rules: Seq<(Seq<char>, LineBreakRule)>,
)
    requires
        well_spaced(lines(pretty), groups, rules),
        !pretty.contains('\r'),
        pretty.len() == 0 || pretty.last() != '\n',
    ensures
        linebreaks_spec(pretty, groups, true, rules) == pretty,
{
    if groups.len() > 0 {
        lemma_linebreaks_round_trip(pretty, groups, rules);
        crate::text::lemma_join_lines_of(pretty);
    }
}


/// In-field fidelity, one line at a time: when the in-field pass meets a later
/// child entry of a `Keep` field, and the output so far ends in a non-blank
/// line (as pretty-printed text does), exactly one blank line goes before the
/// child if the keep map records it under the field, and none otherwise.
pub proof fn lemma_in_field_keep_step(
    st: (Seq<Seq<char>>, Option<(Seq<char>, bool)>, int),
    line: Seq<char>,
    rules: Seq<(Seq<char>, LineBreakRule)>,
    keep: Seq<(Seq<char>, Seq<Seq<char>>)>,
)
    requires
        st.1 matches Some(a) && a.1,
        rule_for(rules, st.1->Some_0.0) == Some(LineBreakRule::Keep),
        key_of(trim_start(line)) is Some,
        child_entry(trim_start(line), st.2 + brace_delta(trim_start(line))),
        st.0.len() > 0,
        st.0.last().len() > 0,
    ensures
        ({
            let f = st.1->Some_0.0;
            let k = key_of(trim_start(line))->0;
            let out = infield_step(st, line, rules, keep).0;
            &&& keep_has(keep, f, k) ==> out == st.0.push(Seq::empty()).push(line)
            &&& !keep_has(keep, f, k) ==> out == st.0.push(line)
        }),
{
}


/// Whether the in-field pass, in state `st`, calls for a blank line before
/// `line`: a later child entry of a `Keep` field whose key the keep map
/// records under that field.
pub open spec fn keep_blank_before(
    st: (Seq<Seq<char>>, Option<(Seq<char>, bool)>, int),
    line: Seq<char>,
    rules: Seq<(Seq<char>, LineBreakRule)>,
    keep: Seq<(Seq<char>, Seq<Seq<char>>)>,
) -> bool {
    let t = trim_start(line);
    let k = key_of(t);
    let opens = st.1 is None && k is Some && rule_for(rules, k->0) is Some && opens_field(t);
    let act = if opens { Some((k->0, false)) } else { st.1 };
    let d0 = if opens { 0 } else { st.2 };
    match act {
        None => false,
        Some(a) => {
            let d = d0 + brace_delta(t);
            child_entry(t, d) && a.1 && match rule_for(rules, a.0) {
                Some(LineBreakRule::Strip) => false,
                _ => k is Some && keep_has(keep, a.0, k->0),
            }
        },
    }
}

/// The first `n` lines, each preceded by one blank line where the in-field
/// pass calls for it.
pub open spec fn with_kept_blanks(
    ls: Seq<Seq<char>>,
    n: nat,
    rules: Seq<(Seq<char>, LineBreakRule)>,
    keep: Seq<(Seq<char>, Seq<Seq<char>>)>,
) -> Seq<Seq<char>>
    decreases n,
{
    if n == 0 || n > ls.len() {
        Seq::empty()
    } else {
        let r = with_kept_blanks(ls, (n - 1) as nat, rules, keep);
        if keep_blank_before(infield_run(ls, (n - 1) as nat, rules, keep), ls[n - 1], rules, keep) {
            r.push(Seq::empty()).push(ls[n - 1])
        } else {
            r.push(ls[n - 1])
        }
    }
}

proof fn lemma_in_field_no_blanks(
    ls: Seq<Seq<char>>,
    n: nat,
    rules: Seq<(Seq<char>, LineBreakRule)>,
    keep: Seq<(Seq<char>, Seq<Seq<char>>)>,
)
    requires
        n <= ls.len(),
        forall|i: int| 0 <= i < ls.len() ==> (#[trigger] ls[i]).len() > 0,
    ensures
        infield_run(ls, n, rules, keep).0 == with_kept_blanks(ls, n, rules, keep),
        n > 0 ==> infield_run(ls, n, rules, keep).0.len() > 0 && infield_run(ls, n, rules, keep).0.last().len() > 0,
    decreases n,
{
    if n > 0 {
        lemma_in_field_no_blanks(ls, (n - 1) as nat, rules, keep);
        assert(ls[n - 1].len() > 0);
    }
}

/// In-field fidelity: on pretty-printed text with no blank lines, the in-field
/// pass gives back every line, and puts exactly one blank line before a later
/// child of a `Keep` field where the keep map (from the text as read) records
/// that child under the field, and nowhere else.
pub proof fn lemma_in_field_fidelity(
    pretty: Seq<char>,
    rules: Seq<(Seq<char>, LineBreakRule)>,
    keep: Seq<(Seq<char>, Seq<Seq<char>>)>,
)
    requires
        rules.len() > 0,
        forall|i: int| 0 <= i < lines(pretty).len() ==> (#[trigger] lines(pretty)[i]).len() > 0,
    ensures
        in_field_spec(pretty, rules, keep) == join_lines(with_kept_blanks(lines(pretty), lines(pretty).len(), rules, keep)),
{
    lemma_in_field_no_blanks(lines(pretty), lines(pretty).len(), rules, keep);
}


/// What the in-field pass asks before `line` in state `st`: 0 nothing (not a
/// child entry of a field being passed), 1 no blank line, 2 exactly one.
pub open spec fn infield_wants(
    st: (Seq<Seq<char>>, Option<(Seq<char>, bool)>, int),
    line: Seq<char>,
    rules: Seq<(Seq<char>, LineBreakRule)>,
    keep: Seq<(Seq<char>, Seq<Seq<char>>)>,
) -> int {
    let t = trim_start(line);
    let k = key_of(t);
    let opens = st.1 is None && k is Some && rule_for(rules, k->0) is Some && opens_field(t);
    let act = if opens { Some((k->0, false)) } else { st.1 };
    let d0 = if opens { 0 } else { st.2 };
    match act {
        None => 0,
        Some(a) => {
            if !child_entry(t, d0 + brace_delta(t)) {
                0
            } else if !a.1 {
                1
            } else {
                let rule = match rule_for(rules, a.0) {
                    Some(r) => r,
                    None => LineBreakRule::Keep,
                };
                match rule {
                    LineBreakRule::Keep => if k is Some && keep_has(keep, a.0, k->0) {
                        2
                    } else {
                        1
                    },
                    LineBreakRule::Strip => 1,
                }
            }
        },
    }
}

/// Correct in-field spacing: no blank line before the first child of a field
/// or where none is called for, exactly one where the keep map calls for one.
pub open spec fn in_field_spaced(
    ls: Seq<Seq<char>>,
    rules: Seq<(Seq<char>, LineBreakRule)>,
    keep: Seq<(Seq<char>, Seq<Seq<char>>)>,
) -> bool {
    forall|i: int| 0 <= i < ls.len() ==> {
        let w = #[trigger] infield_wants(infield_run(ls, i as nat, rules, keep), ls[i], rules, keep);
        &&& w == 1 ==> (i == 0 || ls[i - 1].len() > 0)
        &&& w == 2 ==> (i >= 1 && ls[i - 1].len() == 0 && (i < 2 || ls[i - 2].len() > 0))
    }
}

proof fn lemma_infield_run_spaced(
    ls: Seq<Seq<char>>,
    n: nat,
    rules: Seq<(Seq<char>, LineBreakRule)>,
    keep: Seq<(Seq<char>, Seq<Seq<char>>)>,
)
    requires
        n <= ls.len(),
        in_field_spaced(ls, rules, keep),
    ensures
        infield_run(ls, n, rules, keep).0 == ls.subrange(0, n as int),
    decreases n,
{
    if n == 0 {
        assert(ls.subrange(0, 0) =~= Seq::<Seq<char>>::empty());
    } else {
        let i = (n - 1) as nat;
        lemma_infield_run_spaced(ls, i, rules, keep);
        let pre = ls.subrange(0, i as int);
        let st = infield_run(ls, i, rules, keep);
        assert(ls.subrange(0, n as int) =~= pre.push(ls[i as int]));
        let w = infield_wants(st, ls[i as int], rules, keep);
        if i >= 1 {
            assert(pre.last() == ls[i - 1]);
        }
        if i >= 2 {
            assert(pre[pre.len() - 2] == ls[i - 2]);
        }
        if w == 1 {
            assert(pop_blank(pre) == pre);
        } else if w == 2 {
            let d = pre.drop_last();
            assert(pop_blank(d) == d);
            assert(pop_blank(pre) == d);
            assert(pre.last() =~= Seq::<char>::empty());
            assert(d.push(Seq::<char>::empty()) =~= pre);
            assert(one_blank(pre) == pre);
        }
    }
}

/// Blank-line round trip inside fields: text whose field children already
/// have the blank lines the rules and keep map call for, with no `\r` and no
/// final newline, comes back from the in-field pass unchanged.
pub proof fn lemma_in_field_unchanged(
    pretty: Seq<char>,
    rules: Seq<(Seq<char>, LineBreakRule)>,
    keep: Seq<(Seq<char>, Seq<Seq<char>>)>,
)
    requires
        in_field_spaced(lines(pretty), rules, keep),
        !pretty.contains('\r'),
        pretty.len() == 0 || pretty.last() != '\n',
    ensures
        in_field_spec(pretty, rules, keep) == pretty,
{
    if rules.len() > 0 {
        let ls = lines(pretty);
        lemma_infield_run_spaced(ls, ls.len(), rules, keep);
        assert(ls.subrange(0, ls.len() as int) =~= ls);
        crate::text::lemma_join_lines_of(pretty);
    }
}


proof fn lemma_kfind_first(m: Seq<(Seq<char>, Seq<Seq<char>>)>, f: Seq<char>, q: int)
    requires
        0 <= q < m.len(),
        m[q].0 == f,
        forall|i: int| 0 <= i < q ==> #[trigger] m[i].0 != f,
    ensures
        kfind(m, f) == q,
{
    lemma_kfind(m, f);
    let g = kfind(m, f);
    if g < 0 {
        assert(m[q].0 != f);
    } else if g < q {
        assert(m[g].0 != f);
    } else if g > q {
        assert(m[q].0 != f);
    }
}

proof fn lemma_kfind_none(m: Seq<(Seq<char>, Seq<Seq<char>>)>, f: Seq<char>)
    requires
        forall|i: int| 0 <= i < m.len() ==> #[trigger] m[i].0 != f,
    ensures
        kfind(m, f) < 0,
{
    lemma_kfind(m, f);
    if kfind(m, f) >= 0 {
        assert(m[kfind(m, f)].0 != f);
    }
}

/// Recording a child adds only that child under that field.
proof fn lemma_add_child_has(m: Seq<(Seq<char>, Seq<Seq<char>>)>, f: Seq<char>, c: Seq<char>, f2: Seq<char>, c2: Seq<char>)
    ensures
        keep_has(add_child(m, f, c), f2, c2) ==> keep_has(m, f2, c2) || (f2 == f && c2 == c),
{
    lemma_kfind(m, f);
    lemma_kfind(m, f2);
    let j = kfind(m, f);
    let g = kfind(m, f2);
    let n = add_child(m, f, c);
    if j < 0 {
        if g >= 0 {
            assert forall|i: int| 0 <= i < g implies #[trigger] n[i].0 != f2 by {
                assert(n[i] == m[i]);
            }
            lemma_kfind_first(n, f2, g);
        } else if f2 == f {
            assert forall|i: int| 0 <= i < m.len() implies #[trigger] n[i].0 != f2 by {
                assert(n[i] == m[i]);
                assert(m[i].0 != f);
            }
            lemma_kfind_first(n, f2, m.len() as int);
            if n[m.len() as int].1.contains(c2) {
                assert(seq![c][0] == c);
            }
        } else {
            assert forall|i: int| 0 <= i < n.len() implies #[trigger] n[i].0 != f2 by {
                if i < m.len() {
                    assert(n[i] == m[i]);
                }
            }
            lemma_kfind_none(n, f2);
        }
    } else if !m[j].1.contains(c) {
        if g >= 0 {
            assert forall|i: int| 0 <= i < g implies #[trigger] n[i].0 != f2 by {
                assert(n[i].0 == m[i].0);
            }
            assert(n[g].0 == m[g].0);
            lemma_kfind_first(n, f2, g);
            if g == j && n[g].1.contains(c2) {
                let q = choose|q: int| 0 <= q < n[g].1.len() && n[g].1[q] == c2;
                if q < m[j].1.len() {
                    assert(m[j].1[q] == c2);
                }
            }
        } else {
            assert forall|i: int| 0 <= i < n.len() implies #[trigger] n[i].0 != f2 by {
                assert(n[i].0 == m[i].0);
            }
            lemma_kfind_none(n, f2);
        }
    }
}

/// The scan of the text as read records `c` under field `f` at line `i`:
/// the scan is inside `f` there, and the line is child `c` at depth 1.
pub open spec fn recorded_at(ls: Seq<Seq<char>>, i: int, rules: Seq<(Seq<char>, LineBreakRule)>, f: Seq<char>, c: Seq<char>) -> bool {
    let st = keep_run(ls, i as nat, rules);
    let t = trim_start(ls[i]);
    let k = key_of(t);
    let opens = st.1 is None && k is Some && rule_for(rules, k->0) == Some(LineBreakRule::Keep) && opens_field(t);
    let act = if opens { Some(k->0) } else { st.1 };
    let d0 = if opens { 0 } else { st.2 };
    &&& act == Some(f)
    &&& child_entry(t, d0 + brace_delta(t))
    &&& k == Some(c)
}

proof fn lemma_keep_run_witness(ls: Seq<Seq<char>>, n: nat, rules: Seq<(Seq<char>, LineBreakRule)>, f: Seq<char>, c: Seq<char>)
    requires
        n <= ls.len(),
        keep_has(keep_run(ls, n, rules).0, f, c),
    ensures
        exists|i: int| 1 <= i < n && #[trigger] recorded_at(ls, i, rules, f, c) && trim_start(ls[i - 1]).len() == 0,
    decreases n,
{
    if n == 0 {
        lemma_kfind(Seq::<(Seq<char>, Seq<Seq<char>>)>::empty(), f);
    } else {
        let i = (n - 1) as int;
        let st = keep_run(ls, i as nat, rules);
        let nx = keep_step(st, ls[i], rules);
        if keep_has(st.0, f, c) {
            lemma_keep_run_witness(ls, i as nat, rules, f, c);
            let w = choose|w: int| 1 <= w < i && #[trigger] recorded_at(ls, w, rules, f, c) && trim_start(ls[w - 1]).len() == 0;
            assert(1 <= w < n && recorded_at(ls, w, rules, f, c));
        } else {
            let t = trim_start(ls[i]);
            let k = key_of(t);
            let opens = st.1 is None && k is Some && rule_for(rules, k->0) == Some(LineBreakRule::Keep) && opens_field(t);
            let act = if opens { Some(k->0) } else { st.1 };
            match act {
                Some(ff) => {
                    lemma_add_child_has(st.0, ff, k->0, f, c);
                },
                None => {},
            }
            assert(recorded_at(ls, i, rules, f, c));
            if i == 0 {
                assert(st.3 == false);
            } else {
                let sp = keep_run(ls, (i - 1) as nat, rules);
                assert(st == keep_step(sp, ls[i - 1], rules));
            }
        }
    }
}

/// In-field fidelity, the scan side: the keep map records a child under a
/// field only where the text as read has a blank line right before that
/// child, inside that field. So with no such blank line, nothing is recorded,
/// and the in-field pass puts no blank line there.
pub proof fn lemma_keep_map_witness(original: Seq<char>, rules: Seq<(Seq<char>, LineBreakRule)>, f: Seq<char>, c: Seq<char>)
    requires
        keep_has(keep_map_spec(original, rules), f, c),
    ensures
        exists|i: int| 1 <= i < lines(original).len() && #[trigger] recorded_at(lines(original), i, rules, f, c)
            && trim_start(lines(original)[i - 1]).len() == 0,
{
    lemma_keep_run_witness(lines(original), lines(original).len(), rules, f, c);
}

} // verus!
