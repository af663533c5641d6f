//! Sync rules: scope gating, paths, and idempotent-write detection.
use vstd::prelude::*;
use crate::config::{SyncCfg, SyncClientCfg};
use crate::models::SyncRule;
use crate::text::{
    append_str, chars_of, parent_of, path_parent, str_eq, string_of, trim, trim_start, trim_vec, vec_eq,
};

verus! {

/// The outcome of one sync rule.
pub struct SyncAction {
    pub rule_id: String,
    pub source: String,
    pub target: String,
    pub wrote: bool,
    pub format: Option<String>,
    pub would_write: bool,
}

/// A character's code with ASCII letters folded to lower case.
pub open spec fn fold_code(c: char) -> u32 {
    if 65 <= (c as u32) <= 90 {
        ((c as u32) + 32) as u32
    } else {
        c as u32
    }
}

/// Equality ignoring ASCII case, as `str::eq_ignore_ascii_case`.
pub open spec fn ieq(a: Seq<char>, b: Seq<char>) -> bool {
    a.len() == b.len() && forall|i: int| 0 <= i < a.len() ==> fold_code(#[trigger] a[i]) == fold_code(b[i])
}

pub fn ieq_exec(a: &Vec<char>, b: &Vec<char>) -> (r: bool)
    ensures
        r == ieq(a@, b@),
{
    if a.len() != b.len() {
        return false;
    }
    let mut i: usize = 0;
    while i < a.len()
        invariant
            i <= a@.len(),
            a@.len() == b@.len(),
            forall|j: int| 0 <= j < i ==> fold_code(#[trigger] a@[j]) == fold_code(b@[j]),
        decreases a.len() - i,
    {
        let x = a[i] as u32;
        let y = b[i] as u32;
        let fx = if 65 <= x && x <= 90 { x + 32 } else { x };
        let fy = if 65 <= y && y <= 90 { y + 32 } else { y };
        if fx != fy {
            return false;
        }
        i += 1;
    }
    true
}

/// Pieces between `,` or `|` separators (empty ones included) after the first
/// `n` characters, and the piece in progress.
pub open spec fn tokens_state(s: Seq<char>, n: nat) -> (Seq<Seq<char>>, Seq<char>)
    decreases n,
{
    if n == 0 || n > s.len() {
        (Seq::empty(), Seq::empty())
    } else {
        let (done, cur) = tokens_state(s, (n - 1) as nat);
        if s[n - 1] == ',' || s[n - 1] == '|' {
            (done.push(cur), Seq::empty())
        } else {
            (done, cur.push(s[n - 1]))
        }
    }
}

/// The pieces of `s` between `,` or `|` separators.
pub open spec fn tokens(s: Seq<char>) -> Seq<Seq<char>> {
    let (done, cur) = tokens_state(s, s.len());
    done.push(cur)
}

/// Whether a rule with scope condition `when` applies under `scope`: always
/// when the condition is empty, `*`, `any` or `all`; else when one of its
/// comma- or pipe-separated tokens equals the scope, ignoring ASCII case.
pub open spec fn rule_enabled(when: Seq<char>, scope: Seq<char>) -> bool {
    let w = trim(when);
    w.len() == 0 || w == "*"@ || ieq(w, "any"@) || ieq(w, "all"@) || exists|i: int|
        0 <= i < tokens(w).len() && trim(#[trigger] tokens(w)[i]).len() > 0 && ieq(trim(tokens(w)[i]), scope)
}

/// Whether a token (trimmed) is non-empty and equals the scope.
fn token_matches(tok: &Vec<char>, scope: &Vec<char>) -> (r: bool)
    ensures
        r == (trim(tok@).len() > 0 && ieq(trim(tok@), scope@)),
{
    let t = trim_vec(tok);
    t.len() > 0 && ieq_exec(&t, scope)
}

/// Checks whether a rule with condition `when` is enabled for `scope`.
pub fn is_rule_enabled(when: &str, scope: &str) -> (r: bool)
    ensures
        r == rule_enabled(when@, scope@),
{
    let all = chars_of(when);
    let w = trim_vec(&all);
    let sc = chars_of(scope);
    let star = chars_of("*");
    let any = chars_of("any");
    let allw = chars_of("all");
    if w.len() == 0 || vec_eq(&w, &star) || ieq_exec(&w, &any) || ieq_exec(&w, &allw) {
        return true;
    }
    let ghost ws = w@;
    let mut done: Vec<Vec<char>> = Vec::new();
    let mut cur: Vec<char> = Vec::new();
    let mut i: usize = 0;
    while i < w.len()
        invariant
            i <= ws.len(),
            ws == w@,
            ws == trim(when@),
            sc@ == scope@,
            crate::text::lmodel(done@) == tokens_state(ws, i as nat).0,
            cur@ == tokens_state(ws, i as nat).1,
        decreases w.len() - i,
    {
        if w[i] == ',' || w[i] == '|' {
            let ghost d0 = done@;
            let c = cur;
            done.push(c);
            proof {
                crate::text::lemma_lmodel_push(d0, c);
            }
            cur = Vec::new();
        } else {
            cur.push(w[i]);
        }
        i += 1;
    }
    let ghost d0 = done@;
    let last = cur;
    done.push(last);
    proof {
        crate::text::lemma_lmodel_push(d0, last);
    }
    let ghost tk = tokens(ws);
    let mut k: usize = 0;
    while k < done.len()
        invariant
            k <= done@.len(),
            tk == tokens(ws),
            ws == trim(when@),
            crate::text::lmodel(done@) == tk,
            sc@ == scope@,
            forall|j: int| 0 <= j < k ==> !(trim(#[trigger] tk[j]).len() > 0 && ieq(trim(tk[j]), scope@)),
        decreases done.len() - k,
    {
        if token_matches(&done[k], &sc) {
            proof {
                assert(tk[k as int] == done@[k as int]@);
            }
            return true;
        }
        proof {
            assert(tk[k as int] == done@[k as int]@);
        }
        k += 1;
    }
    false
}

/// What `DefaultHasher` gives for a string.
pub uninterp spec fn hash_of(s: Seq<char>) -> u64;

/// Relies on `std::hash::DefaultHasher::new` (fixed keys), `<str as Hash>::hash`
/// and `Hasher::finish`: the hash is a function of the text alone.
#[verifier::external_body]
fn default_hash(s: &str) -> (r: u64)
    ensures
        r == hash_of(s@),
{
    let mut h = std::hash::DefaultHasher::new();
    std::hash::Hash::hash(s, &mut h);
    std::hash::Hasher::finish(&h)
}

/// A lower-case hexadecimal digit.
pub open spec fn hex_digit(d: nat) -> char {
    if d < 10 {
        ((48 + d) as u8) as char
    } else {
        ((87 + d) as u8) as char
    }
}

/// The `n` low hexadecimal digits of `v`, zero-padded.
pub open spec fn hex_fixed(v: nat, n: nat) -> Seq<char>
    decreases n,
{
    if n == 0 {
        Seq::empty()
    } else {
        hex_fixed(v / 16, (n - 1) as nat).push(hex_digit(v % 16))
    }
}

/// The decimal digits of `v`.
pub open spec fn decimal(v: nat) -> Seq<char>
    decreases v,
{
    if v < 10 {
        seq![hex_digit(v)]
    } else {
        decimal(v / 10).push(hex_digit(v % 10))
    }
}

fn digit_char(d: u64) -> (r: char)
    requires
        d < 16,
    ensures
        r == hex_digit(d as nat),
{
    if d < 10 {
        ((48 + d) as u8) as char
    } else {
        ((87 + d) as u8) as char
    }
}

fn hex_exec(v: u64, n: usize) -> (r: Vec<char>)
    ensures
        r@ == hex_fixed(v as nat, n as nat),
    decreases n,
{
    if n == 0 {
        Vec::new()
    } else {
        let mut r = hex_exec(v / 16, n - 1);
        r.push(digit_char(v % 16));
        r
    }
}

pub(crate) fn decimal_exec(v: u64) -> (r: Vec<char>)
    ensures
        r@ == decimal(v as nat),
    decreases v,
{
    if v < 10 {
        let mut r: Vec<char> = Vec::new();
        r.push(digit_char(v));
        proof {
            assert(r@ =~= seq![hex_digit(v as nat)]);
        }
        r
    } else {
        let mut r = decimal_exec(v / 10);
        r.push(digit_char(v % 10));
        r
    }
}

/// The fingerprint of a text: its hash in 16 hexadecimal digits, `-`, and its
/// length in UTF-8 bytes.
pub open spec fn fingerprint_spec(s: Seq<char>) -> Seq<char> {
    hex_fixed(hash_of(s) as nat, 16) + "-"@ + decimal((vstd::utf8::encode_utf8(s).len() as usize) as nat)
}

/// The fingerprint of a text, compared to detect that nothing changed.
pub fn fingerprint(s: &str) -> (r: String)
    ensures
        r@ == fingerprint_spec(s@),
{
    let h = default_hash(s);
    let mut v = hex_exec(h, 16);
    append_str(&mut v, "-");
    let n = s.len();
    let d = decimal_exec(n as u64);
    let mut i: usize = 0;
    let ghost v0 = v@;
    while i < d.len()
        invariant
            i <= d@.len(),
            v@ == v0 + d@.subrange(0, i as int),
        decreases d.len() - i,
    {
        v.push(d[i]);
        proof {
            assert(v@ =~= v0 + d@.subrange(0, i + 1));
        }
        i += 1;
    }
    proof {
        assert(d@.subrange(0, i as int) =~= d@);
        assert(v@ =~= fingerprint_spec(s@));
    }
    string_of(&v)
}

/// Whether a merged text must be written over the current one.
pub open spec fn needs_write_spec(out: Seq<char>, current: Option<Seq<char>>) -> bool {
    match current {
        Some(c) => fingerprint_spec(out) != fingerprint_spec(c),
        None => true,
    }
}

/// Whether the merged text `out` differs, by fingerprint, from the target's
/// current text (`None` when the target cannot be read).
pub fn needs_write(out: &str, current: Option<&str>) -> (r: bool)
    ensures
        r == needs_write_spec(out@, match current {
            Some(c) => Some(c@),
            None => None::<Seq<char>>,
        }),
{
    match current {
        Some(c) => {
            let a = fingerprint(out);
            let b = fingerprint(c);
            !str_eq(a.as_str(), b.as_str())
        },
        None => true,
    }
}

/// `rel` resolved against the directory `base`, as `Path::join` does for a
/// relative or an absolute `rel`.
pub open spec fn join_spec(base: Seq<char>, rel: Seq<char>) -> Seq<char> {
    if rel.len() > 0 && rel[0] == '/' {
        rel
    } else if base.len() == 0 {
        rel
    } else if base.last() == '/' {
        base + rel
    } else {
        base + "/"@ + rel
    }
}

/// Merge idempotence for writes: once the target holds the merged text, the
/// same merged text calls for no write.
pub proof fn lemma_no_write_when_unchanged(out: Seq<char>)
    ensures
        !needs_write_spec(out, Some(out)),
{
}

/// Joins a relative path to a base directory.
pub fn join_path(base: &str, rel: &str) -> (r: String)
    ensures
        r@ == join_spec(base@, rel@),
{
    let b = chars_of(base);
    let r = chars_of(rel);
    if r.len() > 0 && r[0] == '/' {
        return string_of(&r);
    }
    if b.len() == 0 {
        return string_of(&r);
    }
    let mut v = b;
    if v[v.len() - 1] != '/' {
        append_str(&mut v, "/");
    }
    append_str(&mut v, rel);
    string_of(&v)
}

/// A path given relative to the index file's directory.
pub fn resolve_path(idx_path: &str, rel: &str) -> (r: String)
    ensures
        r@ == join_spec(match parent_of(idx_path@) {
            Some(d) => d,
            None => "."@,
        }, rel@),
{
    match path_parent(idx_path) {
        Some(d) => join_path(d.as_str(), rel),
        None => join_path(".", rel),
    }
}

/// The fingerprint marker of a synchronized target: under
/// `.rigra/sync/checksums` in `root`, named by the target's relative path with
/// each `/` written `__`, and `.chk`.
pub fn checksum_path(root: &str, rel_target: &str) -> (r: String)
    ensures
        r@ == join_spec(
            join_spec(root@, ".rigra/sync/checksums"@),
            flatten_seps(rel_target@) + ".chk"@,
        ),
{
    let dir = join_path(root, ".rigra/sync/checksums");
    let t = chars_of(rel_target);
    let mut v: Vec<char> = Vec::new();
    let mut i: usize = 0;
    while i < t.len()
        invariant
            i <= t@.len(),
            v@ == flatten_seps(t@.subrange(0, i as int)),
        decreases t.len() - i,
    {
        proof {
            let w = t@.subrange(0, i + 1);
            assert(w.drop_last() =~= t@.subrange(0, i as int));
        }
        if t[i] == '/' {
            append_str(&mut v, "__");
        } else {
            v.push(t[i]);
        }
        i += 1;
    }
    proof {
        assert(t@.subrange(0, i as int) =~= t@);
    }
    append_str(&mut v, ".chk");
    let name = string_of(&v);
    join_path(dir.as_str(), name.as_str())
}

/// `s` with each `/` written `__`.
pub open spec fn flatten_seps(s: Seq<char>) -> Seq<char>
    decreases s.len(),
{
    if s.len() == 0 {
        s
    } else {
        flatten_seps(s.drop_last()) + if s.last() == '/' {
            "__"@
        } else {
            seq![s.last()]
        }
    }
}


/// A sync rule selected to run: its index among the rules, its resolved
/// source and target, and whether it merges structurally.
pub struct SyncPlan {
    pub rule: usize,
    pub source: String,
    pub target: String,
    pub merge: bool,
}

/// The client settings of the first entry under `id`.
pub open spec fn client_spec(cfg: Option<SyncCfg>, id: Seq<char>) -> Option<SyncClientCfg> {
    match cfg {
        Some(c) => match c.config {
            Some(v) => first_client(v@, id),
            None => None,
        },
        None => None,
    }
}

pub open spec fn first_client(v: Seq<(String, SyncClientCfg)>, id: Seq<char>) -> Option<SyncClientCfg>
    decreases v.len(),
{
    if v.len() == 0 {
        None
    } else if v[0].0@ == id {
        Some(v[0].1)
    } else {
        first_client(v.drop_first(), id)
    }
}

/// The client settings of a rule, if any.
pub fn client_for<'a>(cfg: &'a Option<SyncCfg>, id: &str) -> (r: Option<&'a SyncClientCfg>)
    ensures
        match r {
            Some(c) => client_spec(*cfg, id@) == Some(*c),
            None => client_spec(*cfg, id@) is None,
        },
{
    match cfg {
        Some(c) => match &c.config {
            Some(v) => {
                let mut i: usize = 0;
                proof {
                    assert(v@.subrange(0, v@.len() as int) =~= v@);
                }
                while i < v.len()
                    invariant
                        i <= v@.len(),
                        *cfg == Some(*c),
                        c.config == Some(*v),
                        first_client(v@, id@) == first_client(v@.subrange(i as int, v@.len() as int), id@),
                    decreases v.len() - i,
                {
                    proof {
                        let t = v@.subrange(i as int, v@.len() as int);
                        assert(t.drop_first() =~= v@.subrange(i + 1, v@.len() as int));
                    }
                    if str_eq(v[i].0.as_str(), id) {
                        proof {
                            let t = v@.subrange(i as int, v@.len() as int);
                            assert(t[0] == v@[i as int]);
                            assert(first_client(t, id@) == Some(v@[i as int].1));
                        }
                        return Some(&v[i].1);
                    }
                    i += 1;
                }
                None
            },
            None => None,
        },
        None => None,
    }
}

/// Whether a rule merges structurally: its format is `json` (any ASCII case)
/// and its client settings hold a merge policy.
pub open spec fn merge_spec_of(format: Option<String>, client: Option<SyncClientCfg>) -> bool {
    match format {
        Some(f) => ieq(f@, "json"@) && match client {
            Some(c) => c.merge is Some,
            None => false,
        },
        None => false,
    }
}

pub fn uses_merge(rule: &SyncRule, client: Option<&SyncClientCfg>) -> (r: bool)
    ensures
        r == merge_spec_of(rule.format, match client {
            Some(c) => Some(*c),
            None => None,
        }),
{
    match &rule.format {
        Some(f) => {
            let json = chars_of("json");
            if ieq_exec(&chars_of(f.as_str()), &json) {
                match client {
                    Some(c) => c.merge.is_some(),
                    None => false,
                }
            } else {
                false
            }
        },
        None => false,
    }
}

/// Whether `id` is listed as ignored.
pub open spec fn ignored(cfg: Option<SyncCfg>, id: Seq<char>) -> bool {
    match cfg {
        Some(c) => match c.ignore {
            Some(v) => exists|i: int| 0 <= i < v@.len() && (#[trigger] v@[i])@ == id,
            None => false,
        },
        None => false,
    }
}

fn is_ignored(cfg: &Option<SyncCfg>, id: &str) -> (r: bool)
    ensures
        r == ignored(*cfg, id@),
{
    match cfg {
        Some(c) => match &c.ignore {
            Some(v) => {
                let mut i: usize = 0;
                while i < v.len()
                    invariant
                        i <= v@.len(),
                        *cfg == Some(*c),
                        c.ignore == Some(*v),
                        forall|j: int| 0 <= j < i ==> (#[trigger] v@[j])@ != id@,
                    decreases v.len() - i,
                {
                    if str_eq(v[i].as_str(), id) {
                        proof {
                            assert(0 <= i < v@.len() && (v@[i as int])@ == id@);
                            let w = (*cfg)->Some_0.ignore->Some_0;
                            assert(w == *v);
                            assert(w@[i as int]@ == id@);
                            assert(ignored(*cfg, id@));
                        }
                        return true;
                    }
                    i += 1;
                }
                false
            },
            None => false,
        },
        None => false,
    }
}

/// Whether a rule runs: not ignored, and enabled for the scope.
pub open spec fn selected(rule: SyncRule, scope: Seq<char>, cfg: Option<SyncCfg>) -> bool {
    !ignored(cfg, rule.id@) && rule_enabled(rule.when@, scope)
}

/// The indices among the first `n` rules of those that run, in order.
pub open spec fn selected_rules(rules: Seq<SyncRule>, scope: Seq<char>, cfg: Option<SyncCfg>, n: nat) -> Seq<int>
    decreases n,
{
    if n == 0 || n > rules.len() {
        Seq::empty()
    } else {
        let r = selected_rules(rules, scope, cfg, (n - 1) as nat);
        if selected(rules[n - 1], scope, cfg) {
            r.push(n - 1)
        } else {
            r
        }
    }
}

/// The target of a rule: the client's override, else the rule's own, joined
/// to the root.
pub open spec fn target_spec(root: Seq<char>, rule: SyncRule, cfg: Option<SyncCfg>) -> Seq<char> {
    let t = match client_spec(cfg, rule.id@) {
        Some(c) => match c.target {
            Some(t) => t@,
            None => rule.target@,
        },
        None => rule.target@,
    };
    join_spec(root, t)
}

/// Chooses the sync rules that run under `scope`, in index order, with their
/// source resolved against the index file and their target against the root.
pub fn plan_sync(
    rules: &Vec<SyncRule>,
    idx_path: &str,
    root: &str,
    scope: &str,
    cfg: &Option<SyncCfg>,
) -> (r: Vec<SyncPlan>)
    ensures
        r@.map_values(|p: SyncPlan| p.rule as int) == selected_rules(rules@, scope@, *cfg, rules@.len()),
        forall|i: int| 0 <= i < r@.len() ==> {
            let p = #[trigger] r@[i];
            let rule = rules@[p.rule as int];
            &&& p.rule < rules@.len()
            &&& p.source@ == join_spec(match parent_of(idx_path@) {
                Some(d) => d,
                None => "."@,
            }, rule.source@)
            &&& p.target@ == target_spec(root@, rule, *cfg)
            &&& p.merge == merge_spec_of(rule.format, client_spec(*cfg, rule.id@))
        },
{
    let mut out: Vec<SyncPlan> = Vec::new();
    let mut i: usize = 0;
    proof {
        assert(out@.map_values(|p: SyncPlan| p.rule as int) =~= Seq::<int>::empty());
    }
    while i < rules.len()
        invariant
            i <= rules@.len(),
            out@.map_values(|p: SyncPlan| p.rule as int) == selected_rules(rules@, scope@, *cfg, i as nat),
            forall|k: int| 0 <= k < out@.len() ==> {
                let p = #[trigger] out@[k];
                let rule = rules@[p.rule as int];
                &&& p.rule < rules@.len()
                &&& p.source@ == join_spec(match parent_of(idx_path@) {
                    Some(d) => d,
                    None => "."@,
                }, rule.source@)
                &&& p.target@ == target_spec(root@, rule, *cfg)
                &&& p.merge == merge_spec_of(rule.format, client_spec(*cfg, rule.id@))
            },
        decreases rules.len() - i,
    {
        let rule = &rules[i];
        if !is_ignored(cfg, rule.id.as_str()) && is_rule_enabled(rule.when.as_str(), scope) {
            let source = resolve_path(idx_path, rule.source.as_str());
            let client = client_for(cfg, rule.id.as_str());
            let t = match client {
                Some(c) => match &c.target {
                    Some(t) => t.clone(),
                    None => rule.target.clone(),
                },
                None => rule.target.clone(),
            };
            let target = join_path(root, t.as_str());
            let merge = uses_merge(rule, client);
            let ghost o = out@;
            let p = SyncPlan { rule: i, source, target, merge };
            out.push(p);
            proof {
                assert(out@.map_values(|p: SyncPlan| p.rule as int) =~= o.map_values(|p: SyncPlan| p.rule as int).push(i as int));
            }
        }
        i += 1;
    }
    out
}


/// Scope gating: a rule whose condition is `repo` never runs for scope `lib`;
/// one whose condition is `*`, or empty, runs for every scope.
pub proof fn lemma_scope_gating(scope: Seq<char>)
    ensures
        !rule_enabled("repo"@, "lib"@),
        rule_enabled("*"@, scope),
        rule_enabled(""@, scope),
{
    reveal_strlit("repo");
    reveal_strlit("lib");
    reveal_strlit("*");
    reveal_strlit("");
    reveal_strlit("any");
    reveal_strlit("all");
    let r = "repo"@;
    assert(r.len() == 4);
    assert(!crate::text::is_white(r[0]));
    assert(trim_start(r) == r);
    assert(!crate::text::is_white(r.last()));
    assert(crate::text::trim_end(r) == r);
    assert(trim(r) == r);
    assert(r[0] == 'r' && r[1] == 'e' && r[2] == 'p' && r[3] == 'o');
    assert(tokens_state(r, 0) == (Seq::<Seq<char>>::empty(), Seq::<char>::empty()));
    assert(tokens_state(r, 1) == (Seq::<Seq<char>>::empty(), r.subrange(0, 1))) by {
        assert(Seq::<char>::empty().push(r[0]) =~= r.subrange(0, 1));
    }
    assert(tokens_state(r, 2) == (Seq::<Seq<char>>::empty(), r.subrange(0, 2))) by {
        assert(r.subrange(0, 1).push(r[1]) =~= r.subrange(0, 2));
    }
    assert(tokens_state(r, 3) == (Seq::<Seq<char>>::empty(), r.subrange(0, 3))) by {
        assert(r.subrange(0, 2).push(r[2]) =~= r.subrange(0, 3));
    }
    assert(tokens_state(r, 4) == (Seq::<Seq<char>>::empty(), r)) by {
        assert(r.subrange(0, 3).push(r[3]) =~= r);
    }
    assert(tokens(r) =~= seq![r]);
    assert(!ieq(r, "lib"@));
    assert(!ieq(r, "any"@));
    assert(!ieq(r, "all"@));
    assert(r != "*"@);
    let s = "*"@;
    assert(!crate::text::is_white(s[0]));
    assert(trim_start(s) == s);
    assert(crate::text::trim_end(s) == s);
    assert(trim(""@) =~= Seq::<char>::empty());
}

} // verus!
