//! Configuration records and the resolution of effective settings.
use vstd::prelude::*;
use crate::text::{append_str, chars_of, slice_vec, string_of};

verus! {

/// Formatting-related settings under `[format]`.
pub struct FormatCfg {
    pub write: Option<bool>,
    pub diff: Option<bool>,
    pub check: Option<bool>,
    pub strict_linebreak: Option<bool>,
    pub linebreak: Option<LineBreakCfg>,
}

/// Line-break settings that override a policy at run time.
pub struct LineBreakCfg {
    pub between_groups: Option<bool>,
    /// Field name and `keep` or another word meaning none.
    pub before_fields: Option<Vec<(String, String)>>,
    pub in_fields: Option<Vec<(String, String)>>,
}

/// The repository configuration file.
pub struct RigletConfig {
    pub index: Option<String>,
    pub scope: Option<String>,
    pub output: Option<String>,
    pub format: Option<FormatCfg>,
    /// Rule id and its pattern override.
    pub rules: Option<Vec<(String, RulePatternOverride)>>,
    pub conv: Option<ConvCfg>,
    pub sync: Option<SyncCfg>,
}

/// Settings after command-line flags, the configuration file and defaults.
pub struct Effective {
    pub repo_root: String,
    pub index: String,
    pub index_configured: bool,
    pub scope: String,
    pub output: String,
    pub write: bool,
    pub diff: bool,
    pub check: bool,
    pub strict_linebreak: bool,
    pub lb_between_groups: Option<bool>,
    pub lb_before_fields: Vec<(String, String)>,
    pub lb_in_fields: Vec<(String, String)>,
    pub pattern_overrides: Vec<(String, Vec<String>)>,
}

/// Patterns that replace a rule's own.
pub struct RulePatternOverride {
    pub patterns: Vec<String>,
}

/// Where a convention bundle comes from.
pub struct ConvCfg {
    pub auto_install: Option<bool>,
    /// Package with version, such as `@owner/name@v1` or `name@v1`.
    pub package: Option<String>,
    pub source: Option<String>,
    /// Path of the index inside the bundle (default `index.toml`).
    pub subpath: Option<String>,
}

/// The `[sync]` section.
pub struct SyncCfg {
    /// Rule id and its client settings.
    pub config: Option<Vec<(String, SyncClientCfg)>>,
    pub hooks: Option<SyncHooks>,
    pub write: Option<bool>,
    pub ignore: Option<Vec<String>>,
}

/// Commands run after a rule wrote.
pub struct SyncHooks {
    pub post: Option<Vec<(String, Vec<String>)>>,
}

/// Client settings of one sync rule.
pub struct SyncClientCfg {
    pub target: Option<String>,
    pub merge: Option<SyncClientMergeCfg>,
}

/// Per-path merge policy of one sync rule.
pub struct SyncClientMergeCfg {
    pub keep_paths: Vec<String>,
    pub override_paths: Vec<String>,
    pub nosync_paths: Vec<String>,
    /// Path and `union` or another word meaning replace.
    pub array: Option<Vec<(String, String)>>,
}


/// The index of the last `c` in `s`, or -1.
pub open spec fn last_index(s: Seq<char>, c: char) -> int
    decreases s.len(),
{
    if s.len() == 0 {
        -1
    } else if s.last() == c {
        s.len() - 1
    } else {
        last_index(s.drop_last(), c)
    }
}

proof fn lemma_last_index(s: Seq<char>, c: char)
    ensures
        -1 <= last_index(s, c) < s.len(),
        last_index(s, c) >= 0 ==> s[last_index(s, c)] == c,
        forall|i: int| last_index(s, c) < i < s.len() ==> #[trigger] s[i] != c,
    decreases s.len(),
{
    if s.len() > 0 && s.last() != c {
        lemma_last_index(s.drop_last(), c);
        assert forall|i: int| last_index(s, c) < i < s.len() implies #[trigger] s[i] != c by {
            if i < s.len() - 1 {
                assert(s[i] == s.drop_last()[i]);
            }
        }
    }
}

/// The parts of `s` before and after its last `ch`.
pub open spec fn rsplit_spec(s: Seq<char>, ch: char) -> Option<(Seq<char>, Seq<char>)> {
    let j = last_index(s, ch);
    if j < 0 {
        None
    } else {
        Some((s.subrange(0, j), s.subrange(j + 1, s.len() as int)))
    }
}

/// Splits `s` at its last `ch`.
pub fn rsplit_once_at(s: &str, ch: char) -> (r: Option<(String, String)>)
    ensures
        match r {
            Some(p) => rsplit_spec(s@, ch) == Some((p.0@, p.1@)),
            None => rsplit_spec(s@, ch) is None,
        },
{
    let v = chars_of(s);
    proof {
        lemma_last_index(v@, ch);
    }
    let mut j: usize = v.len();
    while j > 0 && v[j - 1] != ch
        invariant
            j <= v@.len(),
            forall|i: int| j <= i < v@.len() ==> v@[i] != ch,
            -1 <= last_index(v@, ch) < v@.len(),
            last_index(v@, ch) >= 0 ==> v@[last_index(v@, ch)] == ch,
            forall|i: int| last_index(v@, ch) < i < v@.len() ==> #[trigger] v@[i] != ch,
        decreases j,
    {
        j -= 1;
    }
    if j == 0 {
        proof {
            let q = last_index(v@, ch);
            if q >= 0 {
                assert(v@[q] != ch);
            }
        }
        None
    } else {
        proof {
            let q = last_index(v@, ch);
            assert(v@[j - 1] == ch);
            if q != j - 1 {
                if q > j - 1 {
                    assert(v@[q] != ch);
                } else {
                    assert(v@[j - 1] != ch);
                }
            }
        }
        let a = slice_vec(&v, 0, j - 1);
        let b = slice_vec(&v, j, v.len());
        Some((string_of(&a), string_of(&b)))
    }
}

/// Owner and repository of a package name: `@owner/repo` or `owner/repo`
/// split at the first `/`; a bare name stands for both.
pub open spec fn owner_repo_spec(name: Seq<char>) -> (Seq<char>, Seq<char>) {
    let s = if name.len() > 0 && name[0] == '@' { name.drop_first() } else { name };
    let j = crate::text::first_index(s, '/');
    if j < 0 {
        (s, s)
    } else {
        (s.subrange(0, j), s.subrange(j + 1, s.len() as int))
    }
}

/// Owner and repository of a package name.
pub fn package_owner_repo(name: &str) -> (r: Option<(String, String)>)
    ensures
        r is Some,
        r matches Some(p) ==> owner_repo_spec(name@) == (p.0@, p.1@),
{
    let v = chars_of(name);
    let s = if v.len() > 0 && v[0] == '@' {
        slice_vec(&v, 1, v.len())
    } else {
        v
    };
    proof {
        if name@.len() > 0 && name@[0] == '@' {
            assert(s@ =~= name@.drop_first());
        }
        crate::text::lemma_first_index(s@, '/');
    }
    let mut i: usize = 0;
    while i < s.len() && s[i] != '/'
        invariant
            i <= s@.len(),
            forall|q: int| 0 <= q < i ==> s@[q] != '/',
        decreases s.len() - i,
    {
        i += 1;
    }
    proof {
        let f = crate::text::first_index(s@, '/');
        if i < s@.len() {
            if f >= 0 && f < i {
                assert(s@[f] != '/');
            }
            if f < 0 {
                assert(s@[i as int] != '/');
            }
            if f > i {
                assert(s@[i as int] != '/');
            }
            assert(f == i);
        } else if f >= 0 {
            assert(s@[f] != '/');
        }
    }
    if i == s.len() {
        let a = string_of(&s);
        let b = string_of(&s);
        Some((a, b))
    } else {
        let a = slice_vec(&s, 0, i);
        let b = slice_vec(&s, i + 1, s.len());
        Some((string_of(&a), string_of(&b)))
    }
}

/// The root: the first of `ancestors` (the start, then each parent) that holds
/// a configuration file or `.git`, as `marked` tells; else the start.
pub fn detect_repo_root(ancestors: &Vec<String>, marked: &Vec<bool>) -> (r: String)
    requires
        ancestors@.len() > 0,
        ancestors@.len() == marked@.len(),
    ensures
        (exists|i: int| 0 <= i < marked@.len() && marked@[i]) ==> exists|i: int|
            0 <= i < marked@.len() && marked@[i] && r@ == ancestors@[i]@ && forall|j: int|
                0 <= j < i ==> !#[trigger] marked@[j],
        (forall|i: int| 0 <= i < marked@.len() ==> !#[trigger] marked@[i]) ==> r@ == ancestors@[0]@,
{
    let mut i: usize = 0;
    while i < ancestors.len()
        invariant
            i <= ancestors@.len(),
            ancestors@.len() == marked@.len(),
            forall|j: int| 0 <= j < i ==> !#[trigger] marked@[j],
        decreases ancestors.len() - i,
    {
        if marked[i] {
            return ancestors[i].clone();
        }
        i += 1;
    }
    ancestors[0].clone()
}

/// The cache path, relative to the root, of a convention bundle's file:
/// `.rigra/conv/<name with / as __>@<ver>/<subpath>`.
pub open spec fn conv_path_spec(name: Seq<char>, ver: Seq<char>, subpath: Seq<char>) -> Seq<char> {
    ".rigra/conv/"@ + crate::sync::flatten_seps(name) + "@"@ + ver + "/"@ + subpath
}

pub fn conv_path(name: &str, ver: &str, subpath: &str) -> (r: String)
    ensures
        r@ == conv_path_spec(name@, ver@, subpath@),
{
    let t = chars_of(name);
    let mut v: Vec<char> = Vec::new();
    append_str(&mut v, ".rigra/conv/");
    let ghost v0 = v@;
    let mut i: usize = 0;
    while i < t.len()
        invariant
            i <= t@.len(),
            t@ == name@,
            v@ == v0 + crate::sync::flatten_seps(t@.subrange(0, i as int)),
        decreases t.len() - i,
    {
        proof {
            let w = t@.subrange(0, i + 1);
            assert(w.drop_last() =~= t@.subrange(0, i as int));
        }
        if t[i] == '/' {
            append_str(&mut v, "__");
        } else {
            v.push(t[i]);
        }
        proof {
            assert(v@ =~= v0 + crate::sync::flatten_seps(t@.subrange(0, i + 1)));
        }
        i += 1;
    }
    proof {
        assert(t@.subrange(0, i as int) =~= t@);
    }
    append_str(&mut v, "@");
    append_str(&mut v, ver);
    append_str(&mut v, "/");
    append_str(&mut v, subpath);
    proof {
        assert(v@ =~= conv_path_spec(name@, ver@, subpath@));
    }
    string_of(&v)
}


/// A convention reference `conv:name@ver[:subpath]`: name, version and the
/// subpath (default `index.toml`).
pub open spec fn conv_ref_spec(s: Seq<char>) -> Option<(Seq<char>, Seq<char>, Seq<char>)> {
    if s.len() >= 5 && s.subrange(0, 5) == "conv:"@ {
        match rsplit_spec(s.subrange(5, s.len() as int), '@') {
            Some((n, vp)) => {
                let j = crate::text::first_index(vp, ':');
                if j < 0 {
                    Some((n, vp, "index.toml"@))
                } else {
                    Some((n, vp.subrange(0, j), vp.subrange(j + 1, vp.len() as int)))
                }
            },
            None => None,
        }
    } else {
        None
    }
}

/// Parses a convention reference.
pub fn parse_conv_ref(s: &str) -> (r: Option<(String, String, String)>)
    ensures
        match r {
            Some(t) => conv_ref_spec(s@) == Some((t.0@, t.1@, t.2@)),
            None => conv_ref_spec(s@) is None,
        },
{
    let v = chars_of(s);
    let prefix = chars_of("conv:");
    if v.len() < 5 {
        return None;
    }
    let head = slice_vec(&v, 0, 5);
    if !crate::text::vec_eq(&head, &prefix) {
        return None;
    }
    let rest = string_of(&slice_vec(&v, 5, v.len()));
    match rsplit_once_at(rest.as_str(), '@') {
        None => None,
        Some((n, vp)) => {
            let w = chars_of(vp.as_str());
            proof {
                crate::text::lemma_first_index(w@, ':');
            }
            let mut i: usize = 0;
            while i < w.len() && w[i] != ':'
                invariant
                    i <= w@.len(),
                    forall|q: int| 0 <= q < i ==> w@[q] != ':',
                decreases w.len() - i,
            {
                i += 1;
            }
            proof {
                let f = crate::text::first_index(w@, ':');
                if i < w@.len() {
                    if f >= 0 && f < i {
                        assert(w@[f] != ':');
                    }
                    if f < 0 || f > i {
                        assert(w@[i as int] != ':');
                    }
                } else if f >= 0 {
                    assert(w@[f] != ':');
                }
            }
            if i == w.len() {
                Some((n, vp, "index.toml".to_string()))
            } else {
                let a = string_of(&slice_vec(&w, 0, i));
                let b = string_of(&slice_vec(&w, i + 1, w.len()));
                Some((n, a, b))
            }
        },
    }
}

/// The value of an optional string, or `d`.
pub open spec fn str_or(o: Option<String>, d: Seq<char>) -> Seq<char> {
    match o {
        Some(s) => s@,
        None => d,
    }
}

/// The first present of two optional strings.
pub open spec fn first_str(a: Option<String>, b: Option<String>) -> Option<Seq<char>> {
    match a {
        Some(s) => Some(s@),
        None => match b {
            Some(s) => Some(s@),
            None => None,
        },
    }
}

/// The index setting and whether one was configured: a convention reference
/// becomes its cache path; without any index, a configured package with a
/// version gives the cache path of its index.
pub open spec fn index_spec(src: Option<Seq<char>>, conv: Option<ConvCfg>) -> (Seq<char>, bool) {
    match src {
        Some(s) => match conv_ref_spec(s) {
            Some((n, v, p)) => (conv_path_spec(n, v, p), true),
            None => (s, true),
        },
        None => match conv {
            Some(c) => match c.package {
                Some(pkg) => match rsplit_spec(pkg@, '@') {
                    Some((n, v)) => (conv_path_spec(n, v, str_or(c.subpath, "index.toml"@)), true),
                    None => (Seq::empty(), false),
                },
                None => (Seq::empty(), false),
            },
            None => (Seq::empty(), false),
        },
    }
}

/// A flag: the command line, else the configuration, else `d`.
pub open spec fn flag_or(cli: Option<bool>, cfg: Option<bool>, d: bool) -> bool {
    match cli {
        Some(b) => b,
        None => match cfg {
            Some(b) => b,
            None => d,
        },
    }
}

fn pick_str(a: Option<&str>, b: Option<String>, d: &str) -> (r: String)
    ensures
        r@ == match a {
            Some(s) => s@,
            None => str_or(b, d@),
        },
{
    match a {
        Some(s) => s.to_string(),
        None => match b {
            Some(x) => x,
            None => d.to_string(),
        },
    }
}

/// Resolves the effective settings from command-line values, the loaded
/// configuration (`None` when there is none) and the defaults: scope `repo`,
/// output `human`, write/diff/check off, strict line breaks on. The command
/// line wins over the configuration.
pub fn resolve_effective(
    repo_root: String,
    cfg: Option<RigletConfig>,
    cli_index: Option<&str>,
    cli_scope: Option<&str>,
    cli_output: Option<&str>,
    cli_write: Option<bool>,
    cli_diff: Option<bool>,
    cli_check: Option<bool>,
) -> (r: Effective)
    ensures
        r.repo_root == repo_root,
        (r.index@, r.index_configured) == index_spec(
            match cli_index {
                Some(s) => Some(s@),
                None => match cfg {
                    Some(c) => first_str(None, c.index),
                    None => None,
                },
            },
            match cfg {
                Some(c) => c.conv,
                None => None,
            },
        ),
        r.scope@ == match cli_scope {
            Some(s) => s@,
            None => match cfg {
                Some(c) => str_or(c.scope, "repo"@),
                None => "repo"@,
            },
        },
        r.output@ == match cli_output {
            Some(s) => s@,
            None => match cfg {
                Some(c) => str_or(c.output, "human"@),
                None => "human"@,
            },
        },
        ({
            let f = match cfg {
                Some(c) => c.format,
                None => None,
            };
            &&& r.write == flag_or(cli_write, match f { Some(x) => x.write, None => None }, false)
            &&& r.diff == flag_or(cli_diff, match f { Some(x) => x.diff, None => None }, false)
            &&& r.check == flag_or(cli_check, match f { Some(x) => x.check, None => None }, false)
            &&& r.strict_linebreak == flag_or(None, match f { Some(x) => x.strict_linebreak, None => None }, true)
            &&& r.lb_between_groups == match f {
                Some(x) => match x.linebreak {
                    Some(l) => l.between_groups,
                    None => None,
                },
                None => None,
            }
            &&& r.lb_before_fields@ == match f {
                Some(x) => match x.linebreak {
                    Some(l) => match l.before_fields {
                        Some(v) => v@,
                        None => Seq::empty(),
                    },
                    None => Seq::empty(),
                },
                None => Seq::empty(),
            }
            &&& r.lb_in_fields@ == match f {
                Some(x) => match x.linebreak {
                    Some(l) => match l.in_fields {
                        Some(v) => v@,
                        None => Seq::empty(),
                    },
                    None => Seq::empty(),
                },
                None => Seq::empty(),
            }
        }),
        r.pattern_overrides@ == match cfg {
            Some(c) => match c.rules {
                Some(rs) => rs@.map_values(|e: (String, RulePatternOverride)| (e.0, e.1.patterns)),
                None => Seq::empty(),
            },
            None => Seq::empty(),
        },
{
    let (index_cfg, scope_cfg, output_cfg, format, rules, conv) = match cfg {
        Some(c) => (c.index, c.scope, c.output, c.format, c.rules, c.conv),
        None => (None, None, None, None, None, None),
    };
    let index_src: Option<String> = match cli_index {
        Some(s) => Some(s.to_string()),
        None => index_cfg,
    };
    let scope = pick_str(cli_scope, scope_cfg, "repo");
    let output = pick_str(cli_output, output_cfg, "human");
    let (fw, fd, fc, fs, lb) = match format {
        Some(f) => (f.write, f.diff, f.check, f.strict_linebreak, f.linebreak),
        None => (None, None, None, None, None),
    };
    let write = match cli_write {
        Some(b) => b,
        None => match fw {
            Some(b) => b,
            None => false,
        },
    };
    let diff = match cli_diff {
        Some(b) => b,
        None => match fd {
            Some(b) => b,
            None => false,
        },
    };
    let check = match cli_check {
        Some(b) => b,
        None => match fc {
            Some(b) => b,
            None => false,
        },
    };
    let strict_linebreak = match fs {
        Some(b) => b,
        None => true,
    };
    let (lb_between_groups, lb_before_fields, lb_in_fields) = match lb {
        Some(l) => (
            l.between_groups,
            match l.before_fields {
                Some(v) => v,
                None => Vec::new(),
            },
            match l.in_fields {
                Some(v) => v,
                None => Vec::new(),
            },
        ),
        None => (None, Vec::new(), Vec::new()),
    };
    let mut pattern_overrides: Vec<(String, Vec<String>)> = Vec::new();
    match rules {
        Some(rs) => {
            let ghost all = rs@;
            let mut rs = rs;
            let mut taken: usize = 0;
            let total = rs.len();
            while rs.len() > 0
                invariant
                    taken + rs@.len() == all.len(),
                    all.len() == total,
                    rs@ == all.subrange(taken as int, all.len() as int),
                    pattern_overrides@ == all.subrange(0, taken as int).map_values(
                        |e: (String, RulePatternOverride)| (e.0, e.1.patterns),
                    ),
                decreases rs.len(),
            {
                let (id, ov) = rs.remove(0);
                pattern_overrides.push((id, ov.patterns));
                proof {
                    assert(pattern_overrides@ =~= all.subrange(0, taken + 1).map_values(
                        |e: (String, RulePatternOverride)| (e.0, e.1.patterns),
                    ));
                }
                taken += 1;
                proof {
                    assert(rs@ =~= all.subrange(taken as int, all.len() as int));
                }
            }
            proof {
                assert(all.subrange(0, taken as int) =~= all);
            }
        },
        None => {
            proof {
                assert(pattern_overrides@ =~= Seq::empty());
            }
        },
    }
    let (index, index_configured) = match index_src {
        Some(s) => match parse_conv_ref(s.as_str()) {
            Some((n, v, p)) => (conv_path(n.as_str(), v.as_str(), p.as_str()), true),
            None => (s, true),
        },
        None => {
            let mut out: (String, bool) = (String::new(), false);
            match conv {
                Some(c) => match c.package {
                    Some(pkg) => match rsplit_once_at(pkg.as_str(), '@') {
                        Some((n, v)) => {
                            let sub = match c.subpath {
                                Some(p) => p,
                                None => "index.toml".to_string(),
                            };
                            out = (conv_path(n.as_str(), v.as_str(), sub.as_str()), true);
                        },
                        None => {},
                    },
                    None => {},
                },
                None => {},
            }
            out
        },
    };
    Effective {
        repo_root,
        index,
        index_configured,
        scope,
        output,
        write,
        diff,
        check,
        strict_linebreak,
        lb_between_groups,
        lb_before_fields,
        lb_in_fields,
        pattern_overrides,
    }
}

} // verus!
