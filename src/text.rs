//! Character-level text helpers: trimming, lines, splitting and quoted keys.
use vstd::prelude::*;

verus! {

/// Relies on `str::chars`: the characters of the string, in order.
#[verifier::external_body]
pub(crate) fn chars_of(s: &str) -> (r: Vec<char>)
    ensures
        r@ == s@,
{
    s.chars().collect()
}

/// Relies on `FromIterator<char>` for `String`: the string of these characters.
#[verifier::external_body]
pub(crate) fn string_of(v: &Vec<char>) -> (r: String)
    ensures
        r@ == v@,
{
    v.iter().collect()
}

/// What `Path::parent` gives for a path, as text.
pub uninterp spec fn parent_of(path: Seq<char>) -> Option<Seq<char>>;

/// What `Path::file_name` gives for a path, as text.
pub uninterp spec fn file_name_of(path: Seq<char>) -> Option<Seq<char>>;

/// Relies on `Path::parent`: the directory part of a path, converted lossily.
#[verifier::external_body]
pub(crate) fn path_parent(path: &str) -> (r: Option<String>)
    ensures
        match r {
            Some(d) => parent_of(path@) == Some(d@),
            None => parent_of(path@) is None,
        },
{
    std::path::Path::new(path).parent().map(|p| p.to_string_lossy().to_string())
}

/// Relies on `Path::file_name`: the last component of a path, converted lossily.
#[verifier::external_body]
pub(crate) fn path_file_name(path: &str) -> (r: Option<String>)
    ensures
        match r {
            Some(d) => file_name_of(path@) == Some(d@),
            None => file_name_of(path@) is None,
        },
{
    std::path::Path::new(path).file_name().map(|p| p.to_string_lossy().to_string())
}

/// Unicode `White_Space`, as `char::is_whitespace` and `str::trim` use it.
pub open spec fn is_white(c: char) -> bool {
    ('\t' <= c && c <= '\r') || c == ' ' || c == '\u{85}' || c == '\u{a0}' || c == '\u{1680}'
        || ('\u{2000}' <= c && c <= '\u{200a}') || c == '\u{2028}' || c == '\u{2029}'
        || c == '\u{202f}' || c == '\u{205f}' || c == '\u{3000}'
}

pub fn is_white_exec(c: char) -> (r: bool)
    ensures
        r == is_white(c),
{
    ('\t' <= c && c <= '\r') || c == ' ' || c == '\u{85}' || c == '\u{a0}' || c == '\u{1680}'
        || ('\u{2000}' <= c && c <= '\u{200a}') || c == '\u{2028}' || c == '\u{2029}'
        || c == '\u{202f}' || c == '\u{205f}' || c == '\u{3000}'
}

/// `s` without its leading white space.
pub open spec fn trim_start(s: Seq<char>) -> Seq<char>
    decreases s.len(),
{
    if s.len() > 0 && is_white(s[0]) {
        trim_start(s.drop_first())
    } else {
        s
    }
}

/// `s` without its trailing white space.
pub open spec fn trim_end(s: Seq<char>) -> Seq<char>
    decreases s.len(),
{
    if s.len() > 0 && is_white(s.last()) {
        trim_end(s.drop_last())
    } else {
        s
    }
}

/// `s` without white space at either end.
pub open spec fn trim(s: Seq<char>) -> Seq<char> {
    trim_end(trim_start(s))
}

/// The number of leading white-space characters of `s`.
pub fn lead_white(s: &Vec<char>) -> (i: usize)
    ensures
        i <= s@.len(),
        trim_start(s@) == s@.subrange(i as int, s@.len() as int),
{
    let mut i: usize = 0;
    proof {
        assert(s@.subrange(0, s@.len() as int) =~= s@);
    }
    while i < s.len() && is_white_exec(s[i])
        invariant
            i <= s@.len(),
            trim_start(s@) == trim_start(s@.subrange(i as int, s@.len() as int)),
        decreases s.len() - i,
    {
        proof {
            let t = s@.subrange(i as int, s@.len() as int);
            assert(t.drop_first() =~= s@.subrange(i + 1, s@.len() as int));
        }
        i += 1;
    }
    proof {
        let t = s@.subrange(i as int, s@.len() as int);
        if i == s.len() {
            assert(t.len() == 0);
        }
    }
    i
}

/// The length of `s` once its trailing white space is dropped.
pub fn trail_white(s: &Vec<char>, lo: usize) -> (j: usize)
    requires
        lo <= s@.len(),
    ensures
        lo <= j <= s@.len(),
        trim_end(s@.subrange(lo as int, s@.len() as int)) == s@.subrange(lo as int, j as int),
{
    let mut j: usize = s.len();
    while j > lo && is_white_exec(s[j - 1])
        invariant
            lo <= j <= s@.len(),
            trim_end(s@.subrange(lo as int, s@.len() as int)) == trim_end(
                s@.subrange(lo as int, j as int),
            ),
        decreases j,
    {
        proof {
            let t = s@.subrange(lo as int, j as int);
            assert(t.drop_last() =~= s@.subrange(lo as int, j - 1));
        }
        j -= 1;
    }
    j
}

/// `s` with leading white space removed.
pub fn trim_start_vec(s: &Vec<char>) -> (r: Vec<char>)
    ensures
        r@ == trim_start(s@),
        r@.len() <= s@.len(),
{
    let i = lead_white(s);
    slice_vec(s, i, s.len())
}

/// `s` with white space at both ends removed.
pub fn trim_vec(s: &Vec<char>) -> (r: Vec<char>)
    ensures
        r@ == trim(s@),
{
    let i = lead_white(s);
    let j = trail_white(s, i);
    slice_vec(s, i, j)
}

/// The characters of `s` from `lo` up to `hi`.
pub fn slice_vec(s: &Vec<char>, lo: usize, hi: usize) -> (r: Vec<char>)
    requires
        lo <= hi <= s@.len(),
    ensures
        r@ == s@.subrange(lo as int, hi as int),
{
    let mut r: Vec<char> = Vec::new();
    let mut i: usize = lo;
    while i < hi
        invariant
            lo <= i <= hi,
            hi <= s@.len(),
            r@ == s@.subrange(lo as int, i as int),
        decreases hi - i,
    {
        r.push(s[i]);
        proof {
            assert(r@ =~= s@.subrange(lo as int, i + 1));
        }
        i += 1;
    }
    r
}

/// Whether `needle` occurs in `s` starting at `at`.
pub open spec fn occurs_at(s: Seq<char>, needle: Seq<char>, at: int) -> bool {
    0 <= at && at + needle.len() <= s.len() && s.subrange(at, at + needle.len()) == needle
}

/// Whether `needle` occurs anywhere in `s`.
pub open spec fn contains(s: Seq<char>, needle: Seq<char>) -> bool {
    exists|at: int| occurs_at(s, needle, at)
}

pub fn contains_exec(s: &Vec<char>, needle: &Vec<char>) -> (r: bool)
    ensures
        r == contains(s@, needle@),
{
    if needle.len() > s.len() {
        proof {
            assert forall|at: int| !occurs_at(s@, needle@, at) by {}
        }
        return false;
    }
    if needle.len() == 0 {
        proof {
            assert(s@.subrange(0, 0) =~= needle@);
            assert(occurs_at(s@, needle@, 0));
        }
        return true;
    }
    let last = s.len() - needle.len();
    let mut at: usize = 0;
    while at <= last
        invariant
            needle@.len() <= s@.len(),
            needle@.len() > 0,
            s@.len() <= usize::MAX,
            last == s@.len() - needle@.len(),
            at <= last + 1,
            forall|a: int| 0 <= a < at ==> !#[trigger] occurs_at(s@, needle@, a),
        decreases last + 1 - at,
    {
        let mut k: usize = 0;
        let mut ok = true;
        while k < needle.len()
            invariant
                at <= last,
                last < s@.len(),
                s@.len() <= usize::MAX,
                last == s@.len() - needle@.len(),
                needle@.len() <= s@.len(),
                at + needle@.len() <= s@.len(),
                k <= needle@.len(),
                ok ==> forall|q: int| 0 <= q < k ==> s@[at + q] == needle@[q],
                !ok ==> !occurs_at(s@, needle@, at as int),
            decreases needle.len() - k,
        {
            assert(at + k < s@.len());
            if s[at + k] != needle[k] {
                proof {
                    let sub = s@.subrange(at as int, at + needle@.len());
                    assert(sub[k as int] != needle@[k as int]);
                }
                ok = false;
            }
            k += 1;
        }
        if ok {
            proof {
                assert(s@.subrange(at as int, at + needle@.len()) =~= needle@);
                assert(occurs_at(s@, needle@, at as int));
            }
            return true;
        }
        at += 1;
    }
    proof {
        assert forall|a: int| !occurs_at(s@, needle@, a) by {
            if 0 <= a && a + needle@.len() <= s@.len() {
                assert(a < at);
            }
        }
    }
    false
}

/// Whether two character sequences are equal.
pub fn vec_eq(a: &Vec<char>, b: &Vec<char>) -> (r: bool)
    ensures
        r == (a@ == b@),
{
    if a.len() != b.len() {
        return false;
    }
    let mut i: usize = 0;
    while i < a.len()
        invariant
            i <= a@.len(),
            a@.len() == b@.len(),
            forall|j: int| 0 <= j < i ==> a@[j] == b@[j],
        decreases a.len() - i,
    {
        if a[i] != b[i] {
            return false;
        }
        i += 1;
    }
    proof {
        assert(a@ =~= b@);
    }
    true
}

/// Whether two strings are equal.
pub fn str_eq(a: &str, b: &str) -> (r: bool)
    ensures
        r == (a@ == b@),
{
    vec_eq(&chars_of(a), &chars_of(b))
}

/// The index of the first `c` in `s`, or -1.
pub open spec fn first_index(s: Seq<char>, c: char) -> int
    decreases s.len(),
{
    if s.len() == 0 {
        -1
    } else if first_index(s.drop_last(), c) >= 0 {
        first_index(s.drop_last(), c)
    } else if s.last() == c {
        s.len() - 1
    } else {
        -1
    }
}

pub proof fn lemma_first_index(s: Seq<char>, c: char)
    ensures
        -1 <= first_index(s, c) < s.len(),
        first_index(s, c) >= 0 ==> s[first_index(s, c)] == c,
        forall|i: int| 0 <= i < s.len() && (first_index(s, c) < 0 || i < first_index(s, c))
            ==> #[trigger] s[i] != c,
    decreases s.len(),
{
    if s.len() > 0 {
        lemma_first_index(s.drop_last(), c);
        assert forall|i: int| 0 <= i < s.len() - 1 implies #[trigger] s[i] == s.drop_last()[i] by {}
    }
}

/// The key of a line that starts (after indentation was trimmed) with a quoted
/// key: the text between the first two quotes.
pub open spec fn key_of(t: Seq<char>) -> Option<Seq<char>> {
    if t.len() > 0 && t[0] == '"' {
        let r = t.drop_first();
        let p = first_index(r, '"');
        if p >= 0 {
            Some(r.subrange(0, p))
        } else {
            None
        }
    } else {
        None
    }
}

pub fn key_of_exec(t: &Vec<char>) -> (r: Option<Vec<char>>)
    ensures
        match r {
            Some(k) => key_of(t@) == Some(k@),
            None => key_of(t@) is None,
        },
{
    if t.len() == 0 || t[0] != '"' {
        return None;
    }
    let ghost r = t@.drop_first();
    proof {
        lemma_first_index(r, '"');
    }
    let mut i: usize = 1;
    while i < t.len() && t[i] != '"'
        invariant
            1 <= i <= t@.len(),
            r == t@.drop_first(),
            forall|q: int| 0 <= q < i - 1 ==> r[q] != '"',
            -1 <= first_index(r, '"') < r.len(),
            first_index(r, '"') >= 0 ==> r[first_index(r, '"')] == '"',
            forall|q: int| 0 <= q < r.len() && (first_index(r, '"') < 0 || q < first_index(r, '"'))
                ==> #[trigger] r[q] != '"',
        decreases t.len() - i,
    {
        i += 1;
    }
    if i == t.len() {
        proof {
            let f = first_index(r, '"');
            if f >= 0 {
                assert(r[f] != '"');
            }
        }
        None
    } else {
        let k = slice_vec(t, 1, i);
        proof {
            let f = first_index(r, '"');
            assert(r[i - 1] == '"');
            if f >= 0 && f < i - 1 {
                assert(r[f] != '"');
            }
            assert(f == i - 1);
            assert(k@ =~= r.subrange(0, f));
        }
        Some(k)
    }
}

/// The number of `{` minus the number of `}` in `t`.
pub open spec fn brace_delta(t: Seq<char>) -> int
    decreases t.len(),
{
    if t.len() == 0 {
        0
    } else {
        brace_delta(t.drop_last()) + if t.last() == '{' {
            1int
        } else if t.last() == '}' {
            -1int
        } else {
            0int
        }
    }
}

pub fn brace_delta_exec(t: &Vec<char>) -> (r: i128)
    ensures
        r == brace_delta(t@),
        -(t@.len() as int) <= r <= t@.len(),
{
    let mut d: i128 = 0;
    let mut i: usize = 0;
    proof {
        assert(t@.subrange(0, 0) =~= Seq::<char>::empty());
    }
    while i < t.len()
        invariant
            i <= t@.len(),
            d == brace_delta(t@.subrange(0, i as int)),
            -(i as int) <= d <= i,
        decreases t.len() - i,
    {
        proof {
            let w = t@.subrange(0, i + 1);
            assert(w.drop_last() =~= t@.subrange(0, i as int));
        }
        if t[i] == '{' {
            d = d + 1;
        } else if t[i] == '}' {
            d = d - 1;
        }
        i += 1;
    }
    proof {
        assert(t@.subrange(0, i as int) =~= t@);
    }
    d
}

/// Appends the characters of `s`.
pub fn append_str(v: &mut Vec<char>, s: &str)
    ensures
        final(v)@ == old(v)@ + s@,
{
    let c = chars_of(s);
    let mut i: usize = 0;
    while i < c.len()
        invariant
            i <= c@.len(),
            c@ == s@,
            v@ == old(v)@ + c@.subrange(0, i as int),
        decreases c.len() - i,
    {
        v.push(c[i]);
        proof {
            assert(v@ =~= old(v)@ + c@.subrange(0, i + 1));
        }
        i += 1;
    }
    proof {
        assert(c@.subrange(0, i as int) =~= c@);
    }
}

/// Whether `c` occurs in `s`.
pub fn has_char(s: &Vec<char>, c: char) -> (r: bool)
    ensures
        r == s@.contains(c),
{
    let mut i: usize = 0;
    while i < s.len()
        invariant
            i <= s@.len(),
            forall|j: int| 0 <= j < i ==> s@[j] != c,
        decreases s.len() - i,
    {
        if s[i] == c {
            return true;
        }
        i += 1;
    }
    false
}

/// The line `l` as `str::lines` yields it: without the `\r` of a `\r\n` ending.
pub open spec fn strip_cr(l: Seq<char>) -> Seq<char> {
    if l.len() > 0 && l.last() == '\r' {
        l.drop_last()
    } else {
        l
    }
}

/// Lines ended so far and the line in progress, after the first `n` characters.
pub open spec fn lines_state(s: Seq<char>, n: nat) -> (Seq<Seq<char>>, Seq<char>)
    decreases n,
{
    if n == 0 || n > s.len() {
        (Seq::empty(), Seq::empty())
    } else {
        let (done, cur) = lines_state(s, (n - 1) as nat);
        if s[n - 1] == '\n' {
            (done.push(strip_cr(cur)), Seq::empty())
        } else {
            (done, cur.push(s[n - 1]))
        }
    }
}

/// The lines of `s` as `str::lines` yields them: split at `\n`, a `\r` before it
/// dropped, and no empty line after a final `\n`.
pub open spec fn lines(s: Seq<char>) -> Seq<Seq<char>> {
    let (done, cur) = lines_state(s, s.len());
    if cur.len() > 0 {
        done.push(cur)
    } else {
        done
    }
}

pub fn split_lines(s: &Vec<char>) -> (r: Vec<Vec<char>>)
    ensures
        r@.len() == lines(s@).len(),
        forall|i: int| 0 <= i < r@.len() ==> #[trigger] r@[i]@ == lines(s@)[i],
{
    let mut done: Vec<Vec<char>> = Vec::new();
    let mut cur: Vec<char> = Vec::new();
    let mut i: usize = 0;
    while i < s.len()
        invariant
            i <= s@.len(),
            done@.len() == lines_state(s@, i as nat).0.len(),
            forall|j: int| 0 <= j < done@.len() ==> #[trigger] done@[j]@ == lines_state(s@, i as nat).0[j],
            cur@ == lines_state(s@, i as nat).1,
        decreases s.len() - i,
    {
        if s[i] == '\n' {
            let n = cur.len();
            let line = if n > 0 && cur[n - 1] == '\r' {
                slice_vec(&cur, 0, n - 1)
            } else {
                cur
            };
            proof {
                if n > 0 && cur@[n - 1] == '\r' {
                    assert(cur@.drop_last() =~= cur@.subrange(0, n - 1));
                }
            }
            done.push(line);
            cur = Vec::new();
        } else {
            cur.push(s[i]);
        }
        i += 1;
    }
    if cur.len() > 0 {
        done.push(cur);
    }
    done
}

/// The total length of the lines.
pub open spec fn total_len(ls: Seq<Seq<char>>) -> int
    decreases ls.len(),
{
    if ls.len() == 0 {
        0
    } else {
        total_len(ls.drop_last()) + ls.last().len()
    }
}

pub proof fn lemma_total_push(ls: Seq<Seq<char>>, x: Seq<char>)
    ensures
        total_len(ls.push(x)) == total_len(ls) + x.len(),
{
    assert(ls.push(x).drop_last() =~= ls);
}

proof fn lemma_lines_state_len(s: Seq<char>, n: nat)
    requires
        n <= s.len(),
    ensures
        total_len(lines_state(s, n).0) + lines_state(s, n).1.len() <= n,
        total_len(lines_state(s, n).0) >= 0,
    decreases n,
{
    if n > 0 {
        lemma_lines_state_len(s, (n - 1) as nat);
        let (done, cur) = lines_state(s, (n - 1) as nat);
        lemma_total_push(done, strip_cr(cur));
    }
}

/// The lines of a text are no longer, together, than the text.
pub proof fn lemma_lines_len(s: Seq<char>)
    ensures
        0 <= total_len(lines(s)) <= s.len(),
{
    lemma_lines_state_len(s, s.len());
    let (done, cur) = lines_state(s, s.len());
    lemma_total_push(done, cur);
}

/// The models of lines held as character vectors.
pub open spec fn lmodel(v: Seq<Vec<char>>) -> Seq<Seq<char>> {
    v.map_values(|l: Vec<char>| l@)
}

pub proof fn lemma_lmodel_push(v: Seq<Vec<char>>, x: Vec<char>)
    ensures
        lmodel(v.push(x)) == lmodel(v).push(x@),
{
    let a = lmodel(v.push(x));
    let b = lmodel(v).push(x@);
    assert forall|i: int| 0 <= i < a.len() implies a[i] == b[i] by {
        if i < v.len() {
            assert(v.push(x)[i] == v[i]);
        }
    }
    assert(a =~= b);
}

/// The lines of a text, split as `str::lines` does.
pub fn text_lines(s: &str) -> (r: Vec<Vec<char>>)
    ensures
        lmodel(r@) == lines(s@),
        total_len(lines(s@)) <= s@.len(),
        s@.len() <= usize::MAX,
{
    let c = chars_of(s);
    let r = split_lines(&c);
    proof {
        assert(lmodel(r@) =~= lines(s@));
        lemma_lines_len(s@);
    }
    r
}

/// The lines joined with `\n`, as a string.
pub fn join_text(ls: &Vec<Vec<char>>) -> (r: String)
    ensures
        r@ == join_lines(lmodel(ls@)),
{
    let v = join_vec(ls);
    string_of(&v)
}

/// The lines joined with `\n` between them.
pub open spec fn join_lines(ls: Seq<Seq<char>>) -> Seq<char>
    decreases ls.len(),
{
    if ls.len() == 0 {
        Seq::empty()
    } else if ls.len() == 1 {
        ls[0]
    } else {
        join_lines(ls.drop_last()) + seq!['\n'] + ls.last()
    }
}

proof fn lemma_join_push(ls: Seq<Seq<char>>, x: Seq<char>)
    ensures
        join_lines(ls.push(x)) == if ls.len() == 0 {
            x
        } else {
            join_lines(ls) + seq!['\n'] + x
        },
{
    assert(ls.push(x).drop_last() =~= ls);
    if ls.len() == 0 {
        assert(ls.push(x)[0] == x);
    }
}

proof fn lemma_lines_state_join(s: Seq<char>, n: nat)
    requires
        n <= s.len(),
        !s.contains('\r'),
    ensures
        join_lines(lines_state(s, n).0.push(lines_state(s, n).1)) == s.subrange(0, n as int),
        lines_state(s, n).1.len() == 0 && n > 0 ==> s[n - 1] == '\n',
    decreases n,
{
    if n == 0 {
        lemma_join_push(Seq::empty(), Seq::empty());
        assert(s.subrange(0, 0) =~= Seq::<char>::empty());
    } else {
        lemma_lines_state_join(s, (n - 1) as nat);
        let (done, cur) = lines_state(s, (n - 1) as nat);
        let c = s[n - 1];
        assert(s.subrange(0, n as int) =~= s.subrange(0, n - 1) + seq![c]);
        if c == '\n' {
            if cur.len() > 0 {
                assert(cur.last() != '\r') by {
                    assert(!s.contains('\r'));
                    lemma_cur_no_cr(s, (n - 1) as nat);
                }
            }
            assert(strip_cr(cur) == cur);
            lemma_join_push(done.push(cur), Seq::empty());
            assert(join_lines(done.push(cur)) + seq!['\n'] + Seq::<char>::empty() =~= s.subrange(0, n - 1) + seq![c]);
        } else {
            lemma_join_push(done, cur);
            lemma_join_push(done, cur.push(c));
            if done.len() == 0 {
                assert(cur.push(c) =~= cur + seq![c]);
            } else {
                assert(join_lines(done) + seq!['\n'] + cur.push(c) =~= join_lines(done) + seq!['\n'] + cur + seq![c]);
            }
        }
    }
}

proof fn lemma_cur_no_cr(s: Seq<char>, n: nat)
    requires
        n <= s.len(),
        !s.contains('\r'),
    ensures
        forall|i: int| 0 <= i < lines_state(s, n).1.len() ==> lines_state(s, n).1[i] != '\r',
    decreases n,
{
    if n > 0 {
        lemma_cur_no_cr(s, (n - 1) as nat);
        let (done, cur) = lines_state(s, (n - 1) as nat);
        if s[n - 1] != '\n' {
            assert(s[n - 1] != '\r') by {
                if s[n - 1] == '\r' {
                    assert(s.contains('\r'));
                }
            }
            let nc = cur.push(s[n - 1]);
            assert forall|i: int| 0 <= i < nc.len() implies #[trigger] nc[i] != '\r' by {
                if i < cur.len() {
                    assert(nc[i] == cur[i]);
                }
            }
        }
    }
}

/// Text without `\r` and without a final `\n` is its lines joined with `\n`.
pub proof fn lemma_join_lines_of(s: Seq<char>)
    requires
        !s.contains('\r'),
        s.len() == 0 || s.last() != '\n',
    ensures
        join_lines(lines(s)) == s,
{
    lemma_lines_state_join(s, s.len());
    assert(s.subrange(0, s.len() as int) =~= s);
    let (done, cur) = lines_state(s, s.len());
    if cur.len() == 0 {
        if s.len() == 0 {
            assert(done.len() == 0) by {
                assert(lines_state(s, 0).0 =~= Seq::<Seq<char>>::empty());
            }
            lemma_join_push(done, cur);
        } else {
            assert(s[s.len() - 1] == '\n');
        }
    }
}

pub fn join_vec(ls: &Vec<Vec<char>>) -> (r: Vec<char>)
    ensures
        r@ == join_lines(ls@.map_values(|l: Vec<char>| l@)),
{
    let ghost m = ls@.map_values(|l: Vec<char>| l@);
    let mut r: Vec<char> = Vec::new();
    let mut i: usize = 0;
    while i < ls.len()
        invariant
            i <= ls@.len(),
            m == ls@.map_values(|l: Vec<char>| l@),
            r@ == join_lines(m.subrange(0, i as int)),
        decreases ls.len() - i,
    {
        if i > 0 {
            r.push('\n');
        }
        let mut k: usize = 0;
        let ghost r0 = r@;
        while k < ls[i].len()
            invariant
                i < ls@.len(),
                k <= ls@[i as int]@.len(),
                r@ == r0 + ls@[i as int]@.subrange(0, k as int),
            decreases ls[i as int]@.len() - k,
        {
            r.push(ls[i][k]);
            proof {
                assert(r@ =~= r0 + ls@[i as int]@.subrange(0, k + 1));
            }
            k += 1;
        }
        proof {
            let p = m.subrange(0, i + 1);
            assert(p.drop_last() =~= m.subrange(0, i as int));
            assert(ls@[i as int]@.subrange(0, k as int) =~= ls@[i as int]@);
            if i == 0 {
                assert(r@ =~= join_lines(p));
            } else {
                assert(r@ =~= join_lines(p));
            }
        }
        i += 1;
    }
    proof {
        assert(m.subrange(0, i as int) =~= m);
    }
    r
}

} // verus!
