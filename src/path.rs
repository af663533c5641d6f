//! Dotted paths into documents: parsing, reading and writing.
use vstd::prelude::*;
use crate::json::{
    drop_key, find_key, lemma_find_key, put,
    emodel, entries_model, find_entry, get_in, lemma_entries_model, opt_model, put_entry,
    remove_entry, seg_model, set_in, set_path_spec, JModel, Json,
};
use crate::text::{chars_of, slice_vec, string_of, trim, trim_vec};

verus! {

/// Pieces ended so far and the piece in progress after the first `n` characters,
/// splitting at `.` and dropping empty pieces.
pub open spec fn dots_state(s: Seq<char>, n: nat) -> (Seq<Seq<char>>, Seq<char>)
    decreases n,
{
    if n == 0 || n > s.len() {
        (Seq::empty(), Seq::empty())
    } else {
        let (done, cur) = dots_state(s, (n - 1) as nat);
        if s[n - 1] == '.' {
            (if cur.len() > 0 { done.push(cur) } else { done }, Seq::empty())
        } else {
            (done, cur.push(s[n - 1]))
        }
    }
}

/// The non-empty pieces of `s` between dots.
pub open spec fn split_dots(s: Seq<char>) -> Seq<Seq<char>> {
    let (done, cur) = dots_state(s, s.len());
    if cur.len() > 0 {
        done.push(cur)
    } else {
        done
    }
}

/// `s` without its leading `$` characters.
pub open spec fn strip_dollars(s: Seq<char>) -> Seq<char>
    decreases s.len(),
{
    if s.len() > 0 && s[0] == '$' {
        strip_dollars(s.drop_first())
    } else {
        s
    }
}

/// The keys of a path such as `$.a.b`: trimmed, leading `$` dropped, split at
/// dots, empty keys dropped (so leading dots do not count).
pub open spec fn path_segments(p: Seq<char>) -> Seq<Seq<char>> {
    split_dots(strip_dollars(trim(p)))
}

/// The keys of a dotted path.
pub fn parse_path(p: &str) -> (r: Vec<String>)
    ensures
        seg_model(r@) == path_segments(p@),
{
    let all = chars_of(p);
    let t = trim_vec(&all);
    let mut i: usize = 0;
    proof {
        assert(t@.subrange(0, t@.len() as int) =~= t@);
    }
    while i < t.len() && t[i] == '$'
        invariant
            i <= t@.len(),
            strip_dollars(t@) == strip_dollars(t@.subrange(i as int, t@.len() as int)),
        decreases t.len() - i,
    {
        proof {
            let u = t@.subrange(i as int, t@.len() as int);
            assert(u.drop_first() =~= t@.subrange(i + 1, t@.len() as int));
        }
        i += 1;
    }
    let body = slice_vec(&t, i, t.len());
    proof {
        if i == t.len() {
            assert(body@.len() == 0);
        }
    }
    let mut done: Vec<String> = Vec::new();
    let mut cur: Vec<char> = Vec::new();
    let mut k: usize = 0;
    while k < body.len()
        invariant
            k <= body@.len(),
            body@ == strip_dollars(trim(p@)),
            seg_model(done@) == dots_state(body@, k as nat).0,
            cur@ == dots_state(body@, k as nat).1,
        decreases body.len() - k,
    {
        if body[k] == '.' {
            if cur.len() > 0 {
                let piece = string_of(&cur);
                done.push(piece);
                proof {
                    assert(seg_model(done@) =~= dots_state(body@, k as nat).0.push(cur@));
                }
            }
            cur = Vec::new();
        } else {
            cur.push(body[k]);
        }
        k += 1;
    }
    if cur.len() > 0 {
        let piece = string_of(&cur);
        done.push(piece);
        proof {
            assert(seg_model(done@) =~= dots_state(body@, body@.len()).0.push(cur@));
        }
    }
    done
}

/// The value at `segs[i..]` below `doc`.
pub fn get_at<'a>(doc: &'a Json, segs: &Vec<String>, i: usize) -> (r: Option<&'a Json>)
    requires
        i <= segs@.len(),
    ensures
        get_in(doc.model(), seg_model(segs@).subrange(i as int, segs@.len() as int)) == match r {
            Some(v) => Some(v.model()),
            None => None::<JModel>,
        },
    decreases segs@.len() - i,
{
    let ghost rest = seg_model(segs@).subrange(i as int, segs@.len() as int);
    if i == segs.len() {
        return Some(doc);
    }
    proof {
        assert(rest.drop_first() =~= seg_model(segs@).subrange(i + 1, segs@.len() as int));
    }
    match doc {
        Json::Object(m) => {
            proof {
                lemma_entries_model(m@, m@.len());
            }
            match find_entry(m, &segs[i]) {
                Some(j) => get_at(&m[j].1, segs, i + 1),
                None => None,
            }
        },
        _ => None,
    }
}

/// The value at a dotted path, if every key on the way is found in an object.
pub fn get_path<'a>(doc: &'a Json, path: &str) -> (r: Option<&'a Json>)
    ensures
        get_in(doc.model(), path_segments(path@)) == match r {
            Some(v) => Some(v.model()),
            None => None::<JModel>,
        },
{
    let segs = parse_path(path);
    proof {
        assert(seg_model(segs@).subrange(0, segs@.len() as int) =~= seg_model(segs@));
    }
    get_at(doc, &segs, 0)
}

/// Sets or clears the value at `segs[i..]` (non-empty) below `cur`.
pub fn set_at(cur: Json, segs: &Vec<String>, i: usize, val: Option<Json>) -> (r: Json)
    requires
        i < segs@.len(),
    ensures
        r.model() == set_in(
            cur.model(),
            seg_model(segs@).subrange(i as int, segs@.len() as int),
            opt_model(val),
        ),
    decreases segs@.len() - i,
{
    let ghost rest = seg_model(segs@).subrange(i as int, segs@.len() as int);
    let ghost cm = cur.model();
    proof {
        assert(rest.drop_first() =~= seg_model(segs@).subrange(i + 1, segs@.len() as int));
    }
    match cur {
        Json::Object(mut m) => {
            proof {
                lemma_entries_model(m@, m@.len());
            }
            if i == segs.len() - 1 {
                match val {
                    Some(v) => put_entry(&mut m, &segs[i], v),
                    None => remove_entry(&mut m, &segs[i]),
                }
                Json::Object(m)
            } else {
                match find_entry(&m, &segs[i]) {
                    None if val.is_none() => Json::Object(m),
                    None => {
                        let child = set_at(Json::Object(Vec::new()), segs, i + 1, val);
                        let ghost om = m@;
                        m.push((segs[i].clone(), child));
                        proof {
                            lemma_entries_model(m@, m@.len());
                            lemma_entries_model(om, om.len());
                            assert(entries_model(Seq::<(String, Json)>::empty(), 0) =~= Seq::empty());
                            assert(emodel(m@) =~= emodel(om).push((rest[0], child.model())));
                        }
                        Json::Object(m)
                    },
                    Some(j) => {
                        let ghost om = m@;
                        let (k, child) = m.remove(j);
                        let nc = set_at(child, segs, i + 1, val);
                        let ghost ncm = nc.model();
                        m.insert(j, (k, nc));
                        proof {
                            lemma_entries_model(m@, m@.len());
                            lemma_entries_model(om, om.len());
                            assert(m@ =~= om.update(j as int, (om[j as int].0, nc)));
                            assert(emodel(m@) =~= emodel(om).update(
                                j as int,
                                (emodel(om)[j as int].0, ncm),
                            ));
                        }
                        Json::Object(m)
                    },
                }
            }
        },
        other => other,
    }
}

/// Sets (`Some`) or clears (`None`) the value at a dotted path of `doc`. The
/// empty path replaces the whole document (with `null` when clearing).
pub fn set_path(doc: Json, path: &str, val: Option<Json>) -> (r: Json)
    ensures
        r.model() == set_path_spec(doc.model(), path_segments(path@), opt_model(val)),
{
    let segs = parse_path(path);
    if segs.len() == 0 {
        match val {
            Some(v) => v,
            None => Json::Null,
        }
    } else {
        let r = set_at(doc, &segs, 0, val);
        proof {
            assert(seg_model(segs@).subrange(0, segs@.len() as int) =~= seg_model(segs@));
        }
        r
    }
}


/// No two entries share a key.
pub open spec fn keys_unique(m: Seq<(Seq<char>, JModel)>) -> bool {
    forall|i: int, j: int| 0 <= i < j < m.len() ==> (#[trigger] m[i]).0 != (#[trigger] m[j]).0
}

/// The value of the first entry under `k`.
pub open spec fn lookup(m: Seq<(Seq<char>, JModel)>, k: Seq<char>) -> Option<JModel> {
    let j = find_key(m, k);
    if j < 0 {
        None
    } else {
        Some(m[j].1)
    }
}

/// `a` is a prefix of `b`.
pub open spec fn is_prefix(a: Seq<Seq<char>>, b: Seq<Seq<char>>) -> bool {
    a.len() <= b.len() && b.subrange(0, a.len() as int) == a
}

/// Neither path is a prefix of the other.
pub open spec fn unrelated(p: Seq<Seq<char>>, q: Seq<Seq<char>>) -> bool {
    !is_prefix(p, q) && !is_prefix(q, p)
}

/// Every object met on the walk along `p` from `doc` has unique keys.
pub open spec fn unique_along(doc: JModel, p: Seq<Seq<char>>) -> bool
    decreases p.len(),
{
    match doc {
        JModel::Object(m) => keys_unique(m) && (p.len() > 1 ==> {
            let j = find_key(m, p[0]);
            j >= 0 ==> unique_along(m[j].1, p.drop_first())
        }),
        _ => true,
    }
}

/// The walk along `p` from `doc` meets only objects with unique keys, or keys
/// not yet there, up to the last key.
pub open spec fn open_path(doc: JModel, p: Seq<Seq<char>>) -> bool
    decreases p.len(),
{
    match doc {
        JModel::Object(m) => keys_unique(m) && (p.len() > 1 ==> {
            let j = find_key(m, p[0]);
            j >= 0 ==> open_path(m[j].1, p.drop_first())
        }),
        _ => false,
    }
}

/// `find_key` is the first index with the key.
proof fn lemma_find_first(m: Seq<(Seq<char>, JModel)>, k: Seq<char>, f: int)
    requires
        0 <= f < m.len(),
        m[f].0 == k,
        forall|i: int| 0 <= i < f ==> #[trigger] m[i].0 != k,
    ensures
        find_key(m, k) == f,
{
    lemma_find_key(m, k);
    let g = find_key(m, k);
    if g < 0 {
        assert(m[f].0 != k);
    } else if g < f {
        assert(m[g].0 != k);
    } else if g > f {
        assert(m[f].0 != k);
    }
}

proof fn lemma_find_none(m: Seq<(Seq<char>, JModel)>, k: Seq<char>)
    requires
        forall|i: int| 0 <= i < m.len() ==> #[trigger] m[i].0 != k,
    ensures
        find_key(m, k) < 0,
{
    lemma_find_key(m, k);
    if find_key(m, k) >= 0 {
        assert(m[find_key(m, k)].0 != k);
    }
}

/// Replacing the entry at `j` by one with the same key changes no lookup of
/// another key.
proof fn lemma_lookup_update_other(m: Seq<(Seq<char>, JModel)>, j: int, e: (Seq<char>, JModel), k: Seq<char>)
    requires
        0 <= j < m.len(),
        e.0 == m[j].0,
        m[j].0 != k,
    ensures
        lookup(m.update(j, e), k) == lookup(m, k),
{
    let n = m.update(j, e);
    lemma_find_key(m, k);
    let f = find_key(m, k);
    if f >= 0 {
        assert forall|i: int| 0 <= i < f implies #[trigger] n[i].0 != k by {
            assert(m[i].0 != k);
        }
        lemma_find_first(n, k, f);
    } else {
        assert forall|i: int| 0 <= i < n.len() implies #[trigger] n[i].0 != k by {
            assert(m[i].0 != k);
        }
        lemma_find_none(n, k);
    }
}

/// Appending an entry under another key changes no lookup.
proof fn lemma_lookup_push_other(m: Seq<(Seq<char>, JModel)>, e: (Seq<char>, JModel), k: Seq<char>)
    requires
        e.0 != k,
    ensures
        lookup(m.push(e), k) == lookup(m, k),
{
    let n = m.push(e);
    lemma_find_key(m, k);
    let f = find_key(m, k);
    if f >= 0 {
        assert forall|i: int| 0 <= i < f implies #[trigger] n[i].0 != k by {
            assert(m[i].0 != k);
        }
        lemma_find_first(n, k, f);
    } else {
        assert forall|i: int| 0 <= i < n.len() implies #[trigger] n[i].0 != k by {
            if i < m.len() {
                assert(m[i].0 != k);
            }
        }
        lemma_find_none(n, k);
    }
}

/// Removing the entry under `k` changes no lookup of another key, when keys
/// are unique.
proof fn lemma_lookup_drop_other(m: Seq<(Seq<char>, JModel)>, k: Seq<char>, k2: Seq<char>)
    requires
        k != k2,
        keys_unique(m),
    ensures
        lookup(drop_key(m, k), k2) == lookup(m, k2),
{
    lemma_find_key(m, k);
    lemma_find_key(m, k2);
    let j = find_key(m, k);
    if j >= 0 {
        let n = m.update(j, m.last()).drop_last();
        let l = m.len() - 1;
        let f = find_key(m, k2);
        if f < 0 {
            assert forall|i: int| 0 <= i < n.len() implies #[trigger] n[i].0 != k2 by {
                if i == j {
                    assert(m[l].0 != k2);
                } else {
                    assert(m[i].0 != k2);
                }
            }
            lemma_find_none(n, k2);
        } else if f == l {
            assert(j != l);
            assert forall|i: int| 0 <= i < j implies #[trigger] n[i].0 != k2 by {
                assert(m[i].0 != k2);
            }
            lemma_find_first(n, k2, j);
        } else {
            assert(f != j);
            assert forall|i: int| 0 <= i < f implies #[trigger] n[i].0 != k2 by {
                if i == j {
                    assert(m[l].0 != m[f].0);
                } else {
                    assert(m[i].0 != k2);
                }
            }
            lemma_find_first(n, k2, f);
        }
    }
}

/// Setting or clearing a path changes nothing at a path unrelated to it, when
/// the objects on the way to the latter have unique keys.
pub proof fn lemma_set_elsewhere(doc: JModel, q: Seq<Seq<char>>, v: Option<JModel>, p: Seq<Seq<char>>)
    requires
        q.len() > 0,
        unrelated(p, q),
        unique_along(doc, p),
    ensures
        get_in(set_in(doc, q, v), p) == get_in(doc, p),
    decreases q.len(),
{
    if p.len() == 0 {
        assert(q.subrange(0, 0) =~= p);
    }
    match doc {
        JModel::Object(m) => {
            if p[0] != q[0] {
                if q.len() == 1 {
                    match v {
                        Some(x) => {
                            let j = find_key(m, q[0]);
                            lemma_find_key(m, q[0]);
                            if j < 0 {
                                lemma_lookup_push_other(m, (q[0], x), p[0]);
                            } else {
                                lemma_lookup_update_other(m, j, (q[0], x), p[0]);
                            }
                        },
                        None => {
                            lemma_lookup_drop_other(m, q[0], p[0]);
                        },
                    }
                } else {
                    let j = find_key(m, q[0]);
                    lemma_find_key(m, q[0]);
                    if j < 0 {
                        lemma_lookup_push_other(
                            m,
                            (q[0], set_in(JModel::Object(Seq::empty()), q.drop_first(), v)),
                            p[0],
                        );
                    } else {
                        lemma_lookup_update_other(
                            m,
                            j,
                            (m[j].0, set_in(m[j].1, q.drop_first(), v)),
                            p[0],
                        );
                    }
                }
            } else {
                if p.len() == 1 {
                    assert(p =~= q.subrange(0, 1));
                }
                if q.len() == 1 {
                    assert(q =~= p.subrange(0, 1));
                }
                let p1 = p.drop_first();
                let q1 = q.drop_first();
                assert(unrelated(p1, q1)) by {
                    if is_prefix(p1, q1) {
                        assert forall|i: int| 0 <= i < p.len() implies q.subrange(0, p.len() as int)[i] == p[i] by {
                            if i > 0 {
                                assert(q1.subrange(0, p1.len() as int)[i - 1] == p1[i - 1]);
                            }
                        }
                        assert(q.subrange(0, p.len() as int) =~= p);
                    }
                    if is_prefix(q1, p1) {
                        assert forall|i: int| 0 <= i < q.len() implies p.subrange(0, q.len() as int)[i] == q[i] by {
                            if i > 0 {
                                assert(p1.subrange(0, q1.len() as int)[i - 1] == q1[i - 1]);
                            }
                        }
                        assert(p.subrange(0, q.len() as int) =~= q);
                    }
                }
                let j = find_key(m, q[0]);
                lemma_find_key(m, q[0]);
                if j < 0 {
                    let c = set_in(JModel::Object(Seq::empty()), q1, v);
                    let n = m.push((q[0], c));
                    assert forall|i: int| 0 <= i < m.len() implies #[trigger] n[i].0 != q[0] by {
                        assert(m[i].0 != q[0]);
                    }
                    lemma_find_first(n, q[0], m.len() as int);
                    lemma_set_elsewhere(JModel::Object(Seq::empty()), q1, v, p1);
                    assert(get_in(JModel::Object(Seq::<(Seq<char>, JModel)>::empty()), p1) == None::<JModel>) by {
                        lemma_find_key(Seq::<(Seq<char>, JModel)>::empty(), p1[0]);
                    }
                } else {
                    let c = set_in(m[j].1, q1, v);
                    let n = m.update(j, (m[j].0, c));
                    assert forall|i: int| 0 <= i < j implies #[trigger] n[i].0 != q[0] by {
                        assert(m[i].0 != q[0]);
                    }
                    lemma_find_first(n, q[0], j);
                    lemma_set_elsewhere(m[j].1, q1, v, p1);
                }
            }
        },
        _ => {},
    }
}

/// Setting a non-empty path along an open walk, then reading it, gives the
/// value set; clearing it leaves nothing there.
pub proof fn lemma_set_then_get(doc: JModel, q: Seq<Seq<char>>, v: Option<JModel>)
    requires
        q.len() > 0,
        open_path(doc, q),
    ensures
        get_in(set_in(doc, q, v), q) == v,
    decreases q.len(),
{
    if q.len() > 1 && v is None && doc is Object && find_key(doc->Object_0, q[0]) < 0 {
        assert(set_in(doc, q, v) == doc);
    } else {
        match doc {
            JModel::Object(m) => {
                let j = find_key(m, q[0]);
                lemma_find_key(m, q[0]);
                if q.len() == 1 {
                    assert(q.drop_first().len() == 0);
                    match v {
                        Some(x) => {
                            if j < 0 {
                                let n = m.push((q[0], x));
                                assert forall|i: int| 0 <= i < m.len() implies #[trigger] n[i].0 != q[0] by {
                                    assert(m[i].0 != q[0]);
                                }
                                lemma_find_first(n, q[0], m.len() as int);
                                assert(set_in(doc, q, v) == JModel::Object(n));
                                assert(get_in(JModel::Object(n), q) == get_in(n[m.len() as int].1, q.drop_first()));
                            } else {
                                let n = m.update(j, (q[0], x));
                                assert forall|i: int| 0 <= i < j implies #[trigger] n[i].0 != q[0] by {
                                    assert(m[i].0 != q[0]);
                                }
                                lemma_find_first(n, q[0], j);
                                assert(set_in(doc, q, v) == JModel::Object(n));
                                assert(get_in(JModel::Object(n), q) == get_in(n[j].1, q.drop_first()));
                            }
                        },
                        None => {
                            if j >= 0 {
                                let n = m.update(j, m.last()).drop_last();
                                let l = m.len() - 1;
                                assert forall|i: int| 0 <= i < n.len() implies #[trigger] n[i].0 != q[0] by {
                                    if i == j {
                                        assert(m[l].0 != m[j].0);
                                    } else {
                                        assert(m[i].0 != m[j].0);
                                    }
                                }
                                lemma_find_none(n, q[0]);
                                assert(set_in(doc, q, v) == JModel::Object(n));
                            } else {
                                assert(set_in(doc, q, v) == JModel::Object(m));
                            }
                        },
                    }
                } else {
                    let q1 = q.drop_first();
                    if j < 0 {
                        let c = set_in(JModel::Object(Seq::empty()), q1, v);
                        let n = m.push((q[0], c));
                        assert forall|i: int| 0 <= i < m.len() implies #[trigger] n[i].0 != q[0] by {
                            assert(m[i].0 != q[0]);
                        }
                        lemma_find_first(n, q[0], m.len() as int);
                        assert(set_in(doc, q, v) == JModel::Object(n));
                        assert(open_path(JModel::Object(Seq::<(Seq<char>, JModel)>::empty()), q1)) by {
                            lemma_find_key(Seq::<(Seq<char>, JModel)>::empty(), q1[0]);
                        }
                        lemma_set_then_get(JModel::Object(Seq::empty()), q1, v);
                    } else {
                        let c = set_in(m[j].1, q1, v);
                        let n = m.update(j, (m[j].0, c));
                        assert forall|i: int| 0 <= i < j implies #[trigger] n[i].0 != q[0] by {
                            assert(m[i].0 != q[0]);
                        }
                        lemma_find_first(n, q[0], j);
                        assert(set_in(doc, q, v) == JModel::Object(n));
                        lemma_set_then_get(m[j].1, q1, v);
                    }
                }
            },
            _ => {},
        }
    }
}


proof fn lemma_unique_put(m: Seq<(Seq<char>, JModel)>, k: Seq<char>, v: JModel)
    requires
        keys_unique(m),
    ensures
        keys_unique(put(m, k, v)),
{
    lemma_find_key(m, k);
    let j = find_key(m, k);
    let n = put(m, k, v);
    assert forall|a: int, b: int| 0 <= a < b < n.len() implies (#[trigger] n[a]).0 != (#[trigger] n[b]).0 by {
        if j < 0 {
            if b == m.len() {
                assert(m[a].0 != k);
            } else {
                assert(m[a].0 != m[b].0);
            }
        } else {
            assert(n[a].0 == m[a].0 && n[b].0 == m[b].0);
            assert(m[a].0 != m[b].0);
        }
    }
}

/// Removing a key keeps keys unique.
pub proof fn lemma_unique_drop(m: Seq<(Seq<char>, JModel)>, k: Seq<char>)
    requires
        keys_unique(m),
    ensures
        keys_unique(drop_key(m, k)),
{
    lemma_find_key(m, k);
    let j = find_key(m, k);
    if j >= 0 {
        let n = drop_key(m, k);
        let l = m.len() - 1;
        assert forall|a: int, b: int| 0 <= a < b < n.len() implies (#[trigger] n[a]).0 != (#[trigger] n[b]).0 by {
            if a == j {
                assert(m[l].0 != m[b].0);
            } else if b == j {
                assert(m[a].0 != m[l].0);
            } else {
                assert(m[a].0 != m[b].0);
            }
        }
    }
}

proof fn lemma_unique_update_same_key(m: Seq<(Seq<char>, JModel)>, j: int, e: (Seq<char>, JModel))
    requires
        keys_unique(m),
        0 <= j < m.len(),
        e.0 == m[j].0,
    ensures
        keys_unique(m.update(j, e)),
{
    let n = m.update(j, e);
    assert forall|a: int, b: int| 0 <= a < b < n.len() implies (#[trigger] n[a]).0 != (#[trigger] n[b]).0 by {
        assert(n[a].0 == m[a].0 && n[b].0 == m[b].0);
        assert(m[a].0 != m[b].0);
    }
}

proof fn lemma_unique_push_new(m: Seq<(Seq<char>, JModel)>, e: (Seq<char>, JModel))
    requires
        keys_unique(m),
        find_key(m, e.0) < 0,
    ensures
        keys_unique(m.push(e)),
{
    lemma_find_key(m, e.0);
    let n = m.push(e);
    assert forall|a: int, b: int| 0 <= a < b < n.len() implies (#[trigger] n[a]).0 != (#[trigger] n[b]).0 by {
        if b == m.len() {
            assert(m[a].0 != e.0);
        } else {
            assert(m[a].0 != m[b].0);
        }
    }
}

/// An open walk has unique keys along it.
pub proof fn lemma_open_unique(doc: JModel, p: Seq<Seq<char>>)
    requires
        open_path(doc, p),
    ensures
        unique_along(doc, p),
    decreases p.len(),
{
    match doc {
        JModel::Object(m) => {
            if p.len() > 1 {
                let j = find_key(m, p[0]);
                if j >= 0 {
                    lemma_open_unique(m[j].1, p.drop_first());
                }
            }
        },
        _ => {},
    }
}

/// Setting at a path keeps the walk along it open.
pub proof fn lemma_set_keeps_open(doc: JModel, p: Seq<Seq<char>>, v: Option<JModel>)
    requires
        p.len() > 0,
        open_path(doc, p),
    ensures
        open_path(set_in(doc, p, v), p),
    decreases p.len(),
{
    if p.len() > 1 && v is None && doc is Object && find_key(doc->Object_0, p[0]) < 0 {
        assert(set_in(doc, p, v) == doc);
    } else {
        match doc {
            JModel::Object(m) => {
                let j = find_key(m, p[0]);
                lemma_find_key(m, p[0]);
                if p.len() == 1 {
                    match v {
                        Some(x) => lemma_unique_put(m, p[0], x),
                        None => lemma_unique_drop(m, p[0]),
                    }
                } else {
                    let p1 = p.drop_first();
                    if j < 0 {
                        let c = set_in(JModel::Object(Seq::empty()), p1, v);
                        let n = m.push((p[0], c));
                        lemma_unique_push_new(m, (p[0], c));
                        assert forall|i: int| 0 <= i < m.len() implies #[trigger] n[i].0 != p[0] by {
                            assert(m[i].0 != p[0]);
                        }
                        lemma_find_first(n, p[0], m.len() as int);
                        assert(open_path(JModel::Object(Seq::<(Seq<char>, JModel)>::empty()), p1)) by {
                            lemma_find_key(Seq::<(Seq<char>, JModel)>::empty(), p1[0]);
                        }
                        lemma_set_keeps_open(JModel::Object(Seq::empty()), p1, v);
                        assert(set_in(doc, p, v) == JModel::Object(n));
                    } else {
                        let c = set_in(m[j].1, p1, v);
                        let n = m.update(j, (m[j].0, c));
                        lemma_unique_update_same_key(m, j, (m[j].0, c));
                        assert forall|i: int| 0 <= i < j implies #[trigger] n[i].0 != p[0] by {
                            assert(m[i].0 != p[0]);
                        }
                        lemma_find_first(n, p[0], j);
                        lemma_set_keeps_open(m[j].1, p1, v);
                        assert(set_in(doc, p, v) == JModel::Object(n));
                    }
                }
            },
            _ => {},
        }
    }
}

/// Setting at an unrelated path keeps a walk open.
pub proof fn lemma_set_elsewhere_open(doc: JModel, q: Seq<Seq<char>>, v: Option<JModel>, p: Seq<Seq<char>>)
    requires
        q.len() > 0,
        unrelated(p, q),
        open_path(doc, p),
    ensures
        open_path(set_in(doc, q, v), p),
    decreases q.len(),
{
    if q.len() > 1 && v is None && doc is Object && find_key(doc->Object_0, q[0]) < 0 {
        assert(set_in(doc, q, v) == doc);
    } else {
        if p.len() == 0 {
            assert(q.subrange(0, 0) =~= p);
        }
        match doc {
            JModel::Object(m) => {
                let j = find_key(m, q[0]);
                lemma_find_key(m, q[0]);
                if q.len() == 1 {
                    match v {
                        Some(x) => lemma_unique_put(m, q[0], x),
                        None => lemma_unique_drop(m, q[0]),
                    }
                    if p[0] == q[0] {
                        assert(q =~= p.subrange(0, 1));
                    }
                    if p.len() > 1 {
                        match v {
                            Some(x) => {
                                if j < 0 {
                                    lemma_lookup_push_other(m, (q[0], x), p[0]);
                                } else {
                                    lemma_lookup_update_other(m, j, (q[0], x), p[0]);
                                }
                            },
                            None => lemma_lookup_drop_other(m, q[0], p[0]),
                        }
                        let n = set_in(doc, q, v)->Object_0;
                        lemma_find_key(n, p[0]);
                        lemma_find_key(m, p[0]);
                    }
                } else {
                    let q1 = q.drop_first();
                    let n = set_in(doc, q, v)->Object_0;
                    if j < 0 {
                        let c = set_in(JModel::Object(Seq::empty()), q1, v);
                        lemma_unique_push_new(m, (q[0], c));
                        assert(n == m.push((q[0], c)));
                    } else {
                        let c = set_in(m[j].1, q1, v);
                        lemma_unique_update_same_key(m, j, (m[j].0, c));
                        assert(n == m.update(j, (m[j].0, c)));
                    }
                    if p.len() > 1 {
                        if p[0] != q[0] {
                            if j < 0 {
                                lemma_lookup_push_other(m, (q[0], set_in(JModel::Object(Seq::empty()), q1, v)), p[0]);
                            } else {
                                lemma_lookup_update_other(m, j, (m[j].0, set_in(m[j].1, q1, v)), p[0]);
                            }
                            lemma_find_key(n, p[0]);
                            lemma_find_key(m, p[0]);
                        } else {
                            let p1 = p.drop_first();
                            assert(unrelated(p1, q1)) by {
                                if is_prefix(p1, q1) {
                                    assert forall|i: int| 0 <= i < p.len() implies q.subrange(0, p.len() as int)[i] == p[i] by {
                                        if i > 0 {
                                            assert(q1.subrange(0, p1.len() as int)[i - 1] == p1[i - 1]);
                                        }
                                    }
                                    assert(q.subrange(0, p.len() as int) =~= p);
                                }
                                if is_prefix(q1, p1) {
                                    assert forall|i: int| 0 <= i < q.len() implies p.subrange(0, q.len() as int)[i] == q[i] by {
                                        if i > 0 {
                                            assert(p1.subrange(0, q1.len() as int)[i - 1] == q1[i - 1]);
                                        }
                                    }
                                    assert(p.subrange(0, q.len() as int) =~= q);
                                }
                            }
                            if j < 0 {
                                assert forall|i: int| 0 <= i < m.len() implies #[trigger] n[i].0 != q[0] by {
                                    assert(m[i].0 != q[0]);
                                }
                                lemma_find_first(n, q[0], m.len() as int);
                                assert(open_path(JModel::Object(Seq::<(Seq<char>, JModel)>::empty()), p1)) by {
                                    lemma_find_key(Seq::<(Seq<char>, JModel)>::empty(), p1[0]);
                                }
                                lemma_set_elsewhere_open(JModel::Object(Seq::empty()), q1, v, p1);
                            } else {
                                assert forall|i: int| 0 <= i < j implies #[trigger] n[i].0 != q[0] by {
                                    assert(m[i].0 != q[0]);
                                }
                                lemma_find_first(n, q[0], j);
                                lemma_set_elsewhere_open(m[j].1, q1, v, p1);
                            }
                        }
                    }
                }
            },
            _ => {},
        }
    }
}

} // verus!
