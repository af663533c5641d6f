//! Key-order normalization of a document's top-level object.
use vstd::prelude::*;
use crate::json::{lemma_find_key, lemma_seg_push, emodel, find_entry, find_key, drop_key, lemma_entries_model, seg_model, JModel, Json};
use crate::text::chars_of;

verus! {

/// An entry of an object's model.
pub type Entry = (Seq<char>, JModel);

/// Strict lexicographic order of keys by character code, as `String`'s `Ord`.
pub open spec fn key_lt(a: Seq<char>, b: Seq<char>) -> bool
    decreases a.len(),
{
    if b.len() == 0 {
        false
    } else if a.len() == 0 {
        true
    } else if (a[0] as u32) < (b[0] as u32) {
        true
    } else if a[0] == b[0] {
        key_lt(a.drop_first(), b.drop_first())
    } else {
        false
    }
}

/// `x` placed before the first key of `s` that is greater than it.
pub open spec fn insert_sorted(s: Seq<Seq<char>>, x: Seq<char>) -> Seq<Seq<char>>
    decreases s.len(),
{
    if s.len() == 0 {
        seq![x]
    } else if key_lt(x, s[0]) {
        seq![x] + s
    } else {
        seq![s[0]] + insert_sorted(s.drop_first(), x)
    }
}

/// The keys in ascending order (insertion sort, stable).
pub open spec fn sort_keys(s: Seq<Seq<char>>) -> Seq<Seq<char>>
    decreases s.len(),
{
    if s.len() == 0 {
        Seq::empty()
    } else {
        insert_sorted(sort_keys(s.drop_last()), s.last())
    }
}

/// No key of `s` is greater than a later one.
pub open spec fn is_sorted(s: Seq<Seq<char>>) -> bool {
    forall|i: int, j: int| 0 <= i < j < s.len() ==> !key_lt(#[trigger] s[j], #[trigger] s[i])
}

/// Moves the entry under `k`, if any, from the remaining entries to the end of
/// the picked ones.
pub open spec fn take_key(st: (Seq<Entry>, Seq<Entry>), k: Seq<char>) -> (Seq<Entry>, Seq<Entry>) {
    let j = find_key(st.1, k);
    if j < 0 {
        st
    } else {
        (st.0.push(st.1[j]), drop_key(st.1, k))
    }
}

/// Takes each key of `ks`, in order.
pub open spec fn take_all(st: (Seq<Entry>, Seq<Entry>), ks: Seq<Seq<char>>) -> (Seq<Entry>, Seq<Entry>)
    decreases ks.len(),
{
    if ks.len() == 0 {
        st
    } else {
        take_key(take_all(st, ks.drop_last()), ks.last())
    }
}

/// The keys of entries.
pub open spec fn keys_of(m: Seq<Entry>) -> Seq<Seq<char>> {
    m.map_values(|e: Entry| e.0)
}

/// The sequences one after another.
pub open spec fn concat_all(s: Seq<Seq<Seq<char>>>) -> Seq<Seq<char>>
    decreases s.len(),
{
    if s.len() == 0 {
        Seq::empty()
    } else {
        concat_all(s.drop_last()) + s.last()
    }
}

/// The declared keys: the top groups in order, then the named sub-orders.
pub open spec fn group_keys(top: Seq<Vec<String>>, sub: Seq<(String, Vec<String>)>) -> Seq<Seq<char>> {
    concat_all(top.map_values(|g: Vec<String>| seg_model(g@)))
        + concat_all(sub.map_values(|e: (String, Vec<String>)| seg_model(e.1@)))
}

/// Entries picked by the declared keys, and those left over.
pub open spec fn group_phase(m: Seq<Entry>, gk: Seq<Seq<char>>) -> (Seq<Entry>, Seq<Entry>) {
    take_all((Seq::empty(), m), gk)
}

/// The normalized entries: declared keys first, in declared order, then the
/// remaining keys in ascending order.
pub open spec fn normalized(m: Seq<Entry>, gk: Seq<Seq<char>>) -> Seq<Entry> {
    let st = group_phase(m, gk);
    take_all(st, sort_keys(keys_of(st.1))).0
}

/// Whether `a` sorts before `b`.
pub fn key_less(a: &String, b: &String) -> (r: bool)
    ensures
        r == key_lt(a@, b@),
{
    let x = chars_of(a.as_str());
    let y = chars_of(b.as_str());
    let mut i: usize = 0;
    proof {
        assert(x@.subrange(0, x@.len() as int) =~= x@);
        assert(y@.subrange(0, y@.len() as int) =~= y@);
    }
    while i < x.len() && i < y.len() && x[i] == y[i]
        invariant
            i <= x@.len(),
            i <= y@.len(),
            key_lt(a@, b@) == key_lt(x@.subrange(i as int, x@.len() as int), y@.subrange(i as int, y@.len() as int)),
        decreases x.len() - i,
    {
        proof {
            let u = x@.subrange(i as int, x@.len() as int);
            let v = y@.subrange(i as int, y@.len() as int);
            assert(u.drop_first() =~= x@.subrange(i + 1, x@.len() as int));
            assert(v.drop_first() =~= y@.subrange(i + 1, y@.len() as int));
        }
        i += 1;
    }
    proof {
        assert(x@.subrange(0, x@.len() as int) =~= x@);
        assert(y@.subrange(0, y@.len() as int) =~= y@);
    }
    if i == y.len() {
        false
    } else if i == x.len() {
        true
    } else {
        (x[i] as u32) < (y[i] as u32)
    }
}

proof fn lemma_insert_sorted_at(s: Seq<Seq<char>>, x: Seq<char>, p: int)
    requires
        0 <= p <= s.len(),
        forall|q: int| 0 <= q < p ==> !key_lt(x, #[trigger] s[q]),
        p < s.len() ==> key_lt(x, s[p]),
    ensures
        insert_sorted(s, x) == s.insert(p, x),
    decreases s.len(),
{
    if s.len() == 0 {
        assert(seq![x] =~= s.insert(p, x));
    } else if p == 0 {
        assert(seq![x] + s =~= s.insert(p, x));
    } else {
        let t = s.drop_first();
        assert forall|q: int| 0 <= q < p - 1 implies !key_lt(x, #[trigger] t[q]) by {
            assert(t[q] == s[q + 1]);
        }
        lemma_insert_sorted_at(t, x, p - 1);
        assert(seq![s[0]] + t.insert(p - 1, x) =~= s.insert(p, x));
    }
}

/// The keys sorted ascending.
pub fn sort_strings(v: &Vec<String>) -> (r: Vec<String>)
    ensures
        seg_model(r@) == sort_keys(seg_model(v@)),
{
    let mut out: Vec<String> = Vec::new();
    let mut i: usize = 0;
    while i < v.len()
        invariant
            i <= v@.len(),
            seg_model(out@) == sort_keys(seg_model(v@.subrange(0, i as int))),
        decreases v.len() - i,
    {
        let x = &v[i];
        let mut p: usize = 0;
        while p < out.len() && !key_less(x, &out[p])
            invariant
                p <= out@.len(),
                forall|q: int| 0 <= q < p ==> !key_lt(x@, #[trigger] seg_model(out@)[q]),
            decreases out.len() - p,
        {
            p += 1;
        }
        let ghost before = seg_model(out@);
        proof {
            lemma_insert_sorted_at(before, x@, p as int);
        }
        out.insert(p, x.clone());
        proof {
            assert(seg_model(out@) =~= before.insert(p as int, x@));
            let w = seg_model(v@.subrange(0, i + 1));
            assert(w.drop_last() =~= seg_model(v@.subrange(0, i as int)));
        }
        i += 1;
    }
    proof {
        assert(v@.subrange(0, i as int) =~= v@);
    }
    out
}


/// Appends each group's keys to `out`.
fn push_groups(out: &mut Vec<String>, groups: &Vec<Vec<String>>)
    ensures
        seg_model(final(out)@) == seg_model(old(out)@) + concat_all(
            groups@.map_values(|g: Vec<String>| seg_model(g@)),
        ),
{
    let ghost o0 = seg_model(out@);
    let ghost gm = groups@.map_values(|g: Vec<String>| seg_model(g@));
    let mut i: usize = 0;
    proof {
        assert(gm.subrange(0, 0) =~= Seq::<Seq<Seq<char>>>::empty());
        assert(o0 + concat_all(gm.subrange(0, 0)) =~= o0);
    }
    while i < groups.len()
        invariant
            i <= groups@.len(),
            gm == groups@.map_values(|g: Vec<String>| seg_model(g@)),
            seg_model(out@) == o0 + concat_all(gm.subrange(0, i as int)),
        decreases groups.len() - i,
    {
        let ghost g = groups@[i as int];
        let ghost before = seg_model(out@);
        let mut k: usize = 0;
        proof {
            assert(before + seg_model(g@).subrange(0, 0) =~= before);
        }
        while k < groups[i].len()
            invariant
                i < groups@.len(),
                k <= g@.len(),
                g == groups@[i as int],
                seg_model(out@) == before + seg_model(g@).subrange(0, k as int),
            decreases g@.len() - k,
        {
            let c = groups[i][k].clone();
            let ghost o1 = out@;
            out.push(c);
            proof {
                assert(out@ == o1.push(c));
                assert(c@ == g@[k as int]@);
                lemma_seg_push(o1, c);
                assert(seg_model(g@).subrange(0, k + 1) =~= seg_model(g@).subrange(0, k as int).push(c@));
                assert(seg_model(out@) =~= before + seg_model(g@).subrange(0, k + 1));
            }
            k += 1;
        }
        proof {
            let p = gm.subrange(0, i + 1);
            assert(p.drop_last() =~= gm.subrange(0, i as int));
            assert(seg_model(g@).subrange(0, k as int) =~= seg_model(g@));
            assert(seg_model(out@) =~= o0 + concat_all(p));
        }
        i += 1;
    }
    proof {
        assert(gm.subrange(0, i as int) =~= gm);
    }
}

/// The declared keys of an order policy.
pub fn group_key_list(top: &Vec<Vec<String>>, sub: &Vec<(String, Vec<String>)>) -> (r: Vec<String>)
    ensures
        seg_model(r@) == group_keys(top@, sub@),
{
    let mut out: Vec<String> = Vec::new();
    push_groups(&mut out, top);
    let ghost mid = seg_model(out@);
    let mut sv: Vec<Vec<String>> = Vec::new();
    let mut i: usize = 0;
    while i < sub.len()
        invariant
            i <= sub@.len(),
            sv@.len() == i,
            forall|j: int| 0 <= j < i ==> #[trigger] seg_model(sv@[j]@) == seg_model(sub@[j].1@),
        decreases sub.len() - i,
    {
        sv.push(sub[i].1.clone());
        i += 1;
    }
    push_groups(&mut out, &sv);
    proof {
        assert(sv@.map_values(|g: Vec<String>| seg_model(g@)) =~= sub@.map_values(
            |e: (String, Vec<String>)| seg_model(e.1@),
        ));
        assert(seg_model(Seq::<String>::empty()) =~= Seq::empty());
        assert(seg_model(out@) =~= group_keys(top@, sub@));
    }
    out
}

/// Takes each key of `ks` in order from `obj` into `picked`.
fn take_keys(obj: &mut Vec<(String, Json)>, picked: &mut Vec<(String, Json)>, ks: &Vec<String>)
    ensures
        (emodel(final(picked)@), emodel(final(obj)@)) == take_all(
            (emodel(old(picked)@), emodel(old(obj)@)),
            seg_model(ks@),
        ),
{
    let ghost st0 = (emodel(picked@), emodel(obj@));
    let mut i: usize = 0;
    proof {
        assert(seg_model(ks@).subrange(0, 0) =~= Seq::<Seq<char>>::empty());
    }
    while i < ks.len()
        invariant
            i <= ks@.len(),
            (emodel(picked@), emodel(obj@)) == take_all(st0, seg_model(ks@).subrange(0, i as int)),
        decreases ks.len() - i,
    {
        proof {
            lemma_entries_model(obj@, obj@.len());
            lemma_entries_model(picked@, picked@.len());
            let w = seg_model(ks@).subrange(0, i + 1);
            assert(w.drop_last() =~= seg_model(ks@).subrange(0, i as int));
        }
        let ghost om = emodel(obj@);
        let ghost pm = emodel(picked@);
        match find_entry(obj, &ks[i]) {
            Some(j) => {
                let e = obj.swap_remove(j);
                let ghost em = (e.0@, e.1.model());
                picked.push(e);
                proof {
                    lemma_entries_model(obj@, obj@.len());
                    lemma_entries_model(picked@, picked@.len());
                    assert(em == om[j as int]);
                    assert(emodel(picked@) =~= pm.push(om[j as int]));
                    assert(emodel(obj@) =~= om.update(j as int, om.last()).drop_last());
                }
            },
            None => {},
        }
        i += 1;
    }
    proof {
        assert(seg_model(ks@).subrange(0, i as int) =~= seg_model(ks@));
    }
}

/// The keys of an object's entries.
pub fn entry_keys(m: &Vec<(String, Json)>) -> (r: Vec<String>)
    ensures
        seg_model(r@) == keys_of(emodel(m@)),
{
    proof {
        lemma_entries_model(m@, m@.len());
    }
    let mut r: Vec<String> = Vec::new();
    let mut i: usize = 0;
    while i < m.len()
        invariant
            i <= m@.len(),
            emodel(m@).len() == m@.len(),
            forall|j: int| 0 <= j < m@.len() ==> #[trigger] emodel(m@)[j].0 == m@[j].0@,
            seg_model(r@) == keys_of(emodel(m@)).subrange(0, i as int),
        decreases m.len() - i,
    {
        let c = m[i].0.clone();
        let ghost r1 = r@;
        r.push(c);
        proof {
            assert(r@ == r1.push(c));
            assert(keys_of(emodel(m@))[i as int] == emodel(m@)[i as int].0);
            lemma_seg_push(r1, c);
            assert(keys_of(emodel(m@)).subrange(0, i + 1) =~= keys_of(emodel(m@)).subrange(0, i as int).push(c@));
            assert(seg_model(r@) =~= keys_of(emodel(m@)).subrange(0, i + 1));
        }
        i += 1;
    }
    proof {
        assert(keys_of(emodel(m@)).subrange(0, i as int) =~= keys_of(emodel(m@)));
    }
    r
}

/// Reorders the top-level object of `json`: the keys of `top`, group by group,
/// then those of `sub`, each moved to the end as it is found; then the other
/// keys in ascending order. Returns whether any declared key was found.
/// Nested values are left as they are; a non-object is left unchanged.
pub fn apply_order_from(json: &mut Json, top: &Vec<Vec<String>>, sub: &Vec<(String, Vec<String>)>) -> (changed: bool)
    ensures
        match *old(json) {
            Json::Object(m) => {
                &&& *final(json) is Object
                &&& emodel((*final(json))->Object_0@) == normalized(emodel(m@), group_keys(top@, sub@))
                &&& changed == (group_phase(emodel(m@), group_keys(top@, sub@)).0.len() > 0)
            },
            _ => *final(json) == *old(json) && !changed,
        },
{
    match json {
        Json::Object(obj) => {
            let gk = group_key_list(top, sub);
            let mut picked: Vec<(String, Json)> = Vec::new();
            proof {
                lemma_entries_model(picked@, 0);
                assert(emodel(picked@) =~= Seq::empty());
            }
            take_keys(obj, &mut picked, &gk);
            proof {
                lemma_entries_model(picked@, picked@.len());
            }
            let changed = picked.len() > 0;
            let rest = entry_keys(obj);
            let sorted = sort_strings(&rest);
            take_keys(obj, &mut picked, &sorted);
            *obj = picked;
            changed
        },
        _ => false,
    }
}


/// The declared keys that `keys` holds, each once, in declared order.
pub open spec fn first_present(gk: Seq<Seq<char>>, keys: Seq<Seq<char>>) -> Seq<Seq<char>>
    decreases gk.len(),
{
    if gk.len() == 0 {
        Seq::empty()
    } else {
        let r = first_present(gk.drop_last(), keys);
        let k = gk.last();
        if keys.contains(k) && !r.contains(k) {
            r.push(k)
        } else {
            r
        }
    }
}

/// No key occurs twice.
pub open spec fn distinct(s: Seq<Seq<char>>) -> bool {
    forall|i: int, j: int| 0 <= i < j < s.len() ==> s[i] != s[j]
}

proof fn lemma_keys_push(m: Seq<Entry>, e: Entry)
    ensures
        keys_of(m.push(e)) == keys_of(m).push(e.0),
{
    assert(keys_of(m.push(e)) =~= keys_of(m).push(e.0));
}

proof fn lemma_keys_distinct(m: Seq<Entry>)
    requires
        crate::path::keys_unique(m),
    ensures
        distinct(keys_of(m)),
{
    assert forall|i: int, j: int| 0 <= i < j < keys_of(m).len() implies keys_of(m)[i] != keys_of(m)[j] by {
        assert(m[i].0 != m[j].0);
    }
}

proof fn lemma_contains_find(m: Seq<Entry>, k: Seq<char>)
    ensures
        keys_of(m).contains(k) <==> find_key(m, k) >= 0,
{
    lemma_find_key(m, k);
    if keys_of(m).contains(k) {
        let i = choose|i: int| 0 <= i < keys_of(m).len() && keys_of(m)[i] == k;
        assert(m[i].0 == k);
    }
    if find_key(m, k) >= 0 {
        assert(keys_of(m)[find_key(m, k)] == k);
    }
}

/// Taking a key moves it from the remaining keys to the end of the picked ones.
proof fn lemma_take_key(st: (Seq<Entry>, Seq<Entry>), k: Seq<char>)
    requires
        crate::path::keys_unique(st.1),
    ensures
        crate::path::keys_unique(take_key(st, k).1),
        keys_of(take_key(st, k).0) == if keys_of(st.1).contains(k) {
            keys_of(st.0).push(k)
        } else {
            keys_of(st.0)
        },
        forall|y: Seq<char>| #[trigger] keys_of(take_key(st, k).1).contains(y) <==> keys_of(st.1).contains(y) && y != k,
{
    lemma_contains_find(st.1, k);
    lemma_find_key(st.1, k);
    let m = st.1;
    let j = find_key(m, k);
    if j >= 0 {
        crate::path::lemma_unique_drop(m, k);
        lemma_keys_push(st.0, m[j]);
        let n = drop_key(m, k);
        let l = m.len() - 1;
        assert forall|y: Seq<char>| #[trigger] keys_of(n).contains(y) <==> keys_of(m).contains(y) && y != k by {
            if keys_of(n).contains(y) {
                let i = choose|i: int| 0 <= i < keys_of(n).len() && keys_of(n)[i] == y;
                if i == j {
                    assert(keys_of(m)[l] == y);
                    assert(m[l].0 != m[j].0);
                } else {
                    assert(keys_of(m)[i] == y);
                    assert(m[i].0 != m[j].0);
                }
            }
            if keys_of(m).contains(y) && y != k {
                let i = choose|i: int| 0 <= i < keys_of(m).len() && keys_of(m)[i] == y;
                assert(i != j);
                if i == l {
                    assert(keys_of(n)[j] == y);
                } else {
                    assert(keys_of(n)[i] == y);
                }
            }
        }
    } else {
        assert forall|y: Seq<char>| #[trigger] keys_of(m).contains(y) implies y != k by {}
    }
}

/// The declared phase picks the declared keys present, each once, in declared
/// order, and leaves exactly the other keys.
proof fn lemma_group_phase(m: Seq<Entry>, gk: Seq<Seq<char>>)
    requires
        crate::path::keys_unique(m),
    ensures
        keys_of(take_all((Seq::empty(), m), gk).0) == first_present(gk, keys_of(m)),
        crate::path::keys_unique(take_all((Seq::empty(), m), gk).1),
        forall|y: Seq<char>| #[trigger] keys_of(take_all((Seq::empty(), m), gk).1).contains(y)
            <==> keys_of(m).contains(y) && !first_present(gk, keys_of(m)).contains(y),
    decreases gk.len(),
{
    if gk.len() == 0 {
        assert(keys_of(Seq::<Entry>::empty()) =~= Seq::empty());
    } else {
        lemma_group_phase(m, gk.drop_last());
        let st = take_all((Seq::empty(), m), gk.drop_last());
        let k = gk.last();
        lemma_take_key(st, k);
        let r = first_present(gk.drop_last(), keys_of(m));
        assert forall|y: Seq<char>| #[trigger] keys_of(take_key(st, k).1).contains(y)
            <==> keys_of(m).contains(y) && !first_present(gk, keys_of(m)).contains(y) by {
            if keys_of(m).contains(k) && !r.contains(k) {
                assert(first_present(gk, keys_of(m)) == r.push(k));
                if r.push(k).contains(y) && y != k {
                    let i = choose|i: int| 0 <= i < r.push(k).len() && r.push(k)[i] == y;
                    assert(r[i] == y);
                }
                if r.contains(y) {
                    let i = choose|i: int| 0 <= i < r.len() && r[i] == y;
                    assert(r.push(k)[i] == y);
                }
                assert(r.push(k)[r.len() as int] == k);
            }
        }
    }
}

/// Taking distinct keys that all remain picks them in that order.
proof fn lemma_take_listed(st: (Seq<Entry>, Seq<Entry>), ks: Seq<Seq<char>>)
    requires
        crate::path::keys_unique(st.1),
        distinct(ks),
        forall|i: int| 0 <= i < ks.len() ==> keys_of(st.1).contains(#[trigger] ks[i]),
    ensures
        keys_of(take_all(st, ks).0) == keys_of(st.0) + ks,
        crate::path::keys_unique(take_all(st, ks).1),
        forall|y: Seq<char>| #[trigger] keys_of(take_all(st, ks).1).contains(y)
            <==> keys_of(st.1).contains(y) && !ks.contains(y),
    decreases ks.len(),
{
    if ks.len() == 0 {
        assert(keys_of(st.0) + ks =~= keys_of(st.0));
    } else {
        let ks1 = ks.drop_last();
        assert forall|i: int| 0 <= i < ks1.len() implies keys_of(st.1).contains(#[trigger] ks1[i]) by {
            assert(ks1[i] == ks[i]);
        }
        lemma_take_listed(st, ks1);
        let t = take_all(st, ks1);
        let k = ks.last();
        assert(keys_of(st.1).contains(ks[ks.len() - 1]));
        if ks1.contains(k) {
            let i = choose|i: int| 0 <= i < ks1.len() && ks1[i] == k;
            assert(ks[i] == ks[ks.len() - 1]);
        }
        lemma_take_key(t, k);
        assert(keys_of(st.0) + ks =~= (keys_of(st.0) + ks1).push(k));
        assert forall|y: Seq<char>| #[trigger] keys_of(take_key(t, k).1).contains(y)
            <==> keys_of(st.1).contains(y) && !ks.contains(y) by {
            if ks.contains(y) && y != k {
                let i = choose|i: int| 0 <= i < ks.len() && ks[i] == y;
                assert(ks1[i] == y);
            }
            if ks1.contains(y) {
                let i = choose|i: int| 0 <= i < ks1.len() && ks1[i] == y;
                assert(ks[i] == y);
            }
            assert(ks[ks.len() - 1] == k);
        }
    }
}

proof fn lemma_insert_sorted_elems(s: Seq<Seq<char>>, x: Seq<char>)
    ensures
        insert_sorted(s, x).len() == s.len() + 1,
        forall|y: Seq<char>| #[trigger] insert_sorted(s, x).contains(y) <==> s.contains(y) || y == x,
        distinct(s) && !s.contains(x) ==> distinct(insert_sorted(s, x)),
    decreases s.len(),
{
    if s.len() == 0 {
        assert(insert_sorted(s, x) =~= seq![x]);
        assert forall|y: Seq<char>| #[trigger] insert_sorted(s, x).contains(y) <==> s.contains(y) || y == x by {
            if y == x {
                assert(insert_sorted(s, x)[0] == x);
            }
        }
    } else if key_lt(x, s[0]) {
        let r = seq![x] + s;
        assert forall|y: Seq<char>| #[trigger] r.contains(y) <==> s.contains(y) || y == x by {
            if r.contains(y) {
                let i = choose|i: int| 0 <= i < r.len() && r[i] == y;
                if i > 0 {
                    assert(s[i - 1] == y);
                }
            }
            if s.contains(y) {
                let i = choose|i: int| 0 <= i < s.len() && s[i] == y;
                assert(r[i + 1] == y);
            }
            assert(r[0] == x);
        }
        if distinct(s) && !s.contains(x) {
            assert forall|i: int, j: int| 0 <= i < j < r.len() implies r[i] != r[j] by {
                if i == 0 {
                    assert(r[j] == s[j - 1]);
                } else {
                    assert(r[i] == s[i - 1] && r[j] == s[j - 1]);
                }
            }
        }
    } else {
        let t = s.drop_first();
        lemma_insert_sorted_elems(t, x);
        let it = insert_sorted(t, x);
        let r = seq![s[0]] + it;
        assert forall|y: Seq<char>| #[trigger] r.contains(y) <==> s.contains(y) || y == x by {
            if r.contains(y) {
                let i = choose|i: int| 0 <= i < r.len() && r[i] == y;
                if i > 0 {
                    assert(it[i - 1] == y);
                    assert(it.contains(y));
                    if t.contains(y) {
                        let q = choose|q: int| 0 <= q < t.len() && t[q] == y;
                        assert(s[q + 1] == y);
                    }
                } else {
                    assert(s[0] == y);
                }
            }
            if s.contains(y) {
                let i = choose|i: int| 0 <= i < s.len() && s[i] == y;
                if i == 0 {
                    assert(r[0] == y);
                } else {
                    assert(t[i - 1] == y);
                    assert(it.contains(y));
                    let q = choose|q: int| 0 <= q < it.len() && it[q] == y;
                    assert(r[q + 1] == y);
                }
            }
            if y == x {
                assert(it.contains(x));
                let q = choose|q: int| 0 <= q < it.len() && it[q] == x;
                assert(r[q + 1] == x);
            }
        }
        if distinct(s) && !s.contains(x) {
            assert(distinct(t)) by {
                assert forall|i: int, j: int| 0 <= i < j < t.len() implies t[i] != t[j] by {
                    assert(t[i] == s[i + 1] && t[j] == s[j + 1]);
                }
            }
            assert(!t.contains(x)) by {
                if t.contains(x) {
                    let q = choose|q: int| 0 <= q < t.len() && t[q] == x;
                    assert(s[q + 1] == x);
                }
            }
            assert forall|i: int, j: int| 0 <= i < j < r.len() implies r[i] != r[j] by {
                if i == 0 {
                    assert(r[j] == it[j - 1]);
                    if it[j - 1] == s[0] {
                        assert(it.contains(s[0]));
                        if t.contains(s[0]) {
                            let q = choose|q: int| 0 <= q < t.len() && t[q] == s[0];
                            assert(s[q + 1] == s[0]);
                        }
                        assert(s[0] != x);
                    }
                } else {
                    assert(r[i] == it[i - 1] && r[j] == it[j - 1]);
                }
            }
        }
    }
}

/// Sorting keeps the keys: the same ones, each as often (for distinct keys).
proof fn lemma_sort_elems(s: Seq<Seq<char>>)
    ensures
        sort_keys(s).len() == s.len(),
        forall|y: Seq<char>| #[trigger] sort_keys(s).contains(y) <==> s.contains(y),
        distinct(s) ==> distinct(sort_keys(s)),
    decreases s.len(),
{
    if s.len() > 0 {
        let t = s.drop_last();
        lemma_sort_elems(t);
        lemma_insert_sorted_elems(sort_keys(t), s.last());
        assert forall|y: Seq<char>| #[trigger] sort_keys(s).contains(y) <==> s.contains(y) by {
            if t.contains(y) {
                let i = choose|i: int| 0 <= i < t.len() && t[i] == y;
                assert(s[i] == y);
            }
            if s.contains(y) {
                let i = choose|i: int| 0 <= i < s.len() && s[i] == y;
                if i < s.len() - 1 {
                    assert(t[i] == y);
                }
            }
        }
        if distinct(s) {
            assert(distinct(t)) by {
                assert forall|i: int, j: int| 0 <= i < j < t.len() implies t[i] != t[j] by {
                    assert(t[i] == s[i] && t[j] == s[j]);
                }
            }
            if sort_keys(t).contains(s.last()) {
                let i = choose|i: int| 0 <= i < t.len() && t[i] == s.last();
                assert(s[i] == s[s.len() - 1]);
            }
        }
    } else {
        assert(sort_keys(s) =~= Seq::<Seq<char>>::empty());
    }
}

proof fn lemma_key_lt_trans(a: Seq<char>, b: Seq<char>, c: Seq<char>)
    requires
        key_lt(a, b),
        key_lt(b, c),
    ensures
        key_lt(a, c),
    decreases a.len(),
{
    if a.len() > 0 && b.len() > 0 && c.len() > 0 && a[0] == b[0] && b[0] == c[0] {
        lemma_key_lt_trans(a.drop_first(), b.drop_first(), c.drop_first());
    }
}

proof fn lemma_insert_sorted_sorted(s: Seq<Seq<char>>, x: Seq<char>)
    requires
        is_sorted(s),
    ensures
        is_sorted(insert_sorted(s, x)),
        forall|y: Seq<char>| #[trigger] insert_sorted(s, x).contains(y) <==> s.contains(y) || y == x,
    decreases s.len(),
{
    lemma_insert_sorted_elems(s, x);
    if s.len() == 0 {
    } else if key_lt(x, s[0]) {
        let r = seq![x] + s;
        assert forall|i: int, j: int| 0 <= i < j < r.len() implies !key_lt(#[trigger] r[j], #[trigger] r[i]) by {
            if i == 0 {
                assert(r[j] == s[j - 1]);
                if key_lt(s[j - 1], x) {
                    lemma_key_lt_trans(s[j - 1], x, s[0]);
                    if j - 1 > 0 {
                        assert(!key_lt(s[j - 1], s[0]));
                    } else {
                        lemma_key_lt_irrefl(s[0]);
                    }
                }
            } else {
                assert(r[i] == s[i - 1] && r[j] == s[j - 1]);
            }
        }
    } else {
        let t = s.drop_first();
        assert(is_sorted(t)) by {
            assert forall|i: int, j: int| 0 <= i < j < t.len() implies !key_lt(#[trigger] t[j], #[trigger] t[i]) by {
                assert(t[i] == s[i + 1] && t[j] == s[j + 1]);
            }
        }
        lemma_insert_sorted_sorted(t, x);
        let it = insert_sorted(t, x);
        let r = seq![s[0]] + it;
        assert forall|i: int, j: int| 0 <= i < j < r.len() implies !key_lt(#[trigger] r[j], #[trigger] r[i]) by {
            if i == 0 {
                let y = r[j];
                assert(y == it[j - 1]);
                assert(it.contains(y));
                if y == x {
                } else {
                    assert(t.contains(y));
                    let q = choose|q: int| 0 <= q < t.len() && t[q] == y;
                    assert(s[q + 1] == y);
                }
            } else {
                assert(r[i] == it[i - 1] && r[j] == it[j - 1]);
            }
        }
    }
}

proof fn lemma_key_lt_irrefl(a: Seq<char>)
    ensures
        !key_lt(a, a),
    decreases a.len(),
{
    if a.len() > 0 {
        lemma_key_lt_irrefl(a.drop_first());
    }
}

/// The sort gives keys in ascending order.
pub proof fn lemma_sort_sorted(s: Seq<Seq<char>>)
    ensures
        is_sorted(sort_keys(s)),
    decreases s.len(),
{
    if s.len() > 0 {
        lemma_sort_sorted(s.drop_last());
        lemma_insert_sorted_sorted(sort_keys(s.drop_last()), s.last());
    }
}

/// Order correctness: for an object with unique keys, the keys after
/// normalization are the declared keys it holds, each once, in declared
/// order (top groups, then sub-orders), followed by all its other keys in
/// ascending order.
pub proof fn lemma_order_correct(m: Seq<Entry>, gk: Seq<Seq<char>>)
    requires
        crate::path::keys_unique(m),
    ensures
        ({
            let rest = keys_of(group_phase(m, gk).1);
            &&& keys_of(normalized(m, gk)) == first_present(gk, keys_of(m)) + sort_keys(rest)
            &&& is_sorted(sort_keys(rest))
            &&& forall|y: Seq<char>| #[trigger] rest.contains(y)
                <==> keys_of(m).contains(y) && !first_present(gk, keys_of(m)).contains(y)
        }),
{
    lemma_group_phase(m, gk);
    let st = group_phase(m, gk);
    let rest = keys_of(st.1);
    lemma_keys_distinct(st.1);
    lemma_sort_elems(rest);
    lemma_sort_sorted(rest);
    let ks = sort_keys(rest);
    assert forall|i: int| 0 <= i < ks.len() implies keys_of(st.1).contains(#[trigger] ks[i]) by {
        assert(ks.contains(ks[i]));
    }
    lemma_take_listed(st, ks);
}


proof fn lemma_key_lt_total(a: Seq<char>, b: Seq<char>)
    requires
        a != b,
    ensures
        key_lt(a, b) || key_lt(b, a),
    decreases a.len(),
{
    if a.len() > 0 && b.len() > 0 && a[0] == b[0] {
        if a.drop_first() == b.drop_first() {
            assert(a =~= seq![a[0]] + a.drop_first());
            assert(b =~= seq![b[0]] + b.drop_first());
        }
        lemma_key_lt_total(a.drop_first(), b.drop_first());
    } else if a.len() > 0 && b.len() > 0 {
        assert((a[0] as u32) != (b[0] as u32)) by {
            if (a[0] as u32) == (b[0] as u32) {
                vstd::utf8::char_u32_cast(a[0], a[0] as u32);
                vstd::utf8::char_u32_cast(b[0], b[0] as u32);
                assert(a[0] == b[0]);
            }
        }
    } else if a.len() == 0 && b.len() == 0 {
        assert(a =~= b);
    }
}

/// Two sorted sequences of distinct keys with the same keys are equal.
proof fn lemma_sorted_unique(a: Seq<Seq<char>>, b: Seq<Seq<char>>)
    requires
        is_sorted(a),
        is_sorted(b),
        distinct(a),
        distinct(b),
        forall|y: Seq<char>| #[trigger] a.contains(y) <==> b.contains(y),
    ensures
        a == b,
    decreases a.len(),
{
    if a.len() == 0 {
        if b.len() > 0 {
            assert(b.contains(b[0]));
            assert(a.contains(b[0]));
            assert(false);
        }
        assert(a =~= b);
    } else {
        if b.len() == 0 {
            assert(a.contains(a[0]));
            assert(b.contains(a[0]));
            assert(false);
        }
        assert(a.contains(a[0]));
        assert(b.contains(b[0]));
        assert(b.contains(a[0]));
        assert(a.contains(b[0]));
        let q = choose|q: int| 0 <= q < b.len() && b[q] == a[0];
        let r = choose|r: int| 0 <= r < a.len() && a[r] == b[0];
        if a[0] != b[0] {
            assert(q > 0 && r > 0);
            assert(!key_lt(b[q], b[0]));
            assert(!key_lt(a[r], a[0]));
            lemma_key_lt_total(a[0], b[0]);
        }
        assert(a[0] == b[0]);
        let a1 = a.drop_first();
        let b1 = b.drop_first();
        assert(is_sorted(a1)) by {
            assert forall|i: int, j: int| 0 <= i < j < a1.len() implies !key_lt(#[trigger] a1[j], #[trigger] a1[i]) by {
                assert(a1[i] == a[i + 1] && a1[j] == a[j + 1]);
            }
        }
        assert(is_sorted(b1)) by {
            assert forall|i: int, j: int| 0 <= i < j < b1.len() implies !key_lt(#[trigger] b1[j], #[trigger] b1[i]) by {
                assert(b1[i] == b[i + 1] && b1[j] == b[j + 1]);
            }
        }
        assert(distinct(a1)) by {
            assert forall|i: int, j: int| 0 <= i < j < a1.len() implies a1[i] != a1[j] by {
                assert(a1[i] == a[i + 1] && a1[j] == a[j + 1]);
            }
        }
        assert(distinct(b1)) by {
            assert forall|i: int, j: int| 0 <= i < j < b1.len() implies b1[i] != b1[j] by {
                assert(b1[i] == b[i + 1] && b1[j] == b[j + 1]);
            }
        }
        assert forall|y: Seq<char>| #[trigger] a1.contains(y) <==> b1.contains(y) by {
            if a1.contains(y) {
                let i = choose|i: int| 0 <= i < a1.len() && a1[i] == y;
                assert(a[i + 1] == y);
                assert(a.contains(y));
                assert(y != a[0]);
                let j = choose|j: int| 0 <= j < b.len() && b[j] == y;
                assert(j != 0);
                assert(b1[j - 1] == y);
            }
            if b1.contains(y) {
                let i = choose|i: int| 0 <= i < b1.len() && b1[i] == y;
                assert(b[i + 1] == y);
                assert(b.contains(y));
                assert(a.contains(y));
                assert(y != b[0]);
                let j = choose|j: int| 0 <= j < a.len() && a[j] == y;
                assert(j != 0);
                assert(a1[j - 1] == y);
            }
        }
        lemma_sorted_unique(a1, b1);
        assert(a =~= seq![a[0]] + a1);
        assert(b =~= seq![b[0]] + b1);
    }
}

/// `first_present` depends only on which keys are held.
proof fn lemma_first_present_same(gk: Seq<Seq<char>>, a: Seq<Seq<char>>, b: Seq<Seq<char>>)
    requires
        forall|y: Seq<char>| #[trigger] a.contains(y) <==> b.contains(y),
    ensures
        first_present(gk, a) == first_present(gk, b),
    decreases gk.len(),
{
    if gk.len() > 0 {
        lemma_first_present_same(gk.drop_last(), a, b);
        assert(a.contains(gk.last()) == b.contains(gk.last()));
    }
}

/// `first_present` holds only held keys, each once.
proof fn lemma_first_present_elems(gk: Seq<Seq<char>>, keys: Seq<Seq<char>>)
    ensures
        distinct(first_present(gk, keys)),
        forall|y: Seq<char>| #[trigger] first_present(gk, keys).contains(y) ==> keys.contains(y),
        first_present(gk, keys).len() > 0 <==> exists|i: int| 0 <= i < gk.len() && keys.contains(#[trigger] gk[i]),
    decreases gk.len(),
{
    if gk.len() > 0 {
        let g1 = gk.drop_last();
        lemma_first_present_elems(g1, keys);
        let r = first_present(g1, keys);
        let k = gk.last();
        if keys.contains(k) && !r.contains(k) {
            let n = r.push(k);
            assert forall|i: int, j: int| 0 <= i < j < n.len() implies n[i] != n[j] by {
                if j == r.len() {
                    assert(n[i] == r[i]);
                    assert(r.contains(r[i]));
                } else {
                    assert(n[i] == r[i] && n[j] == r[j]);
                }
            }
            assert forall|y: Seq<char>| #[trigger] n.contains(y) implies keys.contains(y) by {
                let i = choose|i: int| 0 <= i < n.len() && n[i] == y;
                if i < r.len() {
                    assert(r[i] == y);
                    assert(r.contains(y));
                } else {
                    assert(y == k);
                }
            }
            assert(keys.contains(gk[gk.len() - 1]));
        } else {
            if exists|i: int| 0 <= i < gk.len() && keys.contains(#[trigger] gk[i]) {
                let i = choose|i: int| 0 <= i < gk.len() && keys.contains(#[trigger] gk[i]);
                if i < g1.len() {
                    assert(g1[i] == gk[i]);
                } else {
                    assert(r.contains(k));
                }
            }
            if exists|i: int| 0 <= i < g1.len() && keys.contains(#[trigger] g1[i]) {
                let i = choose|i: int| 0 <= i < g1.len() && keys.contains(#[trigger] g1[i]);
                assert(gk[i] == g1[i]);
            }
        }
        if exists|i: int| 0 <= i < g1.len() && keys.contains(#[trigger] g1[i]) {
            let i = choose|i: int| 0 <= i < g1.len() && keys.contains(#[trigger] g1[i]);
            assert(gk[i] == g1[i]);
        }
    }
}

proof fn lemma_distinct_unique(m: Seq<Entry>)
    requires
        distinct(keys_of(m)),
    ensures
        crate::path::keys_unique(m),
{
    assert forall|i: int, j: int| 0 <= i < j < m.len() implies (#[trigger] m[i]).0 != (#[trigger] m[j]).0 by {
        assert(keys_of(m)[i] != keys_of(m)[j]);
    }
}

proof fn lemma_take_all_members(st: (Seq<Entry>, Seq<Entry>), ks: Seq<Seq<char>>)
    ensures
        forall|e: Entry| #[trigger] take_all(st, ks).0.contains(e) ==> st.0.contains(e) || st.1.contains(e),
        forall|e: Entry| #[trigger] take_all(st, ks).1.contains(e) ==> st.1.contains(e),
    decreases ks.len(),
{
    if ks.len() > 0 {
        lemma_take_all_members(st, ks.drop_last());
        let t = take_all(st, ks.drop_last());
        let k = ks.last();
        let m = t.1;
        let j = find_key(m, k);
        lemma_find_key(m, k);
        if j >= 0 {
            let p = t.0.push(m[j]);
            let n = m.update(j, m.last()).drop_last();
            assert forall|e: Entry| #[trigger] p.contains(e) implies st.0.contains(e) || st.1.contains(e) by {
                let i = choose|i: int| 0 <= i < p.len() && p[i] == e;
                if i < t.0.len() {
                    assert(t.0[i] == e);
                    assert(t.0.contains(e));
                } else {
                    assert(m.contains(e));
                }
            }
            assert forall|e: Entry| #[trigger] n.contains(e) implies st.1.contains(e) by {
                let i = choose|i: int| 0 <= i < n.len() && n[i] == e;
                if i == j {
                    assert(m[m.len() - 1] == e);
                } else {
                    assert(m[i] == e);
                }
                assert(m.contains(e));
            }
        }
    }
}

/// Every entry of the normalized object is an entry of the object.
proof fn lemma_normalized_members(m: Seq<Entry>, gk: Seq<Seq<char>>)
    ensures
        forall|e: Entry| #[trigger] normalized(m, gk).contains(e) ==> m.contains(e),
{
    let st = group_phase(m, gk);
    lemma_take_all_members((Seq::empty(), m), gk);
    lemma_take_all_members(st, sort_keys(keys_of(st.1)));
    assert forall|e: Entry| #[trigger] normalized(m, gk).contains(e) implies m.contains(e) by {
        if st.0.contains(e) {
        } else {
            assert(st.1.contains(e));
        }
    }
}

/// Idempotence: for an object with unique keys, normalizing the normalized
/// object again gives the same entries (keys in the same order, with the same
/// values), and reports a change again exactly
/// when the first run did, that is when some declared key is present.
pub proof fn lemma_normalize_idempotent(m: Seq<Entry>, gk: Seq<Seq<char>>)
    requires
        crate::path::keys_unique(m),
    ensures
        keys_of(normalized(normalized(m, gk), gk)) == keys_of(normalized(m, gk)),
        normalized(normalized(m, gk), gk) == normalized(m, gk),
        (group_phase(normalized(m, gk), gk).0.len() > 0) == (group_phase(m, gk).0.len() > 0),
        (group_phase(m, gk).0.len() > 0) <==> exists|i: int| 0 <= i < gk.len() && keys_of(m).contains(#[trigger] gk[i]),
{
    let n1 = normalized(m, gk);
    lemma_order_correct(m, gk);
    lemma_group_phase(m, gk);
    let f = first_present(gk, keys_of(m));
    let rest1 = keys_of(group_phase(m, gk).1);
    let s1 = sort_keys(rest1);
    lemma_keys_distinct(group_phase(m, gk).1);
    lemma_sort_elems(rest1);
    lemma_first_present_elems(gk, keys_of(m));
    let k1 = keys_of(n1);
    assert(k1 == f + s1);
    assert(distinct(k1)) by {
        assert forall|i: int, j: int| 0 <= i < j < k1.len() implies k1[i] != k1[j] by {
            if j < f.len() {
                assert(k1[i] == f[i] && k1[j] == f[j]);
            } else if i >= f.len() {
                assert(k1[i] == s1[i - f.len()] && k1[j] == s1[j - f.len()]);
            } else {
                assert(k1[i] == f[i]);
                assert(k1[j] == s1[j - f.len()]);
                assert(s1.contains(s1[j - f.len()]));
                assert(f.contains(f[i]));
            }
        }
    }
    lemma_distinct_unique(n1);
    assert forall|y: Seq<char>| #[trigger] k1.contains(y) <==> keys_of(m).contains(y) by {
        if k1.contains(y) {
            let i = choose|i: int| 0 <= i < k1.len() && k1[i] == y;
            if i < f.len() {
                assert(f[i] == y);
                assert(f.contains(y));
            } else {
                assert(s1[i - f.len()] == y);
                assert(s1.contains(y));
            }
        }
        if keys_of(m).contains(y) {
            if f.contains(y) {
                let i = choose|i: int| 0 <= i < f.len() && f[i] == y;
                assert(k1[i] == y);
            } else {
                assert(rest1.contains(y));
                assert(s1.contains(y));
                let i = choose|i: int| 0 <= i < s1.len() && s1[i] == y;
                assert(k1[i + f.len()] == y);
            }
        }
    }
    lemma_order_correct(n1, gk);
    lemma_group_phase(n1, gk);
    lemma_first_present_same(gk, k1, keys_of(m));
    let rest2 = keys_of(group_phase(n1, gk).1);
    let s2 = sort_keys(rest2);
    lemma_keys_distinct(group_phase(n1, gk).1);
    lemma_sort_elems(rest2);
    lemma_sort_sorted(rest1);
    lemma_sort_sorted(rest2);
    assert forall|y: Seq<char>| #[trigger] s1.contains(y) <==> s2.contains(y) by {
        assert(rest1.contains(y) <==> rest2.contains(y));
    }
    lemma_sorted_unique(s1, s2);
    assert(keys_of(group_phase(m, gk).0).len() == group_phase(m, gk).0.len());
    assert(keys_of(group_phase(n1, gk).0).len() == group_phase(n1, gk).0.len());
    let n2 = normalized(n1, gk);
    lemma_normalized_members(n1, gk);
    assert(keys_of(n2) == keys_of(n1));
    assert(n2.len() == n1.len()) by {
        assert(keys_of(n2).len() == n2.len());
    }
    assert forall|i: int| 0 <= i < n2.len() implies n2[i] == n1[i] by {
        assert(n2.contains(n2[i]));
        assert(n1.contains(n2[i]));
        let q = choose|q: int| 0 <= q < n1.len() && n1[q] == n2[i];
        assert(keys_of(n2)[i] == keys_of(n1)[i]);
        assert(n1[q].0 == n1[i].0);
        if q != i {
            if q < i {
                assert(n1[q].0 != n1[i].0);
            } else {
                assert(n1[i].0 != n1[q].0);
            }
        }
    }
    assert(n2 =~= n1);
}

} // verus!
