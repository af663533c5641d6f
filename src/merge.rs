//! Structural merge of a template document into an existing target.
use vstd::prelude::*;
use crate::config::SyncClientMergeCfg;
use crate::json::{find_key, lemma_find_key, same_items, same_entries, same, seg_model, set_path_spec, get_in, JModel, Json, json_eq, lemma_items_model, items_model};
use crate::path::{
    keys_unique, get_path, lemma_open_unique, lemma_set_elsewhere, lemma_set_elsewhere_open,
    lemma_set_keeps_open, lemma_set_then_get, open_path, path_segments, set_path, unrelated,
};
use crate::text::str_eq;

verus! {

/// `acc` followed by each item of `s[..n]` that is not the same as one already there.
pub open spec fn union_items(acc: Seq<JModel>, s: Seq<JModel>, n: nat) -> Seq<JModel>
    decreases n,
{
    if n == 0 || n > s.len() {
        acc
    } else {
        let r = union_items(acc, s, (n - 1) as nat);
        if exists|k: int| 0 <= k < r.len() && same(r[k], s[n - 1]) {
            r
        } else {
            r.push(s[n - 1])
        }
    }
}

/// The items of an array value, or none for any other value.
pub open spec fn array_items(v: Option<JModel>) -> Seq<JModel> {
    match v {
        Some(JModel::Array(xs)) => xs,
        _ => Seq::empty(),
    }
}

/// Source wins at each of the first `n` override paths present in the source.
pub open spec fn apply_overrides(res: JModel, src: JModel, paths: Seq<Seq<char>>, n: nat) -> JModel
    decreases n,
{
    if n == 0 || n > paths.len() {
        res
    } else {
        let r = apply_overrides(res, src, paths, (n - 1) as nat);
        let p = path_segments(paths[n - 1]);
        match get_in(src, p) {
            Some(v) => set_path_spec(r, p, Some(v)),
            None => r,
        }
    }
}

/// The target's value is kept at each of the first `n` paths, or the path is
/// cleared where the target has none.
pub open spec fn apply_keeps(res: JModel, dst: JModel, paths: Seq<Seq<char>>, n: nat) -> JModel
    decreases n,
{
    if n == 0 || n > paths.len() {
        res
    } else {
        let r = apply_keeps(res, dst, paths, (n - 1) as nat);
        let p = path_segments(paths[n - 1]);
        set_path_spec(r, p, get_in(dst, p))
    }
}

/// The first `n` array strategies: `union` appends the source items missing
/// from the target's array to it; any other word takes the source's value.
pub open spec fn apply_arrays(
    res: JModel,
    src: JModel,
    dst: JModel,
    arr: Seq<(Seq<char>, Seq<char>)>,
    n: nat,
) -> JModel
    decreases n,
{
    if n == 0 || n > arr.len() {
        res
    } else {
        let r = apply_arrays(res, src, dst, arr, (n - 1) as nat);
        let p = path_segments(arr[n - 1].0);
        if arr[n - 1].1 == seq!['u', 'n', 'i', 'o', 'n'] {
            match get_in(src, p) {
                Some(JModel::Array(sa)) => set_path_spec(
                    r,
                    p,
                    Some(JModel::Array(union_items(array_items(get_in(dst, p)), sa, sa.len()))),
                ),
                _ => r,
            }
        } else {
            match get_in(src, p) {
                Some(v) => set_path_spec(r, p, Some(v)),
                None => r,
            }
        }
    }
}

/// The array strategies as sequences of characters.
pub open spec fn arr_model(arr: Option<Vec<(String, String)>>) -> Seq<(Seq<char>, Seq<char>)> {
    match arr {
        Some(v) => v@.map_values(|e: (String, String)| (e.0@, e.1@)),
        None => Seq::empty(),
    }
}

/// The merged document: a copy of the source, then overrides, keeps, no-sync
/// paths and array strategies, in that order.
pub open spec fn merge_spec(src: JModel, dst: JModel, cfg: SyncClientMergeCfg) -> JModel {
    let o = seg_model(cfg.override_paths@);
    let k = seg_model(cfg.keep_paths@);
    let s = seg_model(cfg.nosync_paths@);
    let a = arr_model(cfg.array);
    let r1 = apply_overrides(src, src, o, o.len());
    let r2 = apply_keeps(r1, dst, k, k.len());
    let r3 = apply_keeps(r2, dst, s, s.len());
    apply_arrays(r3, src, dst, a, a.len())
}

/// The target's array at a path followed by the source items it lacks.
pub fn union_arrays(dst: Option<&Json>, sa: &Vec<Json>) -> (r: Vec<Json>)
    ensures
        items_model(r@, r@.len()) == union_items(
            array_items(match dst {
                Some(d) => Some(d.model()),
                None => None::<JModel>,
            }),
            items_model(sa@, sa@.len()),
            sa@.len(),
        ),
{
    let ghost acc0 = array_items(match dst {
        Some(d) => Some(d.model()),
        None => None::<JModel>,
    });
    let ghost sm = items_model(sa@, sa@.len());
    proof {
        lemma_items_model(sa@, sa@.len());
    }
    let mut merged: Vec<Json> = Vec::new();
    match dst {
        Some(Json::Array(da)) => {
            proof {
                lemma_items_model(da@, da@.len());
            }
            let mut i: usize = 0;
            while i < da.len()
                invariant
                    i <= da@.len(),
                    merged@.len() == i,
                    forall|j: int| 0 <= j < i ==> #[trigger] merged@[j].model() == da@[j].model(),
                decreases da.len() - i,
            {
                merged.push(da[i].deep_clone());
                i += 1;
            }
            proof {
                lemma_items_model(merged@, merged@.len());
                assert(items_model(merged@, merged@.len()) =~= acc0);
            }
        },
        _ => {
            proof {
                lemma_items_model(merged@, merged@.len());
                assert(items_model(merged@, merged@.len()) =~= acc0);
            }
        },
    }
    let mut i: usize = 0;
    while i < sa.len()
        invariant
            i <= sa@.len(),
            sm == items_model(sa@, sa@.len()),
            sm.len() == sa@.len(),
            forall|j: int| 0 <= j < sa@.len() ==> #[trigger] sm[j] == sa@[j].model(),
            items_model(merged@, merged@.len()) == union_items(acc0, sm, i as nat),
        decreases sa.len() - i,
    {
        let ghost r = items_model(merged@, merged@.len());
        proof {
            lemma_items_model(merged@, merged@.len());
        }
        let mut found = false;
        let mut k: usize = 0;
        while k < merged.len()
            invariant
                k <= merged@.len(),
                i < sa@.len(),
                r == items_model(merged@, merged@.len()),
                r.len() == merged@.len(),
                forall|j: int| 0 <= j < merged@.len() ==> #[trigger] r[j] == merged@[j].model(),
                found == exists|q: int| 0 <= q < k && same(r[q], sa@[i as int].model()),
            decreases merged.len() - k,
        {
            let e = json_eq(&merged[k], &sa[i]);
            proof {
                let t = sa@[i as int].model();
                if e {
                    assert(0 <= k < k + 1 && same(r[k as int], t));
                } else if !found {
                    assert forall|q: int| 0 <= q < k + 1 implies !same(r[q], t) by {
                        if q < k {
                            assert(!(0 <= q < k && same(r[q], t)));
                        }
                    }
                }
            }
            found = found || e;
            k += 1;
        }
        if !found {
            let ghost before = merged@;
            merged.push(sa[i].deep_clone());
            proof {
                lemma_items_model(merged@, merged@.len());
                assert(items_model(merged@, merged@.len()) =~= r.push(sm[i as int]));
            }
        }
        i += 1;
    }
    merged
}


/// Merges the template `src` into the existing target `dst` (`null` where there
/// is none) under the per-path policy `cfg`.
pub fn merge_documents(src: &Json, dst: &Json, cfg: &SyncClientMergeCfg) -> (r: Json)
    ensures
        r.model() == merge_spec(src.model(), dst.model(), *cfg),
{
    let ghost o = seg_model(cfg.override_paths@);
    let ghost k = seg_model(cfg.keep_paths@);
    let ghost s = seg_model(cfg.nosync_paths@);
    let mut result = src.deep_clone();
    let mut i: usize = 0;
    while i < cfg.override_paths.len()
        invariant
            i <= cfg.override_paths@.len(),
            o == seg_model(cfg.override_paths@),
            result.model() == apply_overrides(src.model(), src.model(), o, i as nat),
        decreases cfg.override_paths.len() - i,
    {
        let p = &cfg.override_paths[i];
        match get_path(src, p) {
            Some(v) => {
                let c = v.deep_clone();
                result = set_path(result, p, Some(c));
            },
            None => {},
        }
        i += 1;
    }
    let ghost r1 = result.model();
    let mut i: usize = 0;
    while i < cfg.keep_paths.len()
        invariant
            i <= cfg.keep_paths@.len(),
            k == seg_model(cfg.keep_paths@),
            result.model() == apply_keeps(r1, dst.model(), k, i as nat),
        decreases cfg.keep_paths.len() - i,
    {
        let p = &cfg.keep_paths[i];
        let v = match get_path(dst, p) {
            Some(v) => Some(v.deep_clone()),
            None => None,
        };
        result = set_path(result, p, v);
        i += 1;
    }
    let ghost r2 = result.model();
    let mut i: usize = 0;
    while i < cfg.nosync_paths.len()
        invariant
            i <= cfg.nosync_paths@.len(),
            s == seg_model(cfg.nosync_paths@),
            result.model() == apply_keeps(r2, dst.model(), s, i as nat),
        decreases cfg.nosync_paths.len() - i,
    {
        let p = &cfg.nosync_paths[i];
        let v = match get_path(dst, p) {
            Some(v) => Some(v.deep_clone()),
            None => None,
        };
        result = set_path(result, p, v);
        i += 1;
    }
    let ghost r3 = result.model();
    match &cfg.array {
        Some(arr) => {
            let ghost a = arr_model(cfg.array);
            let mut i: usize = 0;
            while i < arr.len()
                invariant
                    i <= arr@.len(),
                    cfg.array == Some(*arr),
                    a == arr_model(cfg.array),
                    result.model() == apply_arrays(r3, src.model(), dst.model(), a, i as nat),
                decreases arr.len() - i,
            {
                let p = &arr[i].0;
                proof {
                    reveal_strlit("union");
                    assert("union"@ =~= seq!['u', 'n', 'i', 'o', 'n']);
                }
                if str_eq(&arr[i].1, "union") {
                    match get_path(src, p) {
                        Some(Json::Array(sa)) => {
                            let merged = union_arrays(get_path(dst, p), sa);
                            proof {
                                lemma_items_model(sa@, sa@.len());
                            }
                            result = set_path(result, p, Some(Json::Array(merged)));
                        },
                        _ => {},
                    }
                } else {
                    match get_path(src, p) {
                        Some(v) => {
                            let c = v.deep_clone();
                            result = set_path(result, p, Some(c));
                        },
                        None => {},
                    }
                }
                i += 1;
            }
        },
        None => {},
    }
    result
}


/// The paths `paths[a..b]` are non-empty and unrelated to `p`.
pub open spec fn apart(p: Seq<Seq<char>>, paths: Seq<Seq<char>>, a: int, b: int) -> bool {
    forall|j: int| a <= j < b ==> path_segments(#[trigger] paths[j]).len() > 0
        && unrelated(p, path_segments(paths[j]))
}

/// The array-strategy paths `arr[a..b]` are non-empty and unrelated to `p`.
pub open spec fn apart_arrays(p: Seq<Seq<char>>, arr: Seq<(Seq<char>, Seq<char>)>, a: int, b: int) -> bool {
    forall|j: int| a <= j < b ==> path_segments((#[trigger] arr[j]).0).len() > 0
        && unrelated(p, path_segments(arr[j].0))
}

/// A set at a non-empty path unrelated to `p` keeps the value at `p` and the
/// walk along it open.
proof fn lemma_step_elsewhere(r: JModel, q: Seq<Seq<char>>, v: Option<JModel>, p: Seq<Seq<char>>)
    requires
        q.len() > 0,
        unrelated(p, q),
        open_path(r, p),
    ensures
        get_in(set_path_spec(r, q, v), p) == get_in(r, p),
        open_path(set_path_spec(r, q, v), p),
{
    lemma_open_unique(r, p);
    lemma_set_elsewhere(r, q, v, p);
    lemma_set_elsewhere_open(r, q, v, p);
}

proof fn lemma_overrides_tail(res: JModel, src: JModel, o: Seq<Seq<char>>, a: nat, n: nat, p: Seq<Seq<char>>)
    requires
        a <= n <= o.len(),
        open_path(apply_overrides(res, src, o, a), p),
        apart(p, o, a as int, n as int),
    ensures
        get_in(apply_overrides(res, src, o, n), p) == get_in(apply_overrides(res, src, o, a), p),
        open_path(apply_overrides(res, src, o, n), p),
    decreases n,
{
    if n > a {
        lemma_overrides_tail(res, src, o, a, (n - 1) as nat, p);
        let r = apply_overrides(res, src, o, (n - 1) as nat);
        let q = path_segments(o[n - 1]);
        assert(path_segments(o[n - 1]).len() > 0 && unrelated(p, q));
        match get_in(src, q) {
            Some(v) => lemma_step_elsewhere(r, q, Some(v), p),
            None => {},
        }
    }
}

proof fn lemma_keeps_tail(res: JModel, dst: JModel, k: Seq<Seq<char>>, a: nat, n: nat, p: Seq<Seq<char>>)
    requires
        a <= n <= k.len(),
        open_path(apply_keeps(res, dst, k, a), p),
        apart(p, k, a as int, n as int),
    ensures
        get_in(apply_keeps(res, dst, k, n), p) == get_in(apply_keeps(res, dst, k, a), p),
        open_path(apply_keeps(res, dst, k, n), p),
    decreases n,
{
    if n > a {
        lemma_keeps_tail(res, dst, k, a, (n - 1) as nat, p);
        let r = apply_keeps(res, dst, k, (n - 1) as nat);
        let q = path_segments(k[n - 1]);
        assert(path_segments(k[n - 1]).len() > 0 && unrelated(p, q));
        lemma_step_elsewhere(r, q, get_in(dst, q), p);
    }
}

proof fn lemma_arrays_tail(res: JModel, src: JModel, dst: JModel, arr: Seq<(Seq<char>, Seq<char>)>, n: nat, p: Seq<Seq<char>>)
    requires
        n <= arr.len(),
        open_path(res, p),
        apart_arrays(p, arr, 0, n as int),
    ensures
        get_in(apply_arrays(res, src, dst, arr, n), p) == get_in(res, p),
        open_path(apply_arrays(res, src, dst, arr, n), p),
    decreases n,
{
    if n > 0 {
        lemma_arrays_tail(res, src, dst, arr, (n - 1) as nat, p);
        let r = apply_arrays(res, src, dst, arr, (n - 1) as nat);
        let q = path_segments(arr[n - 1].0);
        assert(path_segments(arr[n - 1].0).len() > 0 && unrelated(p, q));
        if arr[n - 1].1 == seq!['u', 'n', 'i', 'o', 'n'] {
            match get_in(src, q) {
                Some(JModel::Array(sa)) => lemma_step_elsewhere(
                    r,
                    q,
                    Some(JModel::Array(union_items(array_items(get_in(dst, q)), sa, sa.len()))),
                    p,
                ),
                _ => {},
            }
        } else {
            match get_in(src, q) {
                Some(v) => lemma_step_elsewhere(r, q, Some(v), p),
                None => {},
            }
        }
    }
}

/// The keep step at position `i` of a list of keep paths puts the target's
/// value at its path, and later unrelated keep paths leave it there.
proof fn lemma_keeps_at(res: JModel, dst: JModel, k: Seq<Seq<char>>, i: int)
    requires
        0 <= i < k.len(),
        path_segments(k[i]).len() > 0,
        open_path(res, path_segments(k[i])),
        apart(path_segments(k[i]), k, 0, i),
        apart(path_segments(k[i]), k, i + 1, k.len() as int),
    ensures
        get_in(apply_keeps(res, dst, k, k.len()), path_segments(k[i])) == get_in(dst, path_segments(k[i])),
        open_path(apply_keeps(res, dst, k, k.len()), path_segments(k[i])),
{
    let p = path_segments(k[i]);
    assert(open_path(apply_keeps(res, dst, k, 0), p));
    lemma_keeps_tail(res, dst, k, 0, i as nat, p);
    let r = apply_keeps(res, dst, k, i as nat);
    lemma_set_then_get(r, p, get_in(dst, p));
    lemma_set_keeps_open(r, p, get_in(dst, p));
    assert(apply_keeps(res, dst, k, (i + 1) as nat) == set_path_spec(r, p, get_in(dst, p)));
    lemma_keeps_tail(res, dst, k, (i + 1) as nat, k.len(), p);
}

/// Keep path `i` is non-empty, unrelated to every other path of the policy,
/// and the source has no non-object on its way.
pub open spec fn keep_isolated(src: JModel, cfg: SyncClientMergeCfg, i: int) -> bool {
    let k = seg_model(cfg.keep_paths@);
    let o = seg_model(cfg.override_paths@);
    let s = seg_model(cfg.nosync_paths@);
    let a = arr_model(cfg.array);
    let p = path_segments(k[i]);
    &&& p.len() > 0
    &&& open_path(src, p)
    &&& apart(p, o, 0, o.len() as int)
    &&& apart(p, k, 0, i)
    &&& apart(p, k, i + 1, k.len() as int)
    &&& apart(p, s, 0, s.len() as int)
    &&& apart_arrays(p, a, 0, a.len() as int)
}

/// No-sync path `i` is non-empty, unrelated to every other path of the
/// policy, and the source has no non-object on its way.
pub open spec fn nosync_isolated(src: JModel, cfg: SyncClientMergeCfg, i: int) -> bool {
    let k = seg_model(cfg.keep_paths@);
    let o = seg_model(cfg.override_paths@);
    let s = seg_model(cfg.nosync_paths@);
    let a = arr_model(cfg.array);
    let p = path_segments(s[i]);
    &&& p.len() > 0
    &&& open_path(src, p)
    &&& apart(p, o, 0, o.len() as int)
    &&& apart(p, k, 0, k.len() as int)
    &&& apart(p, s, 0, i)
    &&& apart(p, s, i + 1, s.len() as int)
    &&& apart_arrays(p, a, 0, a.len() as int)
}

/// Array path `i` is non-empty, unrelated to every other path of the policy,
/// and the source has no non-object on its way.
pub open spec fn array_isolated(src: JModel, cfg: SyncClientMergeCfg, i: int) -> bool {
    let k = seg_model(cfg.keep_paths@);
    let o = seg_model(cfg.override_paths@);
    let s = seg_model(cfg.nosync_paths@);
    let a = arr_model(cfg.array);
    let p = path_segments(a[i].0);
    &&& p.len() > 0
    &&& open_path(src, p)
    &&& apart(p, o, 0, o.len() as int)
    &&& apart(p, k, 0, k.len() as int)
    &&& apart(p, s, 0, s.len() as int)
    &&& apart_arrays(p, a, 0, i)
    &&& apart_arrays(p, a, i + 1, a.len() as int)
}

/// Merge precedence for a keep path: where no other path of the policy
/// overlaps it and the source has no non-object on its way, the merged
/// document holds the target's value there verbatim, or nothing when the
/// target has none.
pub proof fn lemma_merge_keep(src: JModel, dst: JModel, cfg: SyncClientMergeCfg, i: int)
    requires
        0 <= i < cfg.keep_paths@.len(),
        keep_isolated(src, cfg, i),
    ensures
        get_in(merge_spec(src, dst, cfg), path_segments(seg_model(cfg.keep_paths@)[i]))
            == get_in(dst, path_segments(seg_model(cfg.keep_paths@)[i])),
{
    let k = seg_model(cfg.keep_paths@);
    let o = seg_model(cfg.override_paths@);
    let s = seg_model(cfg.nosync_paths@);
    let a = arr_model(cfg.array);
    let p = path_segments(k[i]);
    assert(open_path(apply_overrides(src, src, o, 0), p));
    lemma_overrides_tail(src, src, o, 0, o.len(), p);
    let r1 = apply_overrides(src, src, o, o.len());
    lemma_keeps_at(r1, dst, k, i);
    let r2 = apply_keeps(r1, dst, k, k.len());
    assert(open_path(apply_keeps(r2, dst, s, 0), p));
    lemma_keeps_tail(r2, dst, s, 0, s.len(), p);
    let r3 = apply_keeps(r2, dst, s, s.len());
    lemma_arrays_tail(r3, src, dst, a, a.len(), p);
}

/// Merge precedence for a no-sync path: as for a keep path, the target's value
/// is reproduced verbatim, or the path is cleared when the target has none.
pub proof fn lemma_merge_nosync(src: JModel, dst: JModel, cfg: SyncClientMergeCfg, i: int)
    requires
        0 <= i < cfg.nosync_paths@.len(),
        nosync_isolated(src, cfg, i),
    ensures
        get_in(merge_spec(src, dst, cfg), path_segments(seg_model(cfg.nosync_paths@)[i]))
            == get_in(dst, path_segments(seg_model(cfg.nosync_paths@)[i])),
{
    let k = seg_model(cfg.keep_paths@);
    let o = seg_model(cfg.override_paths@);
    let s = seg_model(cfg.nosync_paths@);
    let a = arr_model(cfg.array);
    let p = path_segments(s[i]);
    assert(open_path(apply_overrides(src, src, o, 0), p));
    lemma_overrides_tail(src, src, o, 0, o.len(), p);
    let r1 = apply_overrides(src, src, o, o.len());
    assert(open_path(apply_keeps(r1, dst, k, 0), p));
    lemma_keeps_tail(r1, dst, k, 0, k.len(), p);
    let r2 = apply_keeps(r1, dst, k, k.len());
    lemma_keeps_at(r2, dst, s, i);
    let r3 = apply_keeps(r2, dst, s, s.len());
    lemma_arrays_tail(r3, src, dst, a, a.len(), p);
}

/// Merge precedence for an override path present in the source: where no
/// other path of the policy overlaps it, the merged document holds the
/// source's value there, whatever the target holds.
pub proof fn lemma_merge_override(src: JModel, dst: JModel, cfg: SyncClientMergeCfg, i: int)
    requires
        0 <= i < cfg.override_paths@.len(),
        ({
            let k = seg_model(cfg.keep_paths@);
            let o = seg_model(cfg.override_paths@);
            let s = seg_model(cfg.nosync_paths@);
            let a = arr_model(cfg.array);
            let p = path_segments(o[i]);
            &&& p.len() > 0
            &&& get_in(src, p) is Some
            &&& open_path(src, p)
            &&& apart(p, o, 0, i)
            &&& apart(p, o, i + 1, o.len() as int)
            &&& apart(p, k, 0, k.len() as int)
            &&& apart(p, s, 0, s.len() as int)
            &&& apart_arrays(p, a, 0, a.len() as int)
        }),
    ensures
        get_in(merge_spec(src, dst, cfg), path_segments(seg_model(cfg.override_paths@)[i]))
            == get_in(src, path_segments(seg_model(cfg.override_paths@)[i])),
{
    let k = seg_model(cfg.keep_paths@);
    let o = seg_model(cfg.override_paths@);
    let s = seg_model(cfg.nosync_paths@);
    let a = arr_model(cfg.array);
    let p = path_segments(o[i]);
    assert(open_path(apply_overrides(src, src, o, 0), p));
    lemma_overrides_tail(src, src, o, 0, i as nat, p);
    let r = apply_overrides(src, src, o, i as nat);
    let v = get_in(src, p)->Some_0;
    lemma_set_then_get(r, p, Some(v));
    lemma_set_keeps_open(r, p, Some(v));
    assert(apply_overrides(src, src, o, (i + 1) as nat) == set_path_spec(r, p, Some(v)));
    lemma_overrides_tail(src, src, o, (i + 1) as nat, o.len(), p);
    let r1 = apply_overrides(src, src, o, o.len());
    assert(open_path(apply_keeps(r1, dst, k, 0), p));
    lemma_keeps_tail(r1, dst, k, 0, k.len(), p);
    let r2 = apply_keeps(r1, dst, k, k.len());
    assert(open_path(apply_keeps(r2, dst, s, 0), p));
    lemma_keeps_tail(r2, dst, s, 0, s.len(), p);
    let r3 = apply_keeps(r2, dst, s, s.len());
    lemma_arrays_tail(r3, src, dst, a, a.len(), p);
}


/// A well-formed document: every object has unique keys.
pub open spec fn wf(a: JModel) -> bool
    decreases a, 0nat,
{
    match a {
        JModel::Array(xs) => wf_items(xs, xs.len()),
        JModel::Object(m) => keys_unique(m) && wf_entries(m, m.len()),
        _ => true,
    }
}

/// The first `n` items are well-formed.
pub open spec fn wf_items(xs: Seq<JModel>, n: nat) -> bool
    decreases xs, n,
{
    if n == 0 {
        true
    } else if n > xs.len() {
        false
    } else {
        wf_items(xs, (n - 1) as nat) && wf(xs[n - 1])
    }
}

/// The values of the first `n` entries are well-formed.
pub open spec fn wf_entries(m: Seq<(Seq<char>, JModel)>, n: nat) -> bool
    decreases m, n,
{
    if n == 0 {
        true
    } else if n > m.len() {
        false
    } else {
        wf_entries(m, (n - 1) as nat) && wf(m[n - 1].1)
    }
}

/// A well-formed document is the same as itself.
pub proof fn lemma_same_refl(a: JModel)
    requires
        wf(a),
    ensures
        same(a, a),
    decreases a, 0nat,
{
    match a {
        JModel::Array(xs) => lemma_items_refl(xs, xs.len()),
        JModel::Object(m) => lemma_entries_refl(m, m.len()),
        _ => {},
    }
}

proof fn lemma_items_refl(xs: Seq<JModel>, n: nat)
    requires
        wf_items(xs, n),
    ensures
        same_items(xs, xs, n),
    decreases xs, n,
{
    if n > 0 {
        lemma_items_refl(xs, (n - 1) as nat);
        lemma_same_refl(xs[n - 1]);
    }
}

proof fn lemma_entries_refl(m: Seq<(Seq<char>, JModel)>, n: nat)
    requires
        keys_unique(m),
        wf_entries(m, n),
    ensures
        same_entries(m, m, n),
    decreases m, n,
{
    if n > 0 {
        lemma_entries_refl(m, (n - 1) as nat);
        lemma_same_refl(m[n - 1].1);
        lemma_find_key(m, m[n - 1].0);
        let f = find_key(m, m[n - 1].0);
        if f != n - 1 {
            if f >= 0 {
                assert(m[f].0 == m[n - 1].0);
            } else {
                assert(m[n - 1].0 != m[n - 1].0);
            }
        }
    }
}

/// The union over a shorter prefix of the source is a prefix of that over a
/// longer one.
proof fn lemma_union_prefix(acc: Seq<JModel>, s: Seq<JModel>, a: nat, b: nat)
    requires
        a <= b <= s.len(),
    ensures
        union_items(acc, s, a).len() <= union_items(acc, s, b).len(),
        union_items(acc, s, b).subrange(0, union_items(acc, s, a).len() as int) == union_items(acc, s, a),
    decreases b,
{
    if b > a {
        lemma_union_prefix(acc, s, a, (b - 1) as nat);
        let r = union_items(acc, s, (b - 1) as nat);
        let u = union_items(acc, s, a);
        if !(exists|k: int| 0 <= k < r.len() && same(r[k], s[b - 1])) {
            assert(r.push(s[b - 1]).subrange(0, u.len() as int) =~= r.subrange(0, u.len() as int));
        }
    } else {
        let u = union_items(acc, s, a);
        assert(u.subrange(0, u.len() as int) =~= u);
    }
}

/// Every well-formed source item has one the same in the union.
proof fn lemma_union_covers(acc: Seq<JModel>, s: Seq<JModel>, n: nat, i: int)
    requires
        n <= s.len(),
        0 <= i < n,
        wf(s[i]),
    ensures
        exists|k: int| 0 <= k < union_items(acc, s, n).len() && same(#[trigger] union_items(acc, s, n)[k], s[i]),
{
    lemma_union_prefix(acc, s, (i + 1) as nat, n);
    let u = union_items(acc, s, n);
    let v = union_items(acc, s, (i + 1) as nat);
    let r = union_items(acc, s, i as nat);
    if exists|k: int| 0 <= k < r.len() && same(r[k], s[i]) {
        let k = choose|k: int| 0 <= k < r.len() && same(r[k], s[i]);
        assert(v == r);
        assert(u.subrange(0, v.len() as int)[k] == v[k]);
        assert(u[k] == v[k]);
    } else {
        lemma_same_refl(s[i]);
        let k = r.len() as int;
        assert(v == r.push(s[i]));
        assert(u.subrange(0, v.len() as int)[k] == v[k]);
        assert(u[k] == s[i]);
    }
}

/// Merge idempotence for arrays: a second union of the same well-formed source
/// items into the result of the first adds nothing.
pub proof fn lemma_union_idempotent(d: Seq<JModel>, s: Seq<JModel>)
    requires
        wf_items(s, s.len()),
    ensures
        union_items(union_items(d, s, s.len()), s, s.len()) == union_items(d, s, s.len()),
{
    let u = union_items(d, s, s.len());
    lemma_union_fixed(u, d, s, s.len());
}

proof fn lemma_wf_item(s: Seq<JModel>, n: nat, i: int)
    requires
        wf_items(s, n),
        0 <= i < n,
    ensures
        wf(s[i]),
    decreases n,
{
    if i < n - 1 {
        lemma_wf_item(s, (n - 1) as nat, i);
    }
}

proof fn lemma_union_fixed(u: Seq<JModel>, d: Seq<JModel>, s: Seq<JModel>, m: nat)
    requires
        m <= s.len(),
        wf_items(s, s.len()),
        u == union_items(d, s, s.len()),
    ensures
        union_items(u, s, m) == u,
    decreases m,
{
    if m > 0 {
        lemma_union_fixed(u, d, s, (m - 1) as nat);
        lemma_wf_item(s, s.len(), m - 1);
        lemma_union_covers(d, s, s.len(), m - 1);
    }
}


proof fn lemma_arrays_tail_from(res: JModel, src: JModel, dst: JModel, arr: Seq<(Seq<char>, Seq<char>)>, a: nat, n: nat, p: Seq<Seq<char>>)
    requires
        a <= n <= arr.len(),
        open_path(apply_arrays(res, src, dst, arr, a), p),
        apart_arrays(p, arr, a as int, n as int),
    ensures
        get_in(apply_arrays(res, src, dst, arr, n), p) == get_in(apply_arrays(res, src, dst, arr, a), p),
        open_path(apply_arrays(res, src, dst, arr, n), p),
    decreases n,
{
    if n > a {
        lemma_arrays_tail_from(res, src, dst, arr, a, (n - 1) as nat, p);
        let r = apply_arrays(res, src, dst, arr, (n - 1) as nat);
        let q = path_segments(arr[n - 1].0);
        assert(path_segments(arr[n - 1].0).len() > 0 && unrelated(p, q));
        if arr[n - 1].1 == seq!['u', 'n', 'i', 'o', 'n'] {
            match get_in(src, q) {
                Some(JModel::Array(sa)) => lemma_step_elsewhere(
                    r,
                    q,
                    Some(JModel::Array(union_items(array_items(get_in(dst, q)), sa, sa.len()))),
                    p,
                ),
                _ => {},
            }
        } else {
            match get_in(src, q) {
                Some(v) => lemma_step_elsewhere(r, q, Some(v), p),
                None => {},
            }
        }
    }
}

/// The value the array step at position `i` sets, if any.
pub open spec fn array_value(src: JModel, dst: JModel, e: (Seq<char>, Seq<char>)) -> Option<JModel> {
    let q = path_segments(e.0);
    if e.1 == seq!['u', 'n', 'i', 'o', 'n'] {
        match get_in(src, q) {
            Some(JModel::Array(sa)) => Some(JModel::Array(union_items(array_items(get_in(dst, q)), sa, sa.len()))),
            _ => None,
        }
    } else {
        get_in(src, q)
    }
}

/// The array step at an isolated path puts its value there in the merged document.
pub proof fn lemma_merge_array(src: JModel, dst: JModel, cfg: SyncClientMergeCfg, i: int)
    requires
        0 <= i < arr_model(cfg.array).len(),
        array_isolated(src, cfg, i),
        array_value(src, dst, arr_model(cfg.array)[i]) is Some,
    ensures
        get_in(merge_spec(src, dst, cfg), path_segments(arr_model(cfg.array)[i].0))
            == array_value(src, dst, arr_model(cfg.array)[i]),
{
    let k = seg_model(cfg.keep_paths@);
    let o = seg_model(cfg.override_paths@);
    let s = seg_model(cfg.nosync_paths@);
    let a = arr_model(cfg.array);
    let p = path_segments(a[i].0);
    assert(open_path(apply_overrides(src, src, o, 0), p));
    lemma_overrides_tail(src, src, o, 0, o.len(), p);
    let r1 = apply_overrides(src, src, o, o.len());
    assert(open_path(apply_keeps(r1, dst, k, 0), p));
    lemma_keeps_tail(r1, dst, k, 0, k.len(), p);
    let r2 = apply_keeps(r1, dst, k, k.len());
    assert(open_path(apply_keeps(r2, dst, s, 0), p));
    lemma_keeps_tail(r2, dst, s, 0, s.len(), p);
    let r3 = apply_keeps(r2, dst, s, s.len());
    assert(open_path(apply_arrays(r3, src, dst, a, 0), p));
    lemma_arrays_tail_from(r3, src, dst, a, 0, i as nat, p);
    let r = apply_arrays(r3, src, dst, a, i as nat);
    let v = array_value(src, dst, a[i])->Some_0;
    lemma_set_then_get(r, p, Some(v));
    lemma_set_keeps_open(r, p, Some(v));
    assert(apply_arrays(r3, src, dst, a, (i + 1) as nat) == set_path_spec(r, p, Some(v)));
    lemma_arrays_tail_from(r3, src, dst, a, (i + 1) as nat, a.len(), p);
}

proof fn lemma_keeps_same(res: JModel, d1: JModel, d2: JModel, k: Seq<Seq<char>>, n: nat)
    requires
        n <= k.len(),
        forall|j: int| 0 <= j < n ==> get_in(d1, path_segments(#[trigger] k[j])) == get_in(d2, path_segments(k[j])),
    ensures
        apply_keeps(res, d1, k, n) == apply_keeps(res, d2, k, n),
    decreases n,
{
    if n > 0 {
        lemma_keeps_same(res, d1, d2, k, (n - 1) as nat);
        assert(get_in(d1, path_segments(k[n - 1])) == get_in(d2, path_segments(k[n - 1])));
    }
}

proof fn lemma_arrays_same(res: JModel, src: JModel, d1: JModel, d2: JModel, arr: Seq<(Seq<char>, Seq<char>)>, n: nat)
    requires
        n <= arr.len(),
        forall|j: int| 0 <= j < n ==> array_value(src, d1, #[trigger] arr[j]) == array_value(src, d2, arr[j]),
    ensures
        apply_arrays(res, src, d1, arr, n) == apply_arrays(res, src, d2, arr, n),
    decreases n,
{
    if n > 0 {
        lemma_arrays_same(res, src, d1, d2, arr, (n - 1) as nat);
        assert(array_value(src, d1, arr[n - 1]) == array_value(src, d2, arr[n - 1]));
    }
}

/// A value found in a well-formed document is well-formed.
proof fn lemma_wf_get(doc: JModel, p: Seq<Seq<char>>)
    requires
        wf(doc),
        get_in(doc, p) is Some,
    ensures
        wf(get_in(doc, p)->Some_0),
    decreases p.len(),
{
    if p.len() > 0 {
        match doc {
            JModel::Object(m) => {
                let j = find_key(m, p[0]);
                lemma_find_key(m, p[0]);
                lemma_wf_entry(m, m.len(), j);
                lemma_wf_get(m[j].1, p.drop_first());
            },
            _ => {},
        }
    }
}

proof fn lemma_wf_entry(m: Seq<(Seq<char>, JModel)>, n: nat, i: int)
    requires
        wf_entries(m, n),
        0 <= i < n,
    ensures
        wf(m[i].1),
    decreases n,
{
    if i < n - 1 {
        lemma_wf_entry(m, (n - 1) as nat, i);
    }
}

/// Merge idempotence: when every path of the policy is isolated and the
/// source is well-formed, merging the same source again into the merged
/// document gives that document unchanged, so a second run has nothing to
/// write.
pub proof fn lemma_merge_idempotent(src: JModel, dst: JModel, cfg: SyncClientMergeCfg)
    requires
        wf(src),
        forall|i: int| 0 <= i < cfg.keep_paths@.len() ==> #[trigger] keep_isolated(src, cfg, i),
        forall|i: int| 0 <= i < cfg.nosync_paths@.len() ==> #[trigger] nosync_isolated(src, cfg, i),
        forall|i: int| 0 <= i < arr_model(cfg.array).len() ==> #[trigger] array_isolated(src, cfg, i),
    ensures
        merge_spec(src, merge_spec(src, dst, cfg), cfg) == merge_spec(src, dst, cfg),
{
    let r1m = merge_spec(src, dst, cfg);
    let k = seg_model(cfg.keep_paths@);
    let o = seg_model(cfg.override_paths@);
    let s = seg_model(cfg.nosync_paths@);
    let a = arr_model(cfg.array);
    let r1 = apply_overrides(src, src, o, o.len());
    assert forall|j: int| 0 <= j < k.len() implies get_in(dst, path_segments(#[trigger] k[j])) == get_in(r1m, path_segments(k[j])) by {
        assert(keep_isolated(src, cfg, j));
        lemma_merge_keep(src, dst, cfg, j);
    }
    lemma_keeps_same(r1, dst, r1m, k, k.len());
    let r2 = apply_keeps(r1, dst, k, k.len());
    assert forall|j: int| 0 <= j < s.len() implies get_in(dst, path_segments(#[trigger] s[j])) == get_in(r1m, path_segments(s[j])) by {
        assert(nosync_isolated(src, cfg, j));
        lemma_merge_nosync(src, dst, cfg, j);
    }
    lemma_keeps_same(r2, dst, r1m, s, s.len());
    let r3 = apply_keeps(r2, dst, s, s.len());
    assert forall|j: int| 0 <= j < a.len() implies array_value(src, dst, #[trigger] a[j]) == array_value(src, r1m, a[j]) by {
        let q = path_segments(a[j].0);
        if a[j].1 == seq!['u', 'n', 'i', 'o', 'n'] {
            match get_in(src, q) {
                Some(JModel::Array(sa)) => {
                    assert(array_isolated(src, cfg, j));
                    lemma_merge_array(src, dst, cfg, j);
                    lemma_wf_get(src, q);
                    lemma_union_idempotent(array_items(get_in(dst, q)), sa);
                },
                _ => {},
            }
        }
    }
    lemma_arrays_same(r3, src, dst, r1m, a, a.len());
}

} // verus!
