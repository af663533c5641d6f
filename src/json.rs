//! The document tree and its mathematical model.
//!
//! Objects keep their entries in insertion order. Lookups go by the first
//! entry with a given key, which is the only one in a well-formed object.
use vstd::prelude::*;

verus! {

/// A parsed structured document.
pub enum Json {
    Null,
    Bool(bool),
    /// A number, held as its canonical decimal text.
    Number(String),
    Str(String),
    Array(Vec<Json>),
    Object(Vec<(String, Json)>),
}

/// The mathematical model of a document.
pub enum JModel {
    Null,
    Bool(bool),
    Number(Seq<char>),
    Str(Seq<char>),
    Array(Seq<JModel>),
    Object(Seq<(Seq<char>, JModel)>),
}

/// Models of the first `n` items.
pub open spec fn items_model(s: Seq<Json>, n: nat) -> Seq<JModel>
    decreases s, n,
{
    if n == 0 || n > s.len() {
        Seq::empty()
    } else {
        items_model(s, (n - 1) as nat).push(s[n - 1].model())
    }
}

/// Models of the first `n` entries.
pub open spec fn entries_model(s: Seq<(String, Json)>, n: nat) -> Seq<(Seq<char>, JModel)>
    decreases s, n,
{
    if n == 0 || n > s.len() {
        Seq::empty()
    } else {
        entries_model(s, (n - 1) as nat).push((s[n - 1].0@, s[n - 1].1.model()))
    }
}

impl Json {
    /// The number of nodes of the tree.
    pub open spec fn size(&self) -> nat
        decreases *self, 0nat,
    {
        match self {
            Json::Array(v) => 1 + items_size(v@, v@.len()),
            Json::Object(m) => 1 + entries_size(m@, m@.len()),
            _ => 1,
        }
    }

    pub open spec fn model(&self) -> JModel
        decreases *self, 0nat,
    {
        match self {
            Json::Null => JModel::Null,
            Json::Bool(b) => JModel::Bool(*b),
            Json::Number(n) => JModel::Number(n@),
            Json::Str(s) => JModel::Str(s@),
            Json::Array(v) => JModel::Array(items_model(v@, v@.len())),
            Json::Object(m) => JModel::Object(entries_model(m@, m@.len())),
        }
    }
}


/// Total size of the first `n` items.
pub open spec fn items_size(s: Seq<Json>, n: nat) -> nat
    decreases s, n,
{
    if n == 0 || n > s.len() {
        0
    } else {
        items_size(s, (n - 1) as nat) + s[n - 1].size()
    }
}

/// Total size of the values of the first `n` entries.
pub open spec fn entries_size(s: Seq<(String, Json)>, n: nat) -> nat
    decreases s, n,
{
    if n == 0 || n > s.len() {
        0
    } else {
        entries_size(s, (n - 1) as nat) + s[n - 1].1.size()
    }
}

pub proof fn lemma_items_size(s: Seq<Json>, n: nat, i: int)
    requires
        n <= s.len(),
        0 <= i < n,
    ensures
        s[i].size() <= items_size(s, n),
    decreases n,
{
    if i < n - 1 {
        lemma_items_size(s, (n - 1) as nat, i);
    }
}

pub proof fn lemma_entries_size(s: Seq<(String, Json)>, n: nat, i: int)
    requires
        n <= s.len(),
        0 <= i < n,
    ensures
        s[i].1.size() <= entries_size(s, n),
    decreases n,
{
    if i < n - 1 {
        lemma_entries_size(s, (n - 1) as nat, i);
    }
}

pub proof fn lemma_items_model(s: Seq<Json>, n: nat)
    requires
        n <= s.len(),
    ensures
        items_model(s, n).len() == n,
        forall|i: int| 0 <= i < n ==> #[trigger] items_model(s, n)[i] == s[i].model(),
    decreases n,
{
    if n > 0 {
        lemma_items_model(s, (n - 1) as nat);
    }
}

pub proof fn lemma_entries_model(s: Seq<(String, Json)>, n: nat)
    requires
        n <= s.len(),
    ensures
        entries_model(s, n).len() == n,
        forall|i: int|
            0 <= i < n ==> #[trigger] entries_model(s, n)[i] == (s[i].0@, s[i].1.model()),
    decreases n,
{
    if n > 0 {
        lemma_entries_model(s, (n - 1) as nat);
    }
}

/// The index of the first entry whose key is `k`, or -1.
pub open spec fn find_key(m: Seq<(Seq<char>, JModel)>, k: Seq<char>) -> int
    decreases m.len(),
{
    if m.len() == 0 {
        -1
    } else {
        let j = find_key(m.drop_last(), k);
        if j >= 0 {
            j
        } else if m.last().0 == k {
            m.len() - 1
        } else {
            -1
        }
    }
}

pub proof fn lemma_find_key(m: Seq<(Seq<char>, JModel)>, k: Seq<char>)
    ensures
        -1 <= find_key(m, k) < m.len(),
        find_key(m, k) >= 0 ==> m[find_key(m, k)].0 == k,
        forall|i: int| 0 <= i < m.len() && (find_key(m, k) < 0 || i < find_key(m, k))
            ==> #[trigger] m[i].0 != k,
    decreases m.len(),
{
    if m.len() > 0 {
        lemma_find_key(m.drop_last(), k);
        assert forall|i: int| 0 <= i < m.len() - 1 implies #[trigger] m[i] == m.drop_last()[i] by {}
    }
}

/// Structural equality in which the entries of an object may come in any order.
pub open spec fn same(a: JModel, b: JModel) -> bool
    decreases a, 0nat,
{
    match a {
        JModel::Array(xs) => match b {
            JModel::Array(ys) => xs.len() == ys.len() && same_items(xs, ys, xs.len()),
            _ => false,
        },
        JModel::Object(xs) => match b {
            JModel::Object(ys) => xs.len() == ys.len() && same_entries(xs, ys, xs.len()),
            _ => false,
        },
        _ => a == b,
    }
}

/// The first `n` items of `xs` are the same as those of `ys`.
pub open spec fn same_items(xs: Seq<JModel>, ys: Seq<JModel>, n: nat) -> bool
    decreases xs, n,
{
    if n == 0 {
        true
    } else if n > xs.len() || n > ys.len() {
        false
    } else {
        same_items(xs, ys, (n - 1) as nat) && same(xs[n - 1], ys[n - 1])
    }
}

/// Each of the first `n` entries of `xs` has the same value under its key in `ys`.
pub open spec fn same_entries(
    xs: Seq<(Seq<char>, JModel)>,
    ys: Seq<(Seq<char>, JModel)>,
    n: nat,
) -> bool
    decreases xs, n,
{
    if n == 0 {
        true
    } else if n > xs.len() {
        false
    } else {
        same_entries(xs, ys, (n - 1) as nat) && {
            let j = find_key(ys, xs[n - 1].0);
            j >= 0 && same(xs[n - 1].1, ys[j].1)
        }
    }
}

pub proof fn lemma_same_items_prefix(xs: Seq<JModel>, ys: Seq<JModel>, n: nat, m: nat)
    requires
        m <= n,
        same_items(xs, ys, n),
    ensures
        same_items(xs, ys, m),
    decreases n,
{
    if m < n {
        lemma_same_items_prefix(xs, ys, (n - 1) as nat, m);
    }
}

pub proof fn lemma_same_entries_prefix(
    xs: Seq<(Seq<char>, JModel)>,
    ys: Seq<(Seq<char>, JModel)>,
    n: nat,
    m: nat,
)
    requires
        m <= n,
        same_entries(xs, ys, n),
    ensures
        same_entries(xs, ys, m),
    decreases n,
{
    if m < n {
        lemma_same_entries_prefix(xs, ys, (n - 1) as nat, m);
    }
}

/// Keys of a path, as sequences of characters.
pub open spec fn seg_model(segs: Seq<String>) -> Seq<Seq<char>> {
    segs.map_values(|s: String| s@)
}

pub proof fn lemma_seg_push(s: Seq<String>, x: String)
    ensures
        seg_model(s.push(x)) == seg_model(s).push(x@),
        seg_model(s.push(x)).len() == s.len() + 1,
{
    let a = seg_model(s.push(x));
    let b = seg_model(s).push(x@);
    assert forall|i: int| 0 <= i < a.len() implies a[i] == b[i] by {
        if i < s.len() {
            assert(s.push(x)[i] == s[i]);
        }
    }
    assert(a =~= b);
}

/// The value found by walking `segs` through objects from `doc`.
pub open spec fn get_in(doc: JModel, segs: Seq<Seq<char>>) -> Option<JModel>
    decreases segs.len(),
{
    if segs.len() == 0 {
        Some(doc)
    } else {
        match doc {
            JModel::Object(m) => {
                let j = find_key(m, segs[0]);
                if j < 0 {
                    None
                } else {
                    get_in(m[j].1, segs.drop_first())
                }
            },
            _ => None,
        }
    }
}

/// Inserting `v` under `k`: an existing entry keeps its place, a new one goes last.
pub open spec fn put(m: Seq<(Seq<char>, JModel)>, k: Seq<char>, v: JModel) -> Seq<(Seq<char>, JModel)> {
    let j = find_key(m, k);
    if j < 0 {
        m.push((k, v))
    } else {
        m.update(j, (k, v))
    }
}

/// Removing the entry under `k`: the last entry moves into its place.
pub open spec fn drop_key(m: Seq<(Seq<char>, JModel)>, k: Seq<char>) -> Seq<(Seq<char>, JModel)> {
    let j = find_key(m, k);
    if j < 0 {
        m
    } else {
        m.update(j, m.last()).drop_last()
    }
}

/// Setting (`Some`) or clearing (`None`) the value at a non-empty path.
/// When setting, missing intermediate keys are created as empty objects; when
/// clearing, a missing key on the way leaves the document unchanged, as does a
/// value on the way that is not an object.
pub open spec fn set_in(cur: JModel, segs: Seq<Seq<char>>, val: Option<JModel>) -> JModel
    decreases segs.len(),
{
    match cur {
        JModel::Object(m) => {
            if segs.len() == 0 {
                cur
            } else if segs.len() == 1 {
                match val {
                    Some(v) => JModel::Object(put(m, segs[0], v)),
                    None => JModel::Object(drop_key(m, segs[0])),
                }
            } else {
                let j = find_key(m, segs[0]);
                if j < 0 && val is None {
                    cur
                } else if j < 0 {
                    JModel::Object(
                        m.push((segs[0], set_in(JModel::Object(Seq::empty()), segs.drop_first(), val))),
                    )
                } else {
                    JModel::Object(m.update(j, (m[j].0, set_in(m[j].1, segs.drop_first(), val))))
                }
            }
        },
        _ => cur,
    }
}

/// Setting or clearing at a path; the empty path replaces the whole document.
pub open spec fn set_path_spec(doc: JModel, segs: Seq<Seq<char>>, val: Option<JModel>) -> JModel {
    if segs.len() == 0 {
        match val {
            Some(v) => v,
            None => JModel::Null,
        }
    } else {
        set_in(doc, segs, val)
    }
}

impl Json {
    /// A copy of the whole tree.
    pub fn deep_clone(&self) -> (r: Json)
        ensures
            r.model() == self.model(),
        decreases self.size(),
    {
        match self {
            Json::Null => Json::Null,
            Json::Bool(b) => Json::Bool(*b),
            Json::Number(n) => Json::Number(n.clone()),
            Json::Str(s) => Json::Str(s.clone()),
            Json::Array(v) => {
                let mut out: Vec<Json> = Vec::new();
                let mut i: usize = 0;
                while i < v.len()
                    invariant
                        i <= v.len(),
                        self.size() == 1 + items_size(v@, v@.len()),
                        out@.len() == i,
                        forall|j: int| 0 <= j < i ==> #[trigger] out@[j].model() == v@[j].model(),
                    decreases v.len() - i,
                {
                    proof {
                        lemma_items_size(v@, v@.len(), i as int);
                    }
                    let c = v[i].deep_clone();
                    out.push(c);
                    i += 1;
                }
                proof {
                    lemma_items_model(out@, out@.len());
                    lemma_items_model(v@, v@.len());
                    assert(items_model(out@, out@.len()) =~= items_model(v@, v@.len()));
                }
                Json::Array(out)
            },
            Json::Object(m) => {
                let mut out: Vec<(String, Json)> = Vec::new();
                let mut i: usize = 0;
                while i < m.len()
                    invariant
                        i <= m.len(),
                        self.size() == 1 + entries_size(m@, m@.len()),
                        out@.len() == i,
                        forall|j: int|
                            0 <= j < i ==> #[trigger] out@[j].1.model() == m@[j].1.model()
                                && out@[j].0@ == m@[j].0@,
                    decreases m.len() - i,
                {
                    proof {
                        lemma_entries_size(m@, m@.len(), i as int);
                    }
                    let c = m[i].1.deep_clone();
                    out.push((m[i].0.clone(), c));
                    i += 1;
                }
                proof {
                    lemma_entries_model(out@, out@.len());
                    lemma_entries_model(m@, m@.len());
                    assert(entries_model(out@, out@.len()) =~= entries_model(m@, m@.len()));
                }
                Json::Object(out)
            },
        }
    }
}


/// The model of an optional document.
pub open spec fn opt_model(o: Option<Json>) -> Option<JModel> {
    match o {
        Some(v) => Some(v.model()),
        None => None,
    }
}

/// The model of the entries of an object.
pub open spec fn emodel(m: Seq<(String, Json)>) -> Seq<(Seq<char>, JModel)> {
    entries_model(m, m.len())
}

/// The index of the first entry of `m` under `k`.
pub fn find_entry(m: &Vec<(String, Json)>, k: &String) -> (r: Option<usize>)
    ensures
        match r {
            Some(j) => j < m@.len() && find_key(emodel(m@), k@) == j,
            None => find_key(emodel(m@), k@) < 0,
        },
{
    proof {
        lemma_entries_model(m@, m@.len());
        lemma_find_key(emodel(m@), k@);
    }
    let mut i: usize = 0;
    while i < m.len()
        invariant
            i <= m@.len(),
            emodel(m@).len() == m@.len(),
            forall|j: int| 0 <= j < m@.len() ==> #[trigger] emodel(m@)[j].0 == m@[j].0@,
            forall|j: int| 0 <= j < i ==> #[trigger] m@[j].0@ != k@,
            -1 <= find_key(emodel(m@), k@) < m@.len(),
            find_key(emodel(m@), k@) >= 0 ==> emodel(m@)[find_key(emodel(m@), k@)].0 == k@,
            forall|j: int|
                0 <= j < m@.len() && (find_key(emodel(m@), k@) < 0 || j < find_key(emodel(m@), k@))
                    ==> #[trigger] emodel(m@)[j].0 != k@,
        decreases m.len() - i,
    {
        if m[i].0 == *k {
            proof {
                let fk = find_key(emodel(m@), k@);
                assert(emodel(m@)[i as int].0 == k@);
                if fk >= 0 && fk < i {
                    assert(m@[fk].0@ != k@);
                    assert(emodel(m@)[fk].0 == m@[fk].0@);
                }
            }
            return Some(i);
        }
        i += 1;
    }
    None
}

/// Inserts `v` under `k`, in place where the key exists, else last.
pub fn put_entry(m: &mut Vec<(String, Json)>, k: &String, v: Json)
    ensures
        emodel(final(m)@) == put(emodel(old(m)@), k@, v.model()),
{
    proof {
        lemma_entries_model(m@, m@.len());
    }
    let ghost vm = v.model();
    match find_entry(m, k) {
        Some(j) => {
            m.set(j, (k.clone(), v));
            proof {
                lemma_entries_model(m@, m@.len());
                assert(emodel(m@) =~= emodel(old(m)@).update(j as int, (k@, vm)));
            }
        },
        None => {
            m.push((k.clone(), v));
            proof {
                lemma_entries_model(m@, m@.len());
                assert(emodel(m@) =~= emodel(old(m)@).push((k@, vm)));
            }
        },
    }
}

/// Removes the entry under `k`; the last entry takes its place.
pub fn remove_entry(m: &mut Vec<(String, Json)>, k: &String)
    ensures
        emodel(final(m)@) == drop_key(emodel(old(m)@), k@),
{
    proof {
        lemma_entries_model(m@, m@.len());
    }
    match find_entry(m, k) {
        Some(j) => {
            let _ = m.swap_remove(j);
            proof {
                lemma_entries_model(m@, m@.len());
                let om = emodel(old(m)@);
                assert(emodel(m@) =~= om.update(j as int, om.last()).drop_last());
            }
        },
        None => {},
    }
}

/// Whether two documents are equal, objects compared regardless of entry order.
pub fn json_eq(a: &Json, b: &Json) -> (r: bool)
    ensures
        r == same(a.model(), b.model()),
    decreases a.size(),
{
    match a {
        Json::Array(va) => match b {
            Json::Array(vb) => {
                if va.len() != vb.len() {
                    proof {
                        lemma_items_model(va@, va@.len());
                        lemma_items_model(vb@, vb@.len());
                    }
                    return false;
                }
                let ghost xs = items_model(va@, va@.len());
                let ghost ys = items_model(vb@, vb@.len());
                proof {
                    lemma_items_model(va@, va@.len());
                    lemma_items_model(vb@, vb@.len());
                }
                let mut i: usize = 0;
                while i < va.len()
                    invariant
                        i <= va@.len(),
                        va@.len() == vb@.len(),
                        a.size() == 1 + items_size(va@, va@.len()),
                        a.model() == JModel::Array(xs),
                        b.model() == JModel::Array(ys),
                        xs.len() == va@.len(),
                        ys.len() == vb@.len(),
                        forall|j: int| 0 <= j < va@.len() ==> #[trigger] xs[j] == va@[j].model(),
                        forall|j: int| 0 <= j < vb@.len() ==> #[trigger] ys[j] == vb@[j].model(),
                        same_items(xs, ys, i as nat),
                    decreases va.len() - i,
                {
                    proof {
                        lemma_items_size(va@, va@.len(), i as int);
                    }
                    if !json_eq(&va[i], &vb[i]) {
                        proof {
                            if same_items(xs, ys, xs.len()) {
                                lemma_same_items_prefix(xs, ys, xs.len(), (i + 1) as nat);
                            }
                        }
                        return false;
                    }
                    i += 1;
                }
                true
            },
            _ => false,
        },
        Json::Object(ma) => match b {
            Json::Object(mb) => {
                proof {
                    lemma_entries_model(ma@, ma@.len());
                    lemma_entries_model(mb@, mb@.len());
                }
                if ma.len() != mb.len() {
                    return false;
                }
                let ghost xs = emodel(ma@);
                let ghost ys = emodel(mb@);
                let mut i: usize = 0;
                while i < ma.len()
                    invariant
                        i <= ma@.len(),
                        ma@.len() == mb@.len(),
                        a.size() == 1 + entries_size(ma@, ma@.len()),
                        a.model() == JModel::Object(xs),
                        b.model() == JModel::Object(ys),
                        xs == emodel(ma@),
                        ys == emodel(mb@),
                        xs.len() == ma@.len(),
                        ys.len() == mb@.len(),
                        forall|j: int|
                            0 <= j < ma@.len() ==> #[trigger] xs[j] == (ma@[j].0@, ma@[j].1.model()),
                        forall|j: int|
                            0 <= j < mb@.len() ==> #[trigger] ys[j] == (mb@[j].0@, mb@[j].1.model()),
                        same_entries(xs, ys, i as nat),
                    decreases ma.len() - i,
                {
                    proof {
                        lemma_entries_size(ma@, ma@.len(), i as int);
                    }
                    match find_entry(mb, &ma[i].0) {
                        None => {
                            proof {
                                if same_entries(xs, ys, xs.len()) {
                                    lemma_same_entries_prefix(xs, ys, xs.len(), (i + 1) as nat);
                                }
                            }
                            return false;
                        },
                        Some(j) => {
                            if !json_eq(&ma[i].1, &mb[j].1) {
                                proof {
                                    if same_entries(xs, ys, xs.len()) {
                                        lemma_same_entries_prefix(xs, ys, xs.len(), (i + 1) as nat);
                                    }
                                }
                                return false;
                            }
                        },
                    }
                    i += 1;
                }
                true
            },
            _ => false,
        },
        Json::Null => matches!(b, Json::Null),
        Json::Bool(x) => match b {
            Json::Bool(y) => *x == *y,
            _ => false,
        },
        Json::Number(x) => match b {
            Json::Number(y) => *x == *y,
            _ => false,
        },
        Json::Str(x) => match b {
            Json::Str(y) => *x == *y,
            _ => false,
        },
    }
}

} // verus!
