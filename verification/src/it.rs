//! The `it` configuration format: a header naming a parent file, then
//! sections of `key = value` lines, merged along the `extends` chain with
//! the child's scalars winning and multi-valued entries unioned.
use vstd::prelude::*;
use vstd::string::{StrSliceExecFns, StringExecFns};

use crate::Error;

verus! {

broadcast use vstd::std_specs::vec::group_vec_axioms, vstd::seq::group_seq_axioms;

/// One value: a signed number, a quoted or bare string, or a set of
/// leaves grown by merging.
#[derive(Debug)]
pub enum ITValue {
    Number(i32),
    SetOf(Vec<ITValue>),
    String(String),
}

/// The abstract value of a leaf entry.
pub enum ITLeaf {
    Num(i32),
    Str(Seq<char>),
}

/// The abstract value of an entry: sets are modelled as mathematical sets
/// of their leaf elements.
pub enum ITValueModel {
    Num(i32),
    Str(Seq<char>),
    SetV(Set<ITLeaf>),
}

impl ITValue {
    /// The abstract value of a leaf (a set never nests inside another).
    pub open spec fn leaf_model(self) -> ITLeaf {
        match self {
            ITValue::Number(n) => ITLeaf::Num(n),
            ITValue::String(s) => ITLeaf::Str(s@),
            ITValue::SetOf(_) => arbitrary(),
        }
    }

    /// The abstract value of any entry.
    pub open spec fn model(self) -> ITValueModel {
        match self {
            ITValue::Number(n) => ITValueModel::Num(n),
            ITValue::String(s) => ITValueModel::Str(s@),
            ITValue::SetOf(vs) => ITValueModel::SetV(set_model(vs@)),
        }
    }

    /// Sets hold only distinct leaves.
    pub open spec fn wf(self) -> bool {
        match self {
            ITValue::SetOf(vs) => set_wf(vs@),
            _ => true,
        }
    }
}

/// The set of leaf models a set's element vector denotes.
pub open spec fn set_model(vs: Seq<ITValue>) -> Set<ITLeaf> {
    vs.map_values(|v: ITValue| v.leaf_model()).to_set()
}

/// A well-formed element vector: only leaves, no two with the same model.
pub open spec fn set_wf(vs: Seq<ITValue>) -> bool {
    &&& forall|i: int| 0 <= i < vs.len() ==> !((#[trigger] vs[i]) is SetOf)
    &&& forall|i: int, j: int|
        0 <= i < j < vs.len() ==> (#[trigger] vs[i]).leaf_model() != (#[trigger] vs[j]).leaf_model()
}

/// Whether two leaves have the same abstract value.
fn leaf_eq(a: &ITValue, b: &ITValue) -> (r: bool)
    requires
        !(a is SetOf),
        !(b is SetOf),
    ensures
        r == (a.leaf_model() == b.leaf_model()),
{
    match (a, b) {
        (ITValue::Number(x), ITValue::Number(y)) => *x == *y,
        (ITValue::String(x), ITValue::String(y)) => x.eq(y),
        _ => false,
    }
}

/// Adds a leaf to an element vector unless a leaf with the same model is
/// already there.
fn insert_unique(vs: &mut Vec<ITValue>, v: ITValue)
    requires
        set_wf(old(vs)@),
        !(v is SetOf),
    ensures
        set_wf(final(vs)@),
        set_model(final(vs)@) == set_model(old(vs)@).insert(v.leaf_model()),
{
    let n = vs.len();
    let mut i: usize = 0;
    while i < n
        invariant
            n == vs@.len(),
            i <= n,
            vs@ == old(vs)@,
            set_wf(vs@),
            !(v is SetOf),
            forall|j: int| 0 <= j < i ==> (#[trigger] vs@[j]).leaf_model() != v.leaf_model(),
        decreases n - i,
    {
        if leaf_eq(&vs[i], &v) {
            proof {
                let ms = vs@.map_values(|x: ITValue| x.leaf_model());
                assert(ms[i as int] == v.leaf_model());
                assert(set_model(vs@).contains(v.leaf_model()));
                assert(set_model(vs@) =~= set_model(old(vs)@).insert(v.leaf_model()));
            }
            return ;
        }
        i = i + 1;
    }
    let ghost pre = vs@;
    vs.push(v);
    proof {
        let msp = vs@.map_values(|x: ITValue| x.leaf_model());
        let ms = pre.map_values(|x: ITValue| x.leaf_model());
        assert(msp =~= ms.push(v.leaf_model()));
        assert forall|m: ITLeaf| #[trigger] msp.to_set().contains(m) implies ms.to_set().insert(
            v.leaf_model(),
        ).contains(m) by {
            let ix = choose|ix: int| 0 <= ix < msp.len() && msp[ix] == m;
            if ix < ms.len() {
                assert(ms[ix] == m);
            }
        }
        assert forall|m: ITLeaf|
            ms.to_set().insert(v.leaf_model()).contains(m) implies #[trigger] msp.to_set().contains(
            m,
        ) by {
            if ms.to_set().contains(m) {
                let ix = choose|ix: int| 0 <= ix < ms.len() && ms[ix] == m;
                assert(msp[ix] == m);
            } else {
                assert(msp[msp.len() - 1] == m);
            }
        }
        assert(set_model(vs@) =~= set_model(pre).insert(v.leaf_model()));
    }
}

/// Pours every leaf of `other` into `vs`: afterwards `vs` denotes the
/// union of both sets.
fn union_into(vs: &mut Vec<ITValue>, other: Vec<ITValue>)
    requires
        set_wf(old(vs)@),
        set_wf(other@),
    ensures
        set_wf(final(vs)@),
        set_model(final(vs)@) == set_model(old(vs)@).union(set_model(other@)),
{
    let mut rest = other;
    let n = rest.len();
    let ghost others = rest@;
    let mut i: usize = 0;
    while i < n
        invariant
            n == others.len(),
            i <= n,
            rest@ == others,
            set_wf(others),
            set_wf(vs@),
            set_model(vs@) == set_model(old(vs)@).union(set_model(others.subrange(0, i as int))),
        decreases n - i,
    {
        let ghost pre = vs@;
        let v = rest[i].clone_value();
        proof {
            assert(!(others[i as int] is SetOf));
        }
        insert_unique(vs, v);
        proof {
            let sub1 = others.subrange(0, i as int + 1);
            let sub0 = others.subrange(0, i as int);
            assert(sub1 =~= sub0.push(others[i as int]));
            let m1 = sub1.map_values(|x: ITValue| x.leaf_model());
            let m0 = sub0.map_values(|x: ITValue| x.leaf_model());
            assert(m1 =~= m0.push(others[i as int].leaf_model()));
            assert forall|m: ITLeaf| #[trigger] m1.to_set().contains(m) implies m0.to_set().insert(
                others[i as int].leaf_model(),
            ).contains(m) by {
                let ix = choose|ix: int| 0 <= ix < m1.len() && m1[ix] == m;
                if ix < m0.len() {
                    assert(m0[ix] == m);
                }
            }
            assert forall|m: ITLeaf|
                m0.to_set().insert(others[i as int].leaf_model()).contains(m)
                    implies #[trigger] m1.to_set().contains(m) by {
                if m0.to_set().contains(m) {
                    let ix = choose|ix: int| 0 <= ix < m0.len() && m0[ix] == m;
                    assert(m1[ix] == m);
                } else {
                    assert(m1[m1.len() - 1] == m);
                }
            }
            assert(set_model(sub1) =~= set_model(sub0).insert(others[i as int].leaf_model()));
            assert(set_model(vs@) =~= set_model(old(vs)@).union(set_model(sub1)));
        }
        i = i + 1;
    }
    proof {
        assert(others.subrange(0, n as int) =~= others);
    }
}

/// A fresh copy of a leaf; a nested set (which a well-formed set never
/// holds) comes back empty.
fn leaf_clone(v: &ITValue) -> (r: ITValue)
    ensures
        !(v is SetOf) ==> r.leaf_model() == v.leaf_model() && !(r is SetOf) && r.model()
            == v.model(),
{
    match v {
        ITValue::Number(n) => ITValue::Number(*n),
        ITValue::String(s) => ITValue::String(s.clone()),
        ITValue::SetOf(_) => ITValue::SetOf(Vec::new()),
    }
}

impl ITValue {
    /// A structurally fresh copy with the same abstract value.
    pub fn clone_value(&self) -> (r: ITValue)
        ensures
            !(self is SetOf) ==> r.leaf_model() == self.leaf_model() && !(r is SetOf) && r.model()
                == self.model(),
            self is SetOf ==> r is SetOf,
            self.wf() ==> r.model() == self.model() && r.wf(),
    {
        match self {
            ITValue::Number(n) => ITValue::Number(*n),
            ITValue::String(s) => ITValue::String(s.clone()),
            ITValue::SetOf(vs) => {
                let n = vs.len();
                let mut out: Vec<ITValue> = Vec::new();
                let mut i: usize = 0;
                while i < n
                    invariant
                        n == vs@.len(),
                        i <= n,
                        out@.len() == i,
                        forall|j: int|
                            0 <= j < i ==> !(vs@[j] is SetOf) ==> (#[trigger] out@[j]).leaf_model()
                                == vs@[j].leaf_model() && !(out@[j] is SetOf),
                    decreases n - i,
                {
                    out.push(leaf_clone(&vs[i]));
                    i = i + 1;
                }
                proof {
                    if set_wf(vs@) {
                        assert(out@.map_values(|x: ITValue| x.leaf_model()) =~= vs@.map_values(
                            |x: ITValue| x.leaf_model(),
                        ));
                        assert forall|a: int, b: int|
                            0 <= a < b < out@.len() implies (#[trigger] out@[a]).leaf_model() != (
                        #[trigger] out@[b]).leaf_model() by {
                            assert(vs@[a].leaf_model() != vs@[b].leaf_model());
                        }
                    }
                }
                ITValue::SetOf(out)
            },
        }
    }
}


/// The first value stored under key `k`, scanning entries in order.
pub open spec fn kv_lookup(es: Seq<(String, ITValue)>, k: Seq<char>) -> Option<ITValue>
    decreases es.len(),
{
    if es.len() == 0 {
        None
    } else if es[0].0@ == k {
        Some(es[0].1)
    } else {
        kv_lookup(es.drop_first(), k)
    }
}

/// The abstract value stored under key `k`, if any.
pub open spec fn kv_model(es: Seq<(String, ITValue)>, k: Seq<char>) -> Option<ITValueModel> {
    match kv_lookup(es, k) {
        None => None,
        Some(v) => Some(v.model()),
    }
}

/// With no match among the first `i` entries and a match at `i`, the
/// lookup lands on entry `i`.
pub proof fn lemma_kv_lookup_at(es: Seq<(String, ITValue)>, k: Seq<char>, i: int)
    requires
        0 <= i < es.len(),
        es[i].0@ == k,
        forall|j: int| 0 <= j < i ==> (#[trigger] es[j]).0@ != k,
    ensures
        kv_lookup(es, k) == Some(es[i].1),
    decreases i,
{
    if i > 0 {
        lemma_kv_lookup_at(es.drop_first(), k, i - 1);
    }
}

/// With no match anywhere, the lookup is empty.
pub proof fn lemma_kv_lookup_none(es: Seq<(String, ITValue)>, k: Seq<char>)
    requires
        forall|j: int| 0 <= j < es.len() ==> (#[trigger] es[j]).0@ != k,
    ensures
        kv_lookup(es, k) is None,
    decreases es.len(),
{
    if es.len() > 0 {
        lemma_kv_lookup_none(es.drop_first(), k);
    }
}

/// Appending an entry changes only lookups that were empty and match its
/// key.
pub proof fn lemma_kv_lookup_push(es: Seq<(String, ITValue)>, e: (String, ITValue), k: Seq<char>)
    ensures
        kv_lookup(es.push(e), k) == if kv_lookup(es, k) is Some {
            kv_lookup(es, k)
        } else if e.0@ == k {
            Some(e.1)
        } else {
            None
        },
    decreases es.len(),
{
    if es.len() == 0 {
        assert(es.push(e)[0] == e);
        assert(es.push(e).drop_first() =~= Seq::<(String, ITValue)>::empty());
        assert(kv_lookup(es, k) is None);
        if e.0@ == k {
            assert(kv_lookup(es.push(e), k) == Some(e.1));
        } else {
            assert(kv_lookup(es.push(e), k) == kv_lookup(
                Seq::<(String, ITValue)>::empty(),
                k,
            ));
        }
    } else {
        assert(es.push(e)[0] == es[0]);
        assert(es.push(e).drop_first() =~= es.drop_first().push(e));
        lemma_kv_lookup_push(es.drop_first(), e, k);
        if es[0].0@ == k {
            assert(kv_lookup(es.push(e), k) == Some(es[0].1));
            assert(kv_lookup(es, k) == Some(es[0].1));
        } else {
            assert(kv_lookup(es.push(e), k) == kv_lookup(es.drop_first().push(e), k));
            assert(kv_lookup(es, k) == kv_lookup(es.drop_first(), k));
        }
    }
}

/// A non-empty lookup names some entry's key.
pub proof fn lemma_kv_lookup_some_exists(es: Seq<(String, ITValue)>, k: Seq<char>)
    requires
        kv_lookup(es, k) is Some,
    ensures
        exists|i: int| 0 <= i < es.len() && (#[trigger] es[i]).0@ == k,
    decreases es.len(),
{
    if es.len() > 0 && es[0].0@ != k {
        lemma_kv_lookup_some_exists(es.drop_first(), k);
        let i = choose|i: int|
            0 <= i < es.drop_first().len() && (#[trigger] es.drop_first()[i]).0@ == k;
        assert(es[i + 1].0@ == k);
    }
}

/// Finds the first entry whose key equals `k`.
fn kv_find(es: &Vec<(String, ITValue)>, k: &String) -> (r: Option<usize>)
    ensures
        r matches Some(i) ==> i < es@.len() && es@[i as int].0@ == k@ && kv_lookup(es@, k@)
            == Some(es@[i as int].1),
        r is None ==> kv_lookup(es@, k@) is None,
{
    let n = es.len();
    let mut i: usize = 0;
    while i < n
        invariant
            n == es@.len(),
            i <= n,
            forall|j: int| 0 <= j < i ==> (#[trigger] es@[j]).0@ != k@,
        decreases n - i,
    {
        if es[i].0.eq(k) {
            proof {
                lemma_kv_lookup_at(es@, k@, i as int);
            }
            return Some(i);
        }
        i = i + 1;
    }
    proof {
        lemma_kv_lookup_none(es@, k@);
    }
    None
}

/// Entry keys are distinct and every value is well-formed.
pub open spec fn kv_wf(es: Seq<(String, ITValue)>) -> bool {
    &&& forall|i: int, j: int| 0 <= i < j < es.len() ==> (#[trigger] es[i]).0@ != (#[trigger] es[j]).0@
    &&& forall|i: int| 0 <= i < es.len() ==> (#[trigger] es[i]).1.wf()
}

/// What one merged entry holds: the child's value, except that a key the
/// child lacks takes the parent's value, and two sets take their union.
pub open spec fn spec_merged_kv(
    c: Seq<(String, ITValue)>,
    p: Seq<(String, ITValue)>,
    k: Seq<char>,
) -> Option<ITValueModel> {
    match (kv_model(c, k), kv_model(p, k)) {
        (Option::None, pv) => pv,
        (Option::Some(cv), Option::None) => Some(cv),
        (Option::Some(cv), Option::Some(pv)) => {
            if (cv matches ITValueModel::SetV(cs)) && (pv matches ITValueModel::SetV(ps)) {
                Some(ITValueModel::SetV(cv->SetV_0.union(pv->SetV_0)))
            } else {
                Some(cv)
            }
        },
    }
}

/// An empty lookup means no entry bears the key.
pub proof fn lemma_kv_lookup_none_keys(es: Seq<(String, ITValue)>, k: Seq<char>)
    requires
        kv_lookup(es, k) is None,
    ensures
        forall|j: int| 0 <= j < es.len() ==> (#[trigger] es[j]).0@ != k,
    decreases es.len(),
{
    if es.len() > 0 {
        lemma_kv_lookup_none_keys(es.drop_first(), k);
        assert forall|j: int| 0 <= j < es.len() implies (#[trigger] es[j]).0@ != k by {
            if j > 0 {
                assert(es.drop_first()[j - 1].0@ != k);
            }
        }
    }
}

/// Merges one section: child entries first, sets unioned with the
/// parent's, then the parent's entries under keys the child lacks.
fn merge_section(child: &Vec<(String, ITValue)>, parent: &Vec<(String, ITValue)>) -> (r: Vec<
    (String, ITValue),
>)
    requires
        kv_wf(child@),
        kv_wf(parent@),
    ensures
        kv_wf(r@),
        forall|k: Seq<char>| #[trigger] kv_model(r@, k) == spec_merged_kv(child@, parent@, k),
{
    let mut out: Vec<(String, ITValue)> = Vec::new();
    let n = child.len();
    let mut i: usize = 0;
    while i < n
        invariant
            n == child@.len(),
            i <= n,
            kv_wf(child@),
            kv_wf(parent@),
            kv_wf(out@),
            out@.len() == i,
            forall|j: int| 0 <= j < i ==> (#[trigger] out@[j]).0@ == child@[j].0@,
            forall|k: Seq<char>|
                #[trigger] kv_model(out@, k) == if (exists|j: int|
                    0 <= j < i && (#[trigger] child@[j]).0@ == k) {
                    spec_merged_kv(child@, parent@, k)
                } else {
                    None
                },
        decreases n - i,
    {
        let ghost pre = out@;
        let key = child[i].0.clone();
        proof {
            assert forall|j: int| 0 <= j < i implies (#[trigger] child@[j]).0@ != key@ by {}
            lemma_kv_lookup_at(child@, key@, i as int);
            assert(kv_model(child@, key@) == Some(child@[i as int].1.model()));
            assert(child@[i as int].1.wf());
        }
        let found = kv_find(parent, &key);
        let entry: (String, ITValue) = match found {
            Some(pi) => {
                proof {
                    assert(parent@[pi as int].1.wf());
                    assert(kv_model(parent@, key@) == Some(parent@[pi as int].1.model()));
                }
                let cv = &child[i].1;
                let pv = &parent[pi].1;
                let both_sets = match (cv, pv) {
                    (ITValue::SetOf(_), ITValue::SetOf(_)) => true,
                    _ => false,
                };
                if both_sets {
                    let cvc = cv.clone_value();
                    let pvc = pv.clone_value();
                    let mut cvec = match cvc {
                        ITValue::SetOf(v) => v,
                        _ => Vec::new(),
                    };
                    let pvec = match pvc {
                        ITValue::SetOf(v) => v,
                        _ => Vec::new(),
                    };
                    proof {
                        assert(set_wf(cvec@) && ITValueModel::SetV(set_model(cvec@))
                            == cv.model());
                        assert(set_wf(pvec@) && ITValueModel::SetV(set_model(pvec@))
                            == pv.model());
                    }
                    union_into(&mut cvec, pvec);
                    let merged = ITValue::SetOf(cvec);
                    proof {
                        assert(merged.wf());
                        assert(merged.model() == ITValueModel::SetV(
                            cv.model()->SetV_0.union(pv.model()->SetV_0),
                        ));
                        assert(spec_merged_kv(child@, parent@, key@) == Some(merged.model()));
                    }
                    (key, merged)
                } else {
                    let cvc = cv.clone_value();
                    proof {
                        assert(cvc.model() == cv.model() && cvc.wf());
                        assert(spec_merged_kv(child@, parent@, key@) == Some(cvc.model()));
                    }
                    (key, cvc)
                }
            },
            None => {
                let cvc = child[i].1.clone_value();
                proof {
                    assert(kv_model(parent@, key@) is None);
                    assert(cvc.model() == child@[i as int].1.model() && cvc.wf());
                    assert(spec_merged_kv(child@, parent@, key@) == Some(cvc.model()));
                }
                (key, cvc)
            },
        };
        proof {
            assert(entry.1.wf());
            assert(Some(entry.1.model()) == spec_merged_kv(child@, parent@, entry.0@));
        }
        out.push(entry);
        proof {
            assert forall|k: Seq<char>|
                #[trigger] kv_model(out@, k) == (if (exists|j: int|
                    0 <= j < i + 1 && (#[trigger] child@[j]).0@ == k) {
                    spec_merged_kv(child@, parent@, k)
                } else {
                    None
                }) by {
                lemma_kv_lookup_push(pre, entry, k);
                if kv_model(pre, k) is Some {
                } else {
                }
                if k == entry.0@ {
                    assert(child@[i as int].0@ == k);
                }
            }
        }
        i = i + 1;
    }
    let m = parent.len();
    let mut t: usize = 0;
    while t < m
        invariant
            n == child@.len(),
            m == parent@.len(),
            t <= m,
            kv_wf(child@),
            kv_wf(parent@),
            kv_wf(out@),
            forall|k: Seq<char>|
                #[trigger] kv_model(out@, k) == if (exists|j: int|
                    0 <= j < n && (#[trigger] child@[j]).0@ == k) || (exists|j: int|
                    0 <= j < t && (#[trigger] parent@[j]).0@ == k) {
                    spec_merged_kv(child@, parent@, k)
                } else {
                    None
                },
        decreases m - t,
    {
        let ghost pre = out@;
        let key = parent[t].0.clone();
        match kv_find(child, &key) {
            Some(ci) => {
                proof {
                    assert(child@[ci as int].0@ == key@);
                    assert forall|k: Seq<char>|
                        #[trigger] kv_model(out@, k) == (if (exists|j: int|
                            0 <= j < n && (#[trigger] child@[j]).0@ == k) || (exists|j: int|
                            0 <= j < t + 1 && (#[trigger] parent@[j]).0@ == k) {
                            spec_merged_kv(child@, parent@, k)
                        } else {
                            None
                        }) by {
                        if k == key@ {
                            assert(child@[ci as int].0@ == k);
                        }
                    }
                }
            },
            None => {
                proof {
                    assert forall|j: int| 0 <= j < t implies (#[trigger] parent@[j]).0@
                        != key@ by {}
                    lemma_kv_lookup_at(parent@, key@, t as int);
                    assert(kv_model(parent@, key@) == Some(parent@[t as int].1.model()));
                    assert(parent@[t as int].1.wf());
                }
                let pvc = parent[t].1.clone_value();
                proof {
                    assert(pvc.model() == parent@[t as int].1.model() && pvc.wf());
                    assert(spec_merged_kv(child@, parent@, key@) == Some(pvc.model()));
                }
                let entry = (key, pvc);
                proof {
                    lemma_kv_lookup_none_keys(child@, entry.0@);
                    if kv_model(pre, entry.0@) is Some {
                    } else {
                    }
                    assert(kv_model(pre, entry.0@) is None);
                    lemma_kv_lookup_none_keys(pre, entry.0@);
                }
                out.push(entry);
                proof {
                    assert forall|a: int, b: int|
                        0 <= a < b < out@.len() implies (#[trigger] out@[a]).0@ != (
                    #[trigger] out@[b]).0@ by {
                        if b < out@.len() - 1 {
                            assert(pre[a].0@ != pre[b].0@);
                        } else {
                            assert(pre[a].0@ != entry.0@);
                        }
                    }
                    assert(kv_wf(out@));
                    assert forall|k: Seq<char>|
                        #[trigger] kv_model(out@, k) == (if (exists|j: int|
                            0 <= j < n && (#[trigger] child@[j]).0@ == k) || (exists|j: int|
                            0 <= j < t + 1 && (#[trigger] parent@[j]).0@ == k) {
                            spec_merged_kv(child@, parent@, k)
                        } else {
                            None
                        }) by {
                        lemma_kv_lookup_push(pre, entry, k);
                        if kv_model(pre, k) is Some {
                        } else {
                        }
                        if k == entry.0@ {
                            assert(parent@[t as int].0@ == k);
                        }
                    }
                }
            },
        }
        t = t + 1;
    }
    proof {
        assert forall|k: Seq<char>| #[trigger] kv_model(out@, k) == spec_merged_kv(
            child@,
            parent@,
            k,
        ) by {
            if kv_lookup(child@, k) is Some {
                lemma_kv_lookup_some_exists(child@, k);
            } else if kv_lookup(parent@, k) is Some {
                lemma_kv_lookup_some_exists(parent@, k);
            } else {
                assert(kv_model(out@, k) is None);
            }
        }
    }
    out
}


/// The first section stored under name `k`.
pub open spec fn sec_lookup(
    ss: Seq<(String, Vec<(String, ITValue)>)>,
    k: Seq<char>,
) -> Option<Vec<(String, ITValue)>>
    decreases ss.len(),
{
    if ss.len() == 0 {
        None
    } else if ss[0].0@ == k {
        Some(ss[0].1)
    } else {
        sec_lookup(ss.drop_first(), k)
    }
}

/// Whether a section of that name exists.
pub open spec fn sec_present(ss: Seq<(String, Vec<(String, ITValue)>)>, k: Seq<char>) -> bool {
    sec_lookup(ss, k) is Some
}

/// The abstract value under section `sk`, key `kk`, if any.
pub open spec fn entry_model(
    ss: Seq<(String, Vec<(String, ITValue)>)>,
    sk: Seq<char>,
    kk: Seq<char>,
) -> Option<ITValueModel> {
    match sec_lookup(ss, sk) {
        None => None,
        Some(sec) => kv_model(sec@, kk),
    }
}

/// Section names are distinct and every section is well-formed.
pub open spec fn sections_wf(ss: Seq<(String, Vec<(String, ITValue)>)>) -> bool {
    &&& forall|i: int, j: int|
        0 <= i < j < ss.len() ==> (#[trigger] ss[i]).0@ != (#[trigger] ss[j]).0@
    &&& forall|i: int| 0 <= i < ss.len() ==> kv_wf((#[trigger] ss[i]).1@)
}

/// With no match among the first `i` sections and a match at `i`, the
/// lookup lands on section `i`.
pub proof fn lemma_sec_lookup_at(ss: Seq<(String, Vec<(String, ITValue)>)>, k: Seq<char>, i: int)
    requires
        0 <= i < ss.len(),
        ss[i].0@ == k,
        forall|j: int| 0 <= j < i ==> (#[trigger] ss[j]).0@ != k,
    ensures
        sec_lookup(ss, k) == Some(ss[i].1),
    decreases i,
{
    if i > 0 {
        lemma_sec_lookup_at(ss.drop_first(), k, i - 1);
    }
}

/// With no match anywhere, the lookup is empty.
pub proof fn lemma_sec_lookup_none(ss: Seq<(String, Vec<(String, ITValue)>)>, k: Seq<char>)
    requires
        forall|j: int| 0 <= j < ss.len() ==> (#[trigger] ss[j]).0@ != k,
    ensures
        sec_lookup(ss, k) is None,
    decreases ss.len(),
{
    if ss.len() > 0 {
        lemma_sec_lookup_none(ss.drop_first(), k);
    }
}

/// Appending a section changes only lookups that were empty and match its
/// name.
pub proof fn lemma_sec_lookup_push(
    ss: Seq<(String, Vec<(String, ITValue)>)>,
    e: (String, Vec<(String, ITValue)>),
    k: Seq<char>,
)
    ensures
        sec_lookup(ss.push(e), k) == if sec_lookup(ss, k) is Some {
            sec_lookup(ss, k)
        } else if e.0@ == k {
            Some(e.1)
        } else {
            None
        },
    decreases ss.len(),
{
    if ss.len() == 0 {
        assert(ss.push(e)[0] == e);
        assert(ss.push(e).drop_first() =~= Seq::<(String, Vec<(String, ITValue)>)>::empty());
        assert(sec_lookup(ss, k) is None);
        if e.0@ == k {
            assert(sec_lookup(ss.push(e), k) == Some(e.1));
        } else {
            assert(sec_lookup(ss.push(e), k) == sec_lookup(
                Seq::<(String, Vec<(String, ITValue)>)>::empty(),
                k,
            ));
        }
    } else {
        assert(ss.push(e)[0] == ss[0]);
        assert(ss.push(e).drop_first() =~= ss.drop_first().push(e));
        lemma_sec_lookup_push(ss.drop_first(), e, k);
        if ss[0].0@ == k {
            assert(sec_lookup(ss.push(e), k) == Some(ss[0].1));
            assert(sec_lookup(ss, k) == Some(ss[0].1));
        } else {
            assert(sec_lookup(ss.push(e), k) == sec_lookup(ss.drop_first().push(e), k));
            assert(sec_lookup(ss, k) == sec_lookup(ss.drop_first(), k));
        }
    }
}

/// A non-empty lookup names some section.
pub proof fn lemma_sec_lookup_some_exists(ss: Seq<(String, Vec<(String, ITValue)>)>, k: Seq<char>)
    requires
        sec_lookup(ss, k) is Some,
    ensures
        exists|i: int| 0 <= i < ss.len() && (#[trigger] ss[i]).0@ == k,
    decreases ss.len(),
{
    if ss.len() > 0 && ss[0].0@ != k {
        lemma_sec_lookup_some_exists(ss.drop_first(), k);
        let i = choose|i: int|
            0 <= i < ss.drop_first().len() && (#[trigger] ss.drop_first()[i]).0@ == k;
        assert(ss[i + 1].0@ == k);
    }
}

/// An empty lookup means no section bears the name.
pub proof fn lemma_sec_lookup_none_keys(ss: Seq<(String, Vec<(String, ITValue)>)>, k: Seq<char>)
    requires
        sec_lookup(ss, k) is None,
    ensures
        forall|j: int| 0 <= j < ss.len() ==> (#[trigger] ss[j]).0@ != k,
    decreases ss.len(),
{
    if ss.len() > 0 {
        lemma_sec_lookup_none_keys(ss.drop_first(), k);
        assert forall|j: int| 0 <= j < ss.len() implies (#[trigger] ss[j]).0@ != k by {
            if j > 0 {
                assert(ss.drop_first()[j - 1].0@ != k);
            }
        }
    }
}


/// Replacing the value at the first index bearing a key changes exactly
/// that key's lookup.
proof fn lemma_kv_model_replace(
    old: Seq<(String, ITValue)>,
    new: Seq<(String, ITValue)>,
    ix: int,
    kk: Seq<char>,
)
    requires
        old.len() == new.len(),
        0 <= ix < old.len(),
        forall|j: int| 0 <= j < old.len() ==> (#[trigger] new[j]).0@ == old[j].0@,
        forall|j: int| 0 <= j < old.len() && j != ix ==> #[trigger] new[j] == old[j],
        forall|j: int| 0 <= j < ix ==> (#[trigger] old[j]).0@ != old[ix].0@,
    ensures
        kv_model(new, kk) == if kk == old[ix].0@ {
            Some(new[ix].1.model())
        } else {
            kv_model(old, kk)
        },
    decreases ix,
{
    if kk == old[ix].0@ {
        assert forall|j: int| 0 <= j < ix implies (#[trigger] new[j]).0@ != kk by {
            assert(old[j].0@ != old[ix].0@);
        }
        lemma_kv_lookup_at(new, kk, ix);
    } else {
        if ix == 0 {
            assert(new[0].0@ == old[0].0@);
            assert(new.drop_first() =~= old.drop_first());
        } else {
            assert(new[0] == old[0]);
            assert forall|j: int| 0 <= j < old.drop_first().len() implies (
            #[trigger] new.drop_first()[j]).0@ == old.drop_first()[j].0@ by {
                assert(new[j + 1].0@ == old[j + 1].0@);
            }
            assert forall|j: int|
                0 <= j < old.drop_first().len() && j != ix - 1 implies #[trigger] new.drop_first()[j]
                    == old.drop_first()[j] by {
                assert(new[j + 1] == old[j + 1]);
            }
            assert forall|j: int| 0 <= j < ix - 1 implies (#[trigger] old.drop_first()[j]).0@
                != old.drop_first()[ix - 1].0@ by {
                assert(old[j + 1].0@ != old[ix].0@);
            }
            lemma_kv_model_replace(old.drop_first(), new.drop_first(), ix - 1, kk);
        }
    }
}

/// Replacing the section at the first index bearing a name changes
/// exactly that name's lookup.
proof fn lemma_sec_lookup_replace(
    old: Seq<(String, Vec<(String, ITValue)>)>,
    new: Seq<(String, Vec<(String, ITValue)>)>,
    ix: int,
    sk: Seq<char>,
)
    requires
        old.len() == new.len(),
        0 <= ix < old.len(),
        forall|j: int| 0 <= j < old.len() ==> (#[trigger] new[j]).0@ == old[j].0@,
        forall|j: int| 0 <= j < old.len() && j != ix ==> #[trigger] new[j] == old[j],
        forall|j: int| 0 <= j < ix ==> (#[trigger] old[j]).0@ != old[ix].0@,
    ensures
        sec_lookup(new, sk) == if sk == old[ix].0@ {
            Some(new[ix].1)
        } else {
            sec_lookup(old, sk)
        },
    decreases ix,
{
    if sk == old[ix].0@ {
        assert forall|j: int| 0 <= j < ix implies (#[trigger] new[j]).0@ != sk by {
            assert(old[j].0@ != old[ix].0@);
        }
        lemma_sec_lookup_at(new, sk, ix);
    } else {
        if ix == 0 {
            assert(new[0].0@ == old[0].0@);
            assert(new.drop_first() =~= old.drop_first());
        } else {
            assert(new[0] == old[0]);
            assert forall|j: int| 0 <= j < old.drop_first().len() implies (
            #[trigger] new.drop_first()[j]).0@ == old.drop_first()[j].0@ by {
                assert(new[j + 1].0@ == old[j + 1].0@);
            }
            assert forall|j: int|
                0 <= j < old.drop_first().len() && j != ix - 1 implies #[trigger] new.drop_first()[j]
                    == old.drop_first()[j] by {
                assert(new[j + 1] == old[j + 1]);
            }
            assert forall|j: int| 0 <= j < ix - 1 implies (#[trigger] old.drop_first()[j]).0@
                != old.drop_first()[ix - 1].0@ by {
                assert(old[j + 1].0@ != old[ix].0@);
            }
            lemma_sec_lookup_replace(old.drop_first(), new.drop_first(), ix - 1, sk);
        }
    }
}

/// Finds the first section of that name.
fn sec_find(ss: &Vec<(String, Vec<(String, ITValue)>)>, k: &String) -> (r: Option<usize>)
    ensures
        r matches Some(i) ==> i < ss@.len() && ss@[i as int].0@ == k@ && sec_lookup(ss@, k@)
            == Some(ss@[i as int].1),
        r is None ==> sec_lookup(ss@, k@) is None,
{
    let n = ss.len();
    let mut i: usize = 0;
    while i < n
        invariant
            n == ss@.len(),
            i <= n,
            forall|j: int| 0 <= j < i ==> (#[trigger] ss@[j]).0@ != k@,
        decreases n - i,
    {
        if ss[i].0.eq(k) {
            proof {
                lemma_sec_lookup_at(ss@, k@, i as int);
            }
            return Some(i);
        }
        i = i + 1;
    }
    proof {
        lemma_sec_lookup_none(ss@, k@);
    }
    None
}

/// Pointwise key- and model-equal entry lists have the same lookups.
pub proof fn lemma_kv_model_congruent(a: Seq<(String, ITValue)>, b: Seq<(String, ITValue)>, k: Seq<char>)
    requires
        a.len() == b.len(),
        forall|j: int|
            0 <= j < a.len() ==> (#[trigger] a[j]).0@ == b[j].0@ && a[j].1.model()
                == b[j].1.model(),
    ensures
        kv_model(a, k) == kv_model(b, k),
    decreases a.len(),
{
    if a.len() > 0 {
        assert(a[0].0@ == b[0].0@);
        assert forall|j: int|
            0 <= j < a.drop_first().len() implies (#[trigger] a.drop_first()[j]).0@
                == b.drop_first()[j].0@ && a.drop_first()[j].1.model()
                == b.drop_first()[j].1.model() by {
            assert(a[j + 1].0@ == b[j + 1].0@ && a[j + 1].1.model() == b[j + 1].1.model());
        }
        lemma_kv_model_congruent(a.drop_first(), b.drop_first(), k);
    }
}

/// A fresh copy of a section with the same keys and abstract values.
fn clone_section(sec: &Vec<(String, ITValue)>) -> (r: Vec<(String, ITValue)>)
    requires
        kv_wf(sec@),
    ensures
        kv_wf(r@),
        r@.len() == sec@.len(),
        forall|j: int|
            0 <= j < r@.len() ==> (#[trigger] r@[j]).0@ == sec@[j].0@ && r@[j].1.model()
                == sec@[j].1.model(),
        forall|kk: Seq<char>| #[trigger] kv_model(r@, kk) == kv_model(sec@, kk),
{
    let n = sec.len();
    let mut out: Vec<(String, ITValue)> = Vec::new();
    let mut i: usize = 0;
    while i < n
        invariant
            n == sec@.len(),
            i <= n,
            kv_wf(sec@),
            out@.len() == i,
            forall|j: int|
                0 <= j < i ==> (#[trigger] out@[j]).0@ == sec@[j].0@ && out@[j].1.model()
                    == sec@[j].1.model() && out@[j].1.wf(),
        decreases n - i,
    {
        proof {
            assert(sec@[i as int].1.wf());
        }
        out.push((sec[i].0.clone(), sec[i].1.clone_value()));
        i = i + 1;
    }
    proof {
        assert forall|a: int, b: int|
            0 <= a < b < out@.len() implies (#[trigger] out@[a]).0@ != (#[trigger] out@[b]).0@ by {
            assert(sec@[a].0@ != sec@[b].0@);
        }
        assert forall|kk: Seq<char>| #[trigger] kv_model(out@, kk) == kv_model(sec@, kk) by {
            lemma_kv_model_congruent(out@, sec@, kk);
        }
    }
    out
}

/// What one merged entry of the whole file holds: a section the child
/// lacks comes from the parent wholesale, a section the parent lacks from
/// the child, and a section both hold merges entry by entry.
pub open spec fn spec_merged_entry(
    c: Seq<(String, Vec<(String, ITValue)>)>,
    p: Seq<(String, Vec<(String, ITValue)>)>,
    sk: Seq<char>,
    kk: Seq<char>,
) -> Option<ITValueModel> {
    if !sec_present(c, sk) {
        entry_model(p, sk, kk)
    } else if !sec_present(p, sk) {
        entry_model(c, sk, kk)
    } else {
        spec_merged_kv(sec_lookup(c, sk)->Some_0@, sec_lookup(p, sk)->Some_0@, kk)
    }
}

/// One parsed `it` file: its header fields and its sections in stored
/// order.
#[derive(Debug)]
pub struct ITFile {
    pub version: u8,
    pub aabstract: bool,
    pub extends: String,
    pub sections: Vec<(String, Vec<(String, ITValue)>)>,
}

impl ITFile {
    /// Distinct section names, distinct keys inside each, well-formed
    /// values.
    pub open spec fn wf(self) -> bool {
        sections_wf(self.sections@)
    }

    /// Merges a parent file (`other`) into this child file: the child's
    /// header fields stay; a section or key only one side holds is kept;
    /// a key both hold keeps the child's value, except that two sets are
    /// unioned.
    pub fn merge(self, other: ITFile) -> (r: ITFile)
        requires
            self.wf(),
            other.wf(),
        ensures
            r.wf(),
            r.version == self.version,
            r.aabstract == self.aabstract,
            r.extends@ == self.extends@,
            forall|sk: Seq<char>|
                #[trigger] sec_present(r.sections@, sk) <==> sec_present(self.sections@, sk)
                    || sec_present(other.sections@, sk),
            forall|sk: Seq<char>, kk: Seq<char>|
                #[trigger] entry_model(r.sections@, sk, kk) == spec_merged_entry(
                    self.sections@,
                    other.sections@,
                    sk,
                    kk,
                ),
    {
        let child = self.sections;
        let parent = other.sections;
        let mut out: Vec<(String, Vec<(String, ITValue)>)> = Vec::new();
        let n = child.len();
        let mut i: usize = 0;
        while i < n
            invariant
                n == child@.len(),
                i <= n,
                sections_wf(child@),
                sections_wf(parent@),
                sections_wf(out@),
                out@.len() == i,
                forall|j: int| 0 <= j < i ==> (#[trigger] out@[j]).0@ == child@[j].0@,
                forall|sk: Seq<char>|
                    #[trigger] sec_present(out@, sk) <==> (exists|j: int|
                        0 <= j < i && (#[trigger] child@[j]).0@ == sk),
                forall|sk: Seq<char>, kk: Seq<char>|
                    #[trigger] entry_model(out@, sk, kk) == if (exists|j: int|
                        0 <= j < i && (#[trigger] child@[j]).0@ == sk) {
                        spec_merged_entry(child@, parent@, sk, kk)
                    } else {
                        None
                    },
            decreases n - i,
        {
            let ghost pre = out@;
            let key = child[i].0.clone();
            proof {
                assert forall|j: int| 0 <= j < i implies (#[trigger] child@[j]).0@ != key@ by {}
                lemma_sec_lookup_at(child@, key@, i as int);
                assert(kv_wf(child@[i as int].1@));
            }
            let entry: (String, Vec<(String, ITValue)>) = match sec_find(&parent, &key) {
                Some(pi) => {
                    proof {
                        assert(kv_wf(parent@[pi as int].1@));
                    }
                    let merged = merge_section(&child[i].1, &parent[pi].1);
                    (key, merged)
                },
                None => (key, clone_section(&child[i].1)),
            };
            proof {
                assert(kv_wf(entry.1@));
                assert forall|kk: Seq<char>| #[trigger] kv_model(entry.1@, kk)
                    == spec_merged_entry(child@, parent@, entry.0@, kk) by {}
            }
            out.push(entry);
            proof {
                assert forall|sk: Seq<char>|
                    #[trigger] sec_present(out@, sk) <==> ((exists|j: int|
                        0 <= j < i + 1 && (#[trigger] child@[j]).0@ == sk)) by {
                    lemma_sec_lookup_push(pre, entry, sk);
                    if sec_present(pre, sk) {
                    }
                    if sk == entry.0@ {
                        assert(child@[i as int].0@ == sk);
                    }
                }
                assert forall|sk: Seq<char>, kk: Seq<char>|
                    #[trigger] entry_model(out@, sk, kk) == (if (exists|j: int|
                        0 <= j < i + 1 && (#[trigger] child@[j]).0@ == sk) {
                        spec_merged_entry(child@, parent@, sk, kk)
                    } else {
                        None
                    }) by {
                    lemma_sec_lookup_push(pre, entry, sk);
                    if sec_present(pre, sk) {
                    }
                    if entry_model(pre, sk, kk) is Some {
                    }
                    if sk == entry.0@ {
                        assert(child@[i as int].0@ == sk);
                    }
                }
                assert(sections_wf(out@));
            }
            i = i + 1;
        }
        let m = parent.len();
        let mut t: usize = 0;
        while t < m
            invariant
                n == child@.len(),
                m == parent@.len(),
                t <= m,
                sections_wf(child@),
                sections_wf(parent@),
                sections_wf(out@),
                forall|sk: Seq<char>|
                    #[trigger] sec_present(out@, sk) <==> (exists|j: int|
                        0 <= j < n && (#[trigger] child@[j]).0@ == sk) || (exists|j: int|
                        0 <= j < t && (#[trigger] parent@[j]).0@ == sk),
                forall|sk: Seq<char>, kk: Seq<char>|
                    #[trigger] entry_model(out@, sk, kk) == if (exists|j: int|
                        0 <= j < n && (#[trigger] child@[j]).0@ == sk) || (exists|j: int|
                        0 <= j < t && (#[trigger] parent@[j]).0@ == sk) {
                        spec_merged_entry(child@, parent@, sk, kk)
                    } else {
                        None
                    },
            decreases m - t,
        {
            let ghost pre = out@;
            let key = parent[t].0.clone();
            match sec_find(&child, &key) {
                Some(ci) => {
                    proof {
                        assert(child@[ci as int].0@ == key@);
                        assert forall|sk: Seq<char>|
                            #[trigger] sec_present(out@, sk) <==> ((exists|j: int|
                                0 <= j < n && (#[trigger] child@[j]).0@ == sk) || (exists|j: int|
                                0 <= j < t + 1 && (#[trigger] parent@[j]).0@ == sk)) by {
                            if sk == key@ {
                                assert(child@[ci as int].0@ == sk);
                            }
                        }
                        assert forall|sk: Seq<char>, kk: Seq<char>|
                            #[trigger] entry_model(out@, sk, kk) == (if (exists|j: int|
                                0 <= j < n && (#[trigger] child@[j]).0@ == sk) || (exists|j: int|
                                0 <= j < t + 1 && (#[trigger] parent@[j]).0@ == sk) {
                                spec_merged_entry(child@, parent@, sk, kk)
                            } else {
                                None
                            }) by {
                            if sk == key@ {
                                assert(child@[ci as int].0@ == sk);
                            }
                        }
                    }
                },
                None => {
                    proof {
                        assert forall|j: int| 0 <= j < t implies (#[trigger] parent@[j]).0@
                            != key@ by {}
                        lemma_sec_lookup_at(parent@, key@, t as int);
                        assert(kv_wf(parent@[t as int].1@));
                    }
                    let entry = (key, clone_section(&parent[t].1));
                    proof {
                        lemma_sec_lookup_none_keys(child@, entry.0@);
                        if sec_present(pre, entry.0@) {
                        }
                        assert(sec_lookup(pre, entry.0@) is None);
                        lemma_sec_lookup_none_keys(pre, entry.0@);
                    }
                    out.push(entry);
                    proof {
                        assert forall|a: int, b: int|
                            0 <= a < b < out@.len() implies (#[trigger] out@[a]).0@ != (
                        #[trigger] out@[b]).0@ by {
                            if b < out@.len() - 1 {
                                assert(pre[a].0@ != pre[b].0@);
                            } else {
                                assert(pre[a].0@ != entry.0@);
                            }
                        }
                        assert(sections_wf(out@));
                        assert forall|sk: Seq<char>|
                            #[trigger] sec_present(out@, sk) <==> ((exists|j: int|
                                0 <= j < n && (#[trigger] child@[j]).0@ == sk) || (exists|j: int|
                                0 <= j < t + 1 && (#[trigger] parent@[j]).0@ == sk)) by {
                            lemma_sec_lookup_push(pre, entry, sk);
                            if sec_present(pre, sk) {
                            }
                            if sk == entry.0@ {
                                assert(parent@[t as int].0@ == sk);
                            }
                        }
                        assert forall|sk: Seq<char>, kk: Seq<char>|
                            #[trigger] entry_model(out@, sk, kk) == (if (exists|j: int|
                                0 <= j < n && (#[trigger] child@[j]).0@ == sk) || (exists|j: int|
                                0 <= j < t + 1 && (#[trigger] parent@[j]).0@ == sk) {
                                spec_merged_entry(child@, parent@, sk, kk)
                            } else {
                                None
                            }) by {
                            lemma_sec_lookup_push(pre, entry, sk);
                            if sec_present(pre, sk) {
                            }
                            if entry_model(pre, sk, kk) is Some {
                            }
                            if sk == entry.0@ {
                                assert(parent@[t as int].0@ == sk);
                            }
                        }
                    }
                },
            }
            t = t + 1;
        }
        proof {
            assert forall|sk: Seq<char>|
                #[trigger] sec_present(out@, sk) <==> (sec_present(child@, sk) || sec_present(
                    parent@,
                    sk,
                )) by {
                if sec_present(child@, sk) {
                    lemma_sec_lookup_some_exists(child@, sk);
                } else if sec_present(parent@, sk) {
                    lemma_sec_lookup_some_exists(parent@, sk);
                } else {
                    lemma_sec_lookup_none_keys(child@, sk);
                    lemma_sec_lookup_none_keys(parent@, sk);
                }
            }
            assert forall|sk: Seq<char>, kk: Seq<char>| #[trigger] entry_model(out@, sk, kk)
                == spec_merged_entry(child@, parent@, sk, kk) by {
                if sec_present(child@, sk) {
                    lemma_sec_lookup_some_exists(child@, sk);
                } else if sec_present(parent@, sk) {
                    lemma_sec_lookup_some_exists(parent@, sk);
                } else {
                    lemma_sec_lookup_none_keys(child@, sk);
                    lemma_sec_lookup_none_keys(parent@, sk);
                }
            }
        }
        ITFile { version: self.version, aabstract: self.aabstract, extends: self.extends, sections: out }
    }
}


/// The leaf a token denotes: a number when it parses as one, else the
/// token itself.
pub open spec fn spec_leaf_of_token(s: Seq<char>) -> ITLeaf {
    match crate::text::spec_parse_i32(s) {
        Some(n) => ITLeaf::Num(n),
        None => ITLeaf::Str(s),
    }
}

impl ITValue {
    /// Wraps a token: a number when it parses as a signed 32-bit integer,
    /// else a string.
    pub fn new(string: String) -> (r: ITValue)
        ensures
            r.wf(),
            !(r is SetOf),
            r.leaf_model() == spec_leaf_of_token(string@),
    {
        match crate::text::parse_i32_str(string.as_str()) {
            Some(n) => ITValue::Number(n),
            None => ITValue::String(string),
        }
    }

    /// Wraps a token as a singleton set, ready to union under merging.
    pub fn new_list(string: String) -> (r: ITValue)
        ensures
            r.wf(),
            r is SetOf,
            r.model() == ITValueModel::SetV(
                Set::empty().insert(spec_leaf_of_token(string@)),
            ),
    {
        let v = ITValue::new(string);
        let mut vec: Vec<ITValue> = Vec::new();
        vec.push(v);
        proof {
            let ms = vec@.map_values(|x: ITValue| x.leaf_model());
            assert(ms.len() == 1 && ms[0] == v.leaf_model());
            assert forall|m: ITLeaf| #[trigger] ms.to_set().contains(m) implies Set::empty().insert(
                v.leaf_model(),
            ).contains(m) by {
                let ix = choose|ix: int| 0 <= ix < ms.len() && ms[ix] == m;
            }
            assert(ms.to_set().contains(v.leaf_model()));
            assert(set_model(vec@) =~= Set::empty().insert(v.leaf_model()));
        }
        ITValue::SetOf(vec)
    }

    /// The wrapped string.
    pub fn as_string(&self) -> (r: String)
        requires
            self is String,
        ensures
            r@ == self->String_0@,
    {
        match self {
            ITValue::String(s) => s.clone(),
            _ => String::new(),
        }
    }

    /// The wrapped number.
    pub fn as_number(&self) -> (r: i32)
        requires
            self is Number,
        ensures
            r == self->Number_0,
    {
        match self {
            ITValue::Number(n) => *n,
            _ => 0,
        }
    }

    /// The wrapped set's elements, in insertion order.
    pub fn as_set(&self) -> (r: &Vec<ITValue>)
        requires
            self is SetOf,
        ensures
            r == self->SetOf_0,
    {
        match self {
            ITValue::SetOf(vs) => vs,
            _ => unreached(),
        }
    }

    /// The wrapped set's elements mapped through `f`, in insertion order.
    pub fn as_set_with<T, F: Fn(&ITValue) -> T>(&self, f: F) -> (r: Vec<T>)
        requires
            self is SetOf,
            forall|i: int|
                0 <= i < self->SetOf_0@.len() ==> call_requires(f, (&self->SetOf_0@[i],)),
        ensures
            r@.len() == self->SetOf_0@.len(),
            forall|i: int|
                0 <= i < r@.len() ==> call_ensures(f, (&self->SetOf_0@[i],), #[trigger] r@[i]),
    {
        let vs = self.as_set();
        let n = vs.len();
        let mut out: Vec<T> = Vec::new();
        let mut i: usize = 0;
        while i < n
            invariant
                self is SetOf,
                vs == self->SetOf_0,
                n == vs@.len(),
                i <= n,
                out@.len() == i,
                forall|j: int| 0 <= j < n ==> call_requires(f, (&self->SetOf_0@[j],)),
                forall|j: int|
                    0 <= j < i ==> call_ensures(f, (&self->SetOf_0@[j],), #[trigger] out@[j]),
            decreases n - i,
        {
            out.push(f(&vs[i]));
            i = i + 1;
        }
        out
    }
}

/// Whether `c` is horizontal or vertical whitespace, at spec level.
pub open spec fn spec_is_ws(c: char) -> bool {
    c == ' ' || c == '\t' || c == '\r' || c == '\n'
}

/// Whether `c` is a word character, at spec level.
pub open spec fn spec_is_word(c: char) -> bool {
    ('a' <= c && c <= 'z') || ('A' <= c && c <= 'Z') || ('0' <= c && c <= '9') || c == '_'
}

/// The position after the run of whitespace at `i`.
pub open spec fn ws_end(s: Seq<char>, i: int) -> int
    decreases s.len() - i,
{
    if 0 <= i < s.len() && spec_is_ws(s[i]) {
        ws_end(s, i + 1)
    } else {
        i
    }
}

/// The position after the run of spaces and tabs at `i`.
pub open spec fn blank_end(s: Seq<char>, i: int) -> int
    decreases s.len() - i,
{
    if 0 <= i < s.len() && (s[i] == ' ' || s[i] == '\t') {
        blank_end(s, i + 1)
    } else {
        i
    }
}

/// The position after the run of word characters at `i`.
pub open spec fn word_end(s: Seq<char>, i: int) -> int
    decreases s.len() - i,
{
    if 0 <= i < s.len() && spec_is_word(s[i]) {
        word_end(s, i + 1)
    } else {
        i
    }
}

/// The position of the next double quote at or after `i`, or the end.
pub open spec fn quote_end(s: Seq<char>, i: int) -> int
    decreases s.len() - i,
{
    if 0 <= i < s.len() && s[i] != '"' {
        quote_end(s, i + 1)
    } else {
        i
    }
}


/// Each scanner lands at or after its start and inside the text.
proof fn lemma_scan_bounds(s: Seq<char>, i: int)
    requires
        0 <= i <= s.len(),
    ensures
        i <= ws_end(s, i) <= s.len(),
        i <= blank_end(s, i) <= s.len(),
        i <= word_end(s, i) <= s.len(),
        i <= quote_end(s, i) <= s.len(),
        i <= token_end(s, i) <= s.len(),
    decreases s.len() - i,
{
    if i < s.len() {
        lemma_scan_bounds(s, i + 1);
    }
}

/// The position after one brace-enclosed entry list starting at `p` (just
/// past the opening brace), when every entry fits the `key = value`
/// grammar; `None` when the list is malformed or unterminated.
pub open spec fn entries_end(s: Seq<char>, p: int) -> Option<int>
    decreases s.len() - p, 0int,
    via entries_end_decreases
{
    if p < 0 || p > s.len() {
        None
    } else {
        let p1 = ws_end(s, p);
        if p1 >= s.len() {
            None
        } else if s[p1] == '}' {
            Some(p1 + 1)
        } else {
            let ke = token_end(s, p1);
            if ke == p1 {
                None
            } else {
                let p2 = blank_end(s, ke);
                if p2 >= s.len() || s[p2] != '=' {
                    None
                } else {
                    let p3 = blank_end(s, p2 + 1);
                    if p3 >= s.len() {
                        None
                    } else if s[p3] == '"' {
                        let ve = quote_end(s, p3 + 1);
                        if ve >= s.len() {
                            None
                        } else {
                            entries_end(s, ve + 1)
                        }
                    } else {
                        let ve = token_end(s, p3);
                        if ve == p3 {
                            None
                        } else {
                            entries_end(s, ve)
                        }
                    }
                }
            }
        }
    }
}

#[via_fn]
proof fn entries_end_decreases(s: Seq<char>, p: int) {
    if 0 <= p <= s.len() {
        lemma_scan_bounds(s, p);
        let p1 = ws_end(s, p);
        if p1 < s.len() && s[p1] != '}' {
            lemma_scan_bounds(s, p1);
            let ke = token_end(s, p1);
            if ke != p1 {
                lemma_scan_bounds(s, ke);
                let p2 = blank_end(s, ke);
                if p2 < s.len() && s[p2] == '=' {
                    lemma_scan_bounds(s, p2 + 1);
                    let p3 = blank_end(s, p2 + 1);
                    if p3 < s.len() {
                        lemma_scan_bounds(s, p3 + 1);
                        lemma_scan_bounds(s, p3);
                    }
                }
            }
        }
    }
}

/// An entry list ends at or after its start.
proof fn lemma_entries_end_bounds(s: Seq<char>, p: int)
    requires
        entries_end(s, p) is Some,
    ensures
        p <= entries_end(s, p)->Some_0 <= s.len(),
    decreases s.len() - p, 1int,
{
    lemma_scan_bounds(s, p);
    let p1 = ws_end(s, p);
    if p1 < s.len() && s[p1] != '}' {
        lemma_scan_bounds(s, p1);
        let ke = token_end(s, p1);
        lemma_scan_bounds(s, ke);
        let p2 = blank_end(s, ke);
        if p2 < s.len() && s[p2] == '=' {
            lemma_scan_bounds(s, p2 + 1);
            let p3 = blank_end(s, p2 + 1);
            if p3 < s.len() {
                if s[p3] == '"' {
                    lemma_scan_bounds(s, p3 + 1);
                    let ve = quote_end(s, p3 + 1);
                    if ve < s.len() {
                        lemma_entries_end_bounds(s, ve + 1);
                    }
                } else {
                    lemma_scan_bounds(s, p3);
                    let ve = token_end(s, p3);
                    if ve != p3 {
                        lemma_entries_end_bounds(s, ve);
                    }
                }
            }
        }
    }
}


/// The abstract value a token denotes in an entry: in the multi-valued
/// position (`Base.tag`) a singleton set of its leaf, else the leaf
/// itself.
pub open spec fn spec_token_value(tok: Seq<char>, multi: bool) -> ITValueModel {
    if multi {
        ITValueModel::SetV(Set::empty().insert(spec_leaf_of_token(tok)))
    } else {
        match spec_leaf_of_token(tok) {
            ITLeaf::Num(n) => ITValueModel::Num(n),
            ITLeaf::Str(t) => ITValueModel::Str(t),
        }
    }
}

/// The value a brace-enclosed entry list assigns to key `kk`, the last
/// occurrence winning; `base` marks the `Base` section, whose `tag` key
/// is multi-valued. Positions follow `entries_end`; a malformed list
/// assigns nothing.
pub open spec fn entries_value(s: Seq<char>, p: int, base: bool, kk: Seq<char>) -> Option<
    ITValueModel,
>
    decreases s.len() - p, 0int,
    via entries_value_decreases
{
    if p < 0 || p > s.len() {
        None
    } else {
        let p1 = ws_end(s, p);
        if p1 >= s.len() {
            None
        } else if s[p1] == '}' {
            None
        } else {
            let ke = token_end(s, p1);
            if ke == p1 {
                None
            } else {
                let key = s.subrange(p1, ke);
                let p2 = blank_end(s, ke);
                if p2 >= s.len() || s[p2] != '=' {
                    None
                } else {
                    let p3 = blank_end(s, p2 + 1);
                    if p3 >= s.len() {
                        None
                    } else if s[p3] == '"' {
                        let ve = quote_end(s, p3 + 1);
                        if ve >= s.len() {
                            None
                        } else {
                            let here = if key == kk {
                                Some(spec_token_value(
                                    s.subrange(p3 + 1, ve),
                                    base && key == "tag"@,
                                ))
                            } else {
                                None
                            };
                            match entries_value(s, ve + 1, base, kk) {
                                Some(v) => Some(v),
                                None => here,
                            }
                        }
                    } else {
                        let ve = token_end(s, p3);
                        if ve == p3 {
                            None
                        } else {
                            let here = if key == kk {
                                Some(spec_token_value(s.subrange(p3, ve), base && key == "tag"@))
                            } else {
                                None
                            };
                            match entries_value(s, ve, base, kk) {
                                Some(v) => Some(v),
                                None => here,
                            }
                        }
                    }
                }
            }
        }
    }
}

#[via_fn]
proof fn entries_value_decreases(s: Seq<char>, p: int, base: bool, kk: Seq<char>) {
    if 0 <= p <= s.len() {
        lemma_scan_bounds(s, p);
        let p1 = ws_end(s, p);
        if p1 < s.len() && s[p1] != '}' {
            lemma_scan_bounds(s, p1);
            let ke = token_end(s, p1);
            if ke != p1 {
                lemma_scan_bounds(s, ke);
                let p2 = blank_end(s, ke);
                if p2 < s.len() && s[p2] == '=' {
                    lemma_scan_bounds(s, p2 + 1);
                    let p3 = blank_end(s, p2 + 1);
                    if p3 < s.len() {
                        lemma_scan_bounds(s, p3 + 1);
                        lemma_scan_bounds(s, p3);
                    }
                }
            }
        }
    }
}

/// What the sections from `p` on assign under section `sk` and key `kk`:
/// `None` when no section is named `sk`, else the last such section's
/// entry value for `kk` (a later section of the same name replaces an
/// earlier one wholesale). Positions follow `sections_ok`.
pub open spec fn sections_value(s: Seq<char>, p: int, sk: Seq<char>, kk: Seq<char>) -> Option<
    Option<ITValueModel>,
>
    decreases s.len() - p, 2int,
    via sections_value_decreases
{
    if p < 0 || p > s.len() {
        None
    } else {
        let p1 = ws_end(s, p);
        if p1 >= s.len() {
            None
        } else {
            let ne = word_end(s, p1);
            if ne == p1 {
                None
            } else {
                let name = s.subrange(p1, ne);
                let p2 = ws_end(s, ne);
                if p2 >= s.len() || s[p2] != '{' {
                    None
                } else {
                    match entries_end(s, p2 + 1) {
                        None => None,
                        Some(q) => {
                            let here = if name == sk {
                                Some(entries_value(s, p2 + 1, name == "Base"@, kk))
                            } else {
                                None
                            };
                            match sections_value(s, q, sk, kk) {
                                Some(v) => Some(v),
                                None => here,
                            }
                        },
                    }
                }
            }
        }
    }
}

#[via_fn]
proof fn sections_value_decreases(s: Seq<char>, p: int, sk: Seq<char>, kk: Seq<char>) {
    if 0 <= p <= s.len() {
        lemma_scan_bounds(s, p);
        let p1 = ws_end(s, p);
        if p1 < s.len() {
            lemma_scan_bounds(s, p1);
            let ne = word_end(s, p1);
            if ne != p1 {
                lemma_scan_bounds(s, ne);
                let p2 = ws_end(s, ne);
                if p2 < s.len() && s[p2] == '{' {
                    if entries_end(s, p2 + 1) is Some {
                        lemma_entries_end_bounds(s, p2 + 1);
                    }
                }
            }
        }
    }
}

/// Whether the text from `p` on is a run of well-formed sections: each a
/// word name, an opening brace and a well-formed entry list, separated by
/// whitespace, until the text ends.
pub open spec fn sections_ok(s: Seq<char>, p: int) -> bool
    decreases s.len() - p, 2int,
    via sections_ok_decreases
{
    if p < 0 || p > s.len() {
        false
    } else {
        let p1 = ws_end(s, p);
        if p1 >= s.len() {
            true
        } else {
            let ne = word_end(s, p1);
            if ne == p1 {
                false
            } else {
                let p2 = ws_end(s, ne);
                if p2 >= s.len() || s[p2] != '{' {
                    false
                } else {
                    match entries_end(s, p2 + 1) {
                        None => false,
                        Some(q) => sections_ok(s, q),
                    }
                }
            }
        }
    }
}

#[via_fn]
proof fn sections_ok_decreases(s: Seq<char>, p: int) {
    if 0 <= p <= s.len() {
        lemma_scan_bounds(s, p);
        let p1 = ws_end(s, p);
        if p1 < s.len() {
            lemma_scan_bounds(s, p1);
            let ne = word_end(s, p1);
            if ne != p1 {
                lemma_scan_bounds(s, ne);
                let p2 = ws_end(s, ne);
                if p2 < s.len() && s[p2] == '{' {
                    if entries_end(s, p2 + 1) is Some {
                        lemma_entries_end_bounds(s, p2 + 1);
                    }
                }
            }
        }
    }
}

/// Whether the literal's characters sit at `i`.
pub open spec fn lit_at(s: Seq<char>, i: int, lit: Seq<char>) -> bool {
    0 <= i && i + lit.len() <= s.len() && s.subrange(i, i + lit.len()) == lit
}

/// What the file's header declares: its version, whether it is abstract,
/// the quoted parent name and the position after the closing quote. The
/// header is an optional byte-order mark,
/// whitespace, `version` and a number no larger than 255, an optional
/// `abstract` marker, then `extends` and a quoted name.
pub open spec fn spec_header(s: Seq<char>) -> Option<(u8, bool, Seq<char>, int)> {
    let i0: int = if s.len() > 0 && s[0] == '\u{feff}' {
        1
    } else {
        0
    };
    let i1 = ws_end(s, i0);
    if !lit_at(s, i1, "version"@) {
        None
    } else {
        let i2 = blank_end(s, i1 + 7);
        let i3 = word_end(s, i2);
        if i3 == i2 {
            None
        } else {
            match crate::text::spec_parse_i32(s.subrange(i2, i3)) {
                Some(v) => {
                    if 0 <= v <= 255 {
                        let i4 = ws_end(s, i3);
                        let ab = lit_at(s, i4, "abstract"@);
                        let i5: int = if ab {
                            ws_end(s, i4 + 8)
                        } else {
                            i4
                        };
                        if !lit_at(s, i5, "extends"@) {
                            None
                        } else {
                            let i6 = blank_end(s, i5 + 7);
                            if i6 >= s.len() || s[i6] != '"' {
                                None
                            } else {
                                let i7 = quote_end(s, i6 + 1);
                                if i7 >= s.len() {
                                    None
                                } else {
                                    Some((v as u8, ab, s.subrange(i6 + 1, i7), i7 + 1))
                                }
                            }
                        }
                    } else {
                        None
                    }
                },
                None => None,
            }
        }
    }
}

/// Whether `c` is a word character of a section name.
fn is_word_char(c: char) -> (r: bool)
    ensures
        r == (('a' <= c && c <= 'z') || ('A' <= c && c <= 'Z') || ('0' <= c && c <= '9') || c
            == '_'),
{
    ('a' <= c && c <= 'z') || ('A' <= c && c <= 'Z') || ('0' <= c && c <= '9') || c == '_'
}

/// Whether `c` is horizontal or vertical whitespace.
fn is_space_char(c: char) -> (r: bool)
    ensures
        r == spec_is_ws(c),
{
    c == ' ' || c == '\t' || c == '\r' || c == '\n'
}

/// The position after any run of whitespace at `pos`.
fn skip_ws(cs: &Vec<char>, pos: usize) -> (r: usize)
    requires
        pos <= cs@.len(),
    ensures
        pos <= r <= cs@.len(),
        r == ws_end(cs@, pos as int),
{
    let len = cs.len();
    let mut p = pos;
    while p < len && is_space_char(cs[p])
        invariant
            len == cs@.len(),
            pos <= p <= len,
            ws_end(cs@, pos as int) == ws_end(cs@, p as int),
        decreases len - p,
    {
        p = p + 1;
    }
    p
}

/// The position after any run of spaces and tabs at `pos`.
fn skip_blank(cs: &Vec<char>, pos: usize) -> (r: usize)
    requires
        pos <= cs@.len(),
    ensures
        pos <= r <= cs@.len(),
        r == blank_end(cs@, pos as int),
{
    let len = cs.len();
    let mut p = pos;
    while p < len && (cs[p] == ' ' || cs[p] == '\t')
        invariant
            len == cs@.len(),
            pos <= p <= len,
            blank_end(cs@, pos as int) == blank_end(cs@, p as int),
        decreases len - p,
    {
        p = p + 1;
    }
    p
}

/// The end of the run of word characters at `pos`.
fn scan_word(cs: &Vec<char>, pos: usize) -> (r: usize)
    requires
        pos <= cs@.len(),
    ensures
        pos <= r <= cs@.len(),
        r == word_end(cs@, pos as int),
{
    let len = cs.len();
    let mut p = pos;
    while p < len && is_word_char(cs[p])
        invariant
            len == cs@.len(),
            pos <= p <= len,
            word_end(cs@, pos as int) == word_end(cs@, p as int),
        decreases len - p,
    {
        p = p + 1;
    }
    p
}

/// The position of the next double quote at or after `pos`, or the end.
fn scan_to_quote(cs: &Vec<char>, pos: usize) -> (r: usize)
    requires
        pos <= cs@.len(),
    ensures
        pos <= r <= cs@.len(),
        r == quote_end(cs@, pos as int),
{
    let len = cs.len();
    let mut p = pos;
    while p < len && cs[p] != '"'
        invariant
            len == cs@.len(),
            pos <= p <= len,
            quote_end(cs@, pos as int) == quote_end(cs@, p as int),
        decreases len - p,
    {
        p = p + 1;
    }
    p
}

/// The position after the run at `i` of characters that can form a key
/// or bare token: anything but whitespace, `=` and `}`.
pub open spec fn token_end(s: Seq<char>, i: int) -> int
    decreases s.len() - i,
{
    if 0 <= i < s.len() && !spec_is_ws(s[i]) && s[i] != '=' && s[i] != '}' {
        token_end(s, i + 1)
    } else {
        i
    }
}

/// The end of the run at `pos` of characters that can form a key or bare
/// token: anything but whitespace, `=` and `}`.
fn scan_token(cs: &Vec<char>, pos: usize) -> (r: usize)
    requires
        pos <= cs@.len(),
    ensures
        pos <= r <= cs@.len(),
        r == token_end(cs@, pos as int),
{
    let len = cs.len();
    let mut p = pos;
    while p < len && !is_space_char(cs[p]) && cs[p] != '=' && cs[p] != '}'
        invariant
            len == cs@.len(),
            pos <= p <= len,
            token_end(cs@, pos as int) == token_end(cs@, p as int),
        decreases len - p,
    {
        p = p + 1;
    }
    p
}

/// Whether the literal's characters sit at `pos`.
fn match_lit(cs: &Vec<char>, pos: usize, lit: &Vec<char>) -> (r: bool)
    requires
        pos <= cs@.len(),
    ensures
        r ==> pos + lit@.len() <= cs@.len(),
        r == lit_at(cs@, pos as int, lit@),
{
    let ll = lit.len();
    let len = cs.len();
    if len - pos < ll {
        return false;
    }
    let mut i: usize = 0;
    while i < ll
        invariant
            len == cs@.len(),
            ll == lit@.len(),
            pos + ll <= len,
            i <= ll,
            forall|j: int| 0 <= j < i ==> cs@[pos + j] == lit@[j],
        decreases ll - i,
    {
        if cs[pos + i] != lit[i] {
            proof {
                assert(cs@.subrange(pos as int, pos + ll) != lit@) by {
                    if cs@.subrange(pos as int, pos + ll) == lit@ {
                        assert(cs@.subrange(pos as int, pos + ll)[i as int] == lit@[i as int]);
                        assert(false);
                    }
                }
            }
            return false;
        }
        i = i + 1;
    }
    proof {
        assert(cs@.subrange(pos as int, pos + ll) =~= lit@);
    }
    true
}


/// Parses one brace-enclosed entry list starting just past the opening
/// brace: `key = value` pairs until the closing brace, a later duplicate
/// key replacing the earlier. Succeeds exactly when the list fits the
/// grammar, returning the entries and the position after the closing
/// brace.
fn parse_section_entries(
    cs: &Vec<char>,
    file: &str,
    start: usize,
    section_name: &String,
) -> (r: Result<(Vec<(String, ITValue)>, usize), Error>)
    requires
        start <= cs@.len(),
        cs@ == file@,
    ensures
        r matches Ok((es, end)) ==> kv_wf(es@) && entries_end(file@, start as int) == Some(
            end as int,
        ) && start < end <= file@.len(),
        r matches Ok((es, end)) ==> forall|kk: Seq<char>|
            #[trigger] kv_model(es@, kk) == entries_value(
                file@,
                start as int,
                section_name@ == "Base"@,
                kk,
            ),
        r is Err ==> entries_end(file@, start as int) is None,
{
    let ghost isb = section_name@ == "Base"@;
    let len = cs.len();
    let mut p = start;
    let mut entries: Vec<(String, ITValue)> = Vec::new();
    let base_lit = String::from_str("Base");
    let tag_lit = String::from_str("tag");
    loop
        invariant
            len == cs@.len(),
            cs@ == file@,
            start <= p <= len,
            base_lit@ == "Base"@,
            tag_lit@ == "tag"@,
            isb == (section_name@ == "Base"@),
            kv_wf(entries@),
            entries_end(file@, start as int) == entries_end(file@, p as int),
            forall|kk: Seq<char>|
                #[trigger] entries_value(file@, start as int, isb, kk) == match entries_value(
                    file@,
                    p as int,
                    isb,
                    kk,
                ) {
                    Some(v) => Some(v),
                    None => kv_model(entries@, kk),
                },
        decreases len - p,
    {
        let ghost pcur = p as int;
        p = skip_ws(cs, p);
        if p >= len {
            proof {
                assert(entries_end(file@, pcur) is None);
            }
            return Err(Error::Format);
        }
        if cs[p] == '}' {
            proof {
                assert(entries_end(file@, pcur) == Some(p as int + 1));
                assert(forall|kk: Seq<char>|
                    #[trigger] entries_value(file@, pcur, isb, kk) is None);
                lemma_scan_bounds(file@, pcur);
            }
            return Ok((entries, p + 1));
        }
        let key_end = scan_token(cs, p);
        if key_end == p {
            proof {
                assert(entries_end(file@, pcur) is None);
            }
            return Err(Error::Format);
        }
        let key = file.substring_char(p, key_end).to_owned();
        let ghost p1 = p as int;
        let ghost keyc = file@.subrange(p1, key_end as int);
        p = skip_blank(cs, key_end);
        if p >= len || cs[p] != '=' {
            proof {
                assert(entries_end(file@, pcur) is None);
            }
            return Err(Error::Format);
        }
        p = skip_blank(cs, p + 1);
        if p >= len {
            proof {
                assert(entries_end(file@, pcur) is None);
            }
            return Err(Error::Format);
        }
        let ghost tok: Seq<char>;
        let value: String = if cs[p] == '"' {
            let v_start = p + 1;
            let v_end = scan_to_quote(cs, v_start);
            if v_end >= len {
                proof {
                    assert(entries_end(file@, pcur) is None);
                }
                return Err(Error::Format);
            }
            let v = file.substring_char(v_start, v_end).to_owned();
            proof {
                tok = file@.subrange(v_start as int, v_end as int);
                assert(entries_end(file@, pcur) == entries_end(file@, v_end as int + 1));
            }
            p = v_end + 1;
            v
        } else {
            let v_end = scan_token(cs, p);
            if v_end == p {
                proof {
                    assert(entries_end(file@, pcur) is None);
                }
                return Err(Error::Format);
            }
            let v = file.substring_char(p, v_end).to_owned();
            proof {
                tok = file@.subrange(p as int, v_end as int);
                assert(entries_end(file@, pcur) == entries_end(file@, v_end as int));
            }
            p = v_end;
            v
        };
        let is_tag = section_name.eq(&base_lit) && key.eq(&tag_lit);
        let val: ITValue = if is_tag {
            ITValue::new_list(value)
        } else {
            ITValue::new(value)
        };
        proof {
            assert(val.model() == spec_token_value(tok, isb && keyc == "tag"@)) by {
                if val is Number {
                } else if val is String {
                }
            }
            assert(forall|kk: Seq<char>|
                #[trigger] entries_value(file@, pcur, isb, kk) == {
                    let here = if keyc == kk {
                        Some(spec_token_value(tok, isb && keyc == "tag"@))
                    } else {
                        None
                    };
                    match entries_value(file@, p as int, isb, kk) {
                        Some(v) => Some(v),
                        None => here,
                    }
                });
        }
        match kv_find(&entries, &key) {
            Some(ix) => {
                let ghost pre = entries@;
                let _old = entries.remove(ix);
                entries.insert(ix, (key, val));
                proof {
                    assert(entries@ =~= pre.update(ix as int, entries@[ix as int]));
                    assert(entries@.len() == pre.len());
                    assert forall|a: int, b: int|
                        0 <= a < b < entries@.len() implies (#[trigger] entries@[a]).0@ != (
                    #[trigger] entries@[b]).0@ by {
                        assert(entries@[a].0@ == pre[a].0@);
                        assert(entries@[b].0@ == pre[b].0@);
                        assert(pre[a].0@ != pre[b].0@);
                    }
                    assert(kv_wf(entries@));
                    assert forall|kk: Seq<char>| #[trigger] kv_model(entries@, kk) == (if kk
                        == keyc {
                        Some(val.model())
                    } else {
                        kv_model(pre, kk)
                    }) by {
                        assert forall|j: int| 0 <= j < ix implies (#[trigger] pre[j]).0@
                            != pre[ix as int].0@ by {}
                        lemma_kv_model_replace(pre, entries@, ix as int, kk);
                    }
                }
            },
            None => {
                let ghost pre = entries@;
                proof {
                    lemma_kv_lookup_none_keys(pre, key@);
                }
                entries.push((key, val));
                proof {
                    assert forall|a: int, b: int|
                        0 <= a < b < entries@.len() implies (#[trigger] entries@[a]).0@ != (
                    #[trigger] entries@[b]).0@ by {
                        if b < entries@.len() - 1 {
                            assert(pre[a].0@ != pre[b].0@);
                        }
                    }
                    assert(kv_wf(entries@));
                    assert forall|kk: Seq<char>| #[trigger] kv_model(entries@, kk) == (if kk
                        == keyc {
                        Some(val.model())
                    } else {
                        kv_model(pre, kk)
                    }) by {
                        lemma_kv_lookup_push(pre, entries@[pre.len() as int], kk);
                        if kv_model(pre, kk) is Some {
                            lemma_kv_lookup_some_exists(pre, kk);
                            let j = choose|j: int|
                                0 <= j < pre.len() && (#[trigger] pre[j]).0@ == kk;
                            assert(pre[j].0@ != keyc);
                        }
                    }
                }
            },
        }
    }
}


impl ITFile {
    /// Parses an `it` file: an optional byte-order mark, a `version`
    /// line, an optional `abstract` marker, a quoted `extends` name, then
    /// sections of `key = value` lines in braces. The grammar is strict
    /// by design: text that fits neither a section name nor an entry is
    /// rejected rather than skipped. A later section or key of a name
    /// already seen replaces the earlier one. Tokens that parse as signed
    /// 32-bit integers become numbers; in section `Base` the key `tag`
    /// becomes a singleton set.
    pub fn parse(file: String) -> (r: Result<ITFile, Error>)
        ensures
            r matches Ok(f) ==> {
                &&& f.wf()
                &&& spec_header(file@) matches Some(h)
                &&& h.0 == f.version
                &&& h.1 == f.aabstract
                &&& h.2 == f.extends@
                &&& forall|sk: Seq<char>, kk: Seq<char>|
                    (sec_lookup(f.sections@, sk) is Some) == (#[trigger] sections_value(
                        file@,
                        h.3,
                        sk,
                        kk,
                    ) is Some) && entry_model(f.sections@, sk, kk) == match sections_value(
                        file@,
                        h.3,
                        sk,
                        kk,
                    ) {
                        None => None,
                        Some(v) => v,
                    }
            },
            r is Ok <==> (spec_header(file@) matches Some(h) && sections_ok(file@, h.3)),
    {
        proof {
            reveal_strlit("version");
            reveal_strlit("abstract");
            reveal_strlit("extends");
        }
        let cs = crate::text::chars_of(file.as_str());
        let len = cs.len();
        let mut pos: usize = 0;
        if pos < len && cs[pos] == '\u{feff}' {
            pos = pos + 1;
        }
        pos = skip_ws(&cs, pos);
        let version_lit = crate::text::chars_of("version");
        if !match_lit(&cs, pos, &version_lit) {
            return Err(Error::Format);
        }
        pos = pos + version_lit.len();
        if pos > len {
            return Err(Error::Format);
        }
        pos = skip_blank(&cs, pos);
        let dig_end = scan_word(&cs, pos);
        if dig_end == pos {
            return Err(Error::Format);
        }
        let vtoken = file.as_str().substring_char(pos, dig_end).to_owned();
        let version: u8 = match crate::text::parse_i32_str(vtoken.as_str()) {
            Some(v) if 0 <= v && v <= 255 => v as u8,
            _ => {
                return Err(Error::Format);
            },
        };
        pos = skip_ws(&cs, dig_end);
        let abstract_lit = crate::text::chars_of("abstract");
        let mut aabstract = false;
        if match_lit(&cs, pos, &abstract_lit) {
            aabstract = true;
            pos = pos + abstract_lit.len();
            if pos > len {
                return Err(Error::Format);
            }
            pos = skip_ws(&cs, pos);
        }
        let extends_lit = crate::text::chars_of("extends");
        if !match_lit(&cs, pos, &extends_lit) {
            return Err(Error::Format);
        }
        pos = pos + extends_lit.len();
        if pos > len {
            return Err(Error::Format);
        }
        pos = skip_blank(&cs, pos);
        if pos >= len || cs[pos] != '"' {
            return Err(Error::Format);
        }
        let ext_start = pos + 1;
        let ext_end = scan_to_quote(&cs, ext_start);
        if ext_end >= len {
            return Err(Error::Format);
        }
        let extends = file.as_str().substring_char(ext_start, ext_end).to_owned();
        let ghost hdr_end = ext_end + 1;
        proof {
            assert(spec_header(file@) == Some((version, aabstract, extends@, hdr_end as int)));
        }
        pos = ext_end + 1;
        let mut sections: Vec<(String, Vec<(String, ITValue)>)> = Vec::new();
        loop
            invariant
                len == cs@.len(),
                cs@ == file@,
                len == file@.len(),
                pos <= len,
                sections_wf(sections@),
                sections_ok(file@, hdr_end as int) == sections_ok(file@, pos as int),
                spec_header(file@) == Some((version, aabstract, extends@, hdr_end as int)),
                forall|sk: Seq<char>, kk: Seq<char>|
                    #[trigger] sections_value(file@, hdr_end as int, sk, kk) == match sections_value(
                        file@,
                        pos as int,
                        sk,
                        kk,
                    ) {
                        Some(v) => Some(v),
                        None => match sec_lookup(sections@, sk) {
                            None => None,
                            Some(sec) => Some(kv_model(sec@, kk)),
                        },
                    },
            decreases len - pos,
        {
            let ghost pos0 = pos as int;
            pos = skip_ws(&cs, pos);
            if pos >= len {
                proof {
                    assert(sections_ok(file@, pos0));
                    assert(forall|sk: Seq<char>, kk: Seq<char>|
                        #[trigger] sections_value(file@, pos0, sk, kk) is None);
                }
                return Ok(ITFile { version, aabstract, extends, sections });
            }
            let name_end = scan_word(&cs, pos);
            if name_end == pos {
                proof {
                    assert(!sections_ok(file@, pos0));
                }
                return Err(Error::Format);
            }
            let section_name = file.as_str().substring_char(pos, name_end).to_owned();
            let p = skip_ws(&cs, name_end);
            if p >= len || cs[p] != '{' {
                proof {
                    assert(!sections_ok(file@, pos0));
                }
                return Err(Error::Format);
            }
            let parsed = parse_section_entries(&cs, file.as_str(), p + 1, &section_name);
            let (entries, after) = match parsed {
                Ok(x) => x,
                Err(e) => {
                    proof {
                        assert(!sections_ok(file@, pos0));
                    }
                    return Err(e);
                },
            };
            let ghost namec = file@.subrange(pos as int, name_end as int);
            proof {
                assert(sections_ok(file@, pos0) == sections_ok(file@, after as int));
                assert(forall|sk: Seq<char>, kk: Seq<char>|
                    #[trigger] sections_value(file@, pos0, sk, kk) == {
                        let here = if namec == sk {
                            Some(entries_value(file@, p as int + 1, namec == "Base"@, kk))
                        } else {
                            None
                        };
                        match sections_value(file@, after as int, sk, kk) {
                            Some(v) => Some(v),
                            None => here,
                        }
                    });
            }
            match sec_find(&sections, &section_name) {
                Some(ix) => {
                    let ghost pre = sections@;
                    let _old = sections.remove(ix);
                    sections.insert(ix, (section_name, entries));
                    proof {
                        assert(sections@ =~= pre.update(ix as int, sections@[ix as int]));
                        assert(sections@.len() == pre.len());
                        assert forall|a: int, b: int|
                            0 <= a < b < sections@.len() implies (#[trigger] sections@[a]).0@ != (
                        #[trigger] sections@[b]).0@ by {
                            assert(sections@[a].0@ == pre[a].0@);
                            assert(sections@[b].0@ == pre[b].0@);
                            assert(pre[a].0@ != pre[b].0@);
                        }
                        assert(sections_wf(sections@));
                        assert forall|sk: Seq<char>| #[trigger] sec_lookup(sections@, sk) == (if sk
                            == namec {
                            Some(sections@[ix as int].1)
                        } else {
                            sec_lookup(pre, sk)
                        }) by {
                            assert forall|j: int| 0 <= j < ix implies (#[trigger] pre[j]).0@
                                != pre[ix as int].0@ by {}
                            lemma_sec_lookup_replace(pre, sections@, ix as int, sk);
                        }
                    }
                },
                None => {
                    let ghost pre = sections@;
                    proof {
                        lemma_sec_lookup_none_keys(pre, section_name@);
                    }
                    sections.push((section_name, entries));
                    proof {
                        assert forall|a: int, b: int|
                            0 <= a < b < sections@.len() implies (#[trigger] sections@[a]).0@ != (
                        #[trigger] sections@[b]).0@ by {
                            if b < sections@.len() - 1 {
                                assert(pre[a].0@ != pre[b].0@);
                            }
                        }
                        assert(sections_wf(sections@));
                        assert forall|sk: Seq<char>| #[trigger] sec_lookup(sections@, sk) == (if
                            sec_lookup(pre, sk) is Some {
                            sec_lookup(pre, sk)
                        } else if sk == namec {
                            Some(sections@[pre.len() as int].1)
                        } else {
                            None
                        }) by {
                            lemma_sec_lookup_push(pre, sections@[pre.len() as int], sk);
                        }
                        assert forall|sk: Seq<char>|
                            sec_lookup(pre, sk) is Some implies sk != namec by {
                            lemma_sec_lookup_some_exists(pre, sk);
                            let j = choose|j: int|
                                0 <= j < pre.len() && (#[trigger] pre[j]).0@ == sk;
                            assert(pre[j].0@ != namec);
                        }
                    }
                },
            }
            pos = after;
        }
    }
}


impl ITFile {
    /// A structurally fresh copy with the same header and the same
    /// abstract sections.
    pub fn clone_file(&self) -> (r: ITFile)
        requires
            self.wf(),
        ensures
            r.wf(),
            r.version == self.version,
            r.aabstract == self.aabstract,
            r.extends@ == self.extends@,
            forall|sk: Seq<char>, kk: Seq<char>|
                #[trigger] entry_model(r.sections@, sk, kk) == entry_model(
                    self.sections@,
                    sk,
                    kk,
                ),
            forall|sk: Seq<char>|
                #[trigger] sec_present(r.sections@, sk) == sec_present(self.sections@, sk),
    {
        let n = self.sections.len();
        let mut out: Vec<(String, Vec<(String, ITValue)>)> = Vec::new();
        let mut i: usize = 0;
        while i < n
            invariant
                n == self.sections@.len(),
                i <= n,
                sections_wf(self.sections@),
                out@.len() == i,
                forall|j: int|
                    0 <= j < i ==> (#[trigger] out@[j]).0@ == self.sections@[j].0@ && kv_wf(
                        out@[j].1@,
                    ) && (forall|kk: Seq<char>|
                        #[trigger] kv_model(out@[j].1@, kk) == kv_model(
                            self.sections@[j].1@,
                            kk,
                        )),
            decreases n - i,
        {
            proof {
                assert(kv_wf(self.sections@[i as int].1@));
            }
            let copied = clone_section(&self.sections[i].1);
            out.push((self.sections[i].0.clone(), copied));
            i = i + 1;
        }
        proof {
            assert(sections_wf(out@)) by {
                assert forall|a: int, b: int|
                    0 <= a < b < out@.len() implies (#[trigger] out@[a]).0@ != (
                #[trigger] out@[b]).0@ by {
                    assert(self.sections@[a].0@ != self.sections@[b].0@);
                }
            }
            assert forall|sk: Seq<char>| #[trigger] sec_present(out@, sk) == sec_present(
                self.sections@,
                sk,
            ) by {
                lemma_sec_lookup_congruent(out@, self.sections@, sk);
            }
            assert forall|sk: Seq<char>, kk: Seq<char>| #[trigger] entry_model(out@, sk, kk)
                == entry_model(self.sections@, sk, kk) by {
                lemma_sec_lookup_congruent(out@, self.sections@, sk);
            }
        }
        ITFile {
            version: self.version,
            aabstract: self.aabstract,
            extends: self.extends.clone(),
            sections: out,
        }
    }
}

/// Pointwise key-equal section lists look up the same names, with
/// sections of pointwise equal models.
proof fn lemma_sec_lookup_congruent(
    a: Seq<(String, Vec<(String, ITValue)>)>,
    b: Seq<(String, Vec<(String, ITValue)>)>,
    k: Seq<char>,
)
    requires
        a.len() == b.len(),
        forall|j: int|
            0 <= j < a.len() ==> (#[trigger] a[j]).0@ == b[j].0@ && (forall|kk: Seq<char>|
                #[trigger] kv_model(a[j].1@, kk) == kv_model(b[j].1@, kk)),
    ensures
        sec_lookup(a, k) is Some <==> sec_lookup(b, k) is Some,
        sec_lookup(a, k) is Some ==> forall|kk: Seq<char>|
            #[trigger] kv_model(sec_lookup(a, k)->Some_0@, kk) == kv_model(
                sec_lookup(b, k)->Some_0@,
                kk,
            ),
    decreases a.len(),
{
    if a.len() > 0 {
        assert(a[0].0@ == b[0].0@);
        if a[0].0@ != k {
            assert forall|j: int|
                0 <= j < a.drop_first().len() implies (#[trigger] a.drop_first()[j]).0@
                    == b.drop_first()[j].0@ && (forall|kk: Seq<char>|
                    #[trigger] kv_model(a.drop_first()[j].1@, kk) == kv_model(
                        b.drop_first()[j].1@,
                        kk,
                    )) by {
                assert(a[j + 1].0@ == b[j + 1].0@);
                assert(forall|kk: Seq<char>|
                    #[trigger] kv_model(a[j + 1].1@, kk) == kv_model(b[j + 1].1@, kk));
            }
            lemma_sec_lookup_congruent(a.drop_first(), b.drop_first(), k);
        }
    }
}

} // verus!
