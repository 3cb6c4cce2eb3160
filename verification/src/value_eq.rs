//! Equality of values by meaning: the same type, the same contents with
//! strings compared by their characters, and the same provenance. This is
//! the equality the merge rules compare arriving values with.

use vstd::prelude::*;
use crate::text::str_eq;
use crate::value::{CfgKey, Data, MatchArm, Origin, Pattern, Pred, Prov, Site, Value};
use crate::value_model::{
    arms_m, data_m, key_m, lemma_arms_m, lemma_rows_m, lemma_values_m, origin_m, pattern_m, pred_m,
    prov_m, rows_m, value_m, values_m, ArmM, DataM, ValueM,
};

verus! {

pub fn same_key(a: &CfgKey, b: &CfgKey) -> (r: bool)
    ensures
        r == (key_m(*a) == key_m(*b)),
{
    a.ns == b.ns && str_eq(a.name.as_str(), b.name.as_str())
}

pub fn same_pred(a: &Pred, b: &Pred) -> (r: bool)
    ensures
        r == (pred_m(*a) == pred_m(*b)),
    decreases a,
{
    match (a, b) {
        (Pred::Flag(x), Pred::Flag(y)) => same_key(x, y),
        (Pred::Eq(x, u), Pred::Eq(y, v)) => same_key(x, y) && str_eq(u.as_str(), v.as_str()),
        (Pred::Not(x), Pred::Not(y)) => same_pred(x, y),
        (Pred::And(x1, x2), Pred::And(y1, y2)) => same_pred(x1, y1) && same_pred(x2, y2),
        (Pred::Or(x1, x2), Pred::Or(y1, y2)) => same_pred(x1, y1) && same_pred(x2, y2),
        _ => false,
    }
}

pub fn same_pattern(a: &Pattern, b: &Pattern) -> (r: bool)
    ensures
        r == (pattern_m(*a) == pattern_m(*b)),
{
    match (a, b) {
        (Pattern::Value(x), Pattern::Value(y)) => str_eq(x.as_str(), y.as_str()),
        (Pattern::Wildcard, Pattern::Wildcard) => true,
        _ => false,
    }
}

pub fn same_origin(a: &Origin, b: &Origin) -> (r: bool)
    ensures
        r == (origin_m(*a) == origin_m(*b)),
{
    match (a, b) {
        (Origin::Literal, Origin::Literal) => true,
        (Origin::Call(x), Origin::Call(y)) => str_eq(x.as_str(), y.as_str()),
        (Origin::MatchArm(x), Origin::MatchArm(y)) => str_eq(x.as_str(), y.as_str()),
        (Origin::WhenTrue(x), Origin::WhenTrue(y)) => str_eq(x.as_str(), y.as_str()),
        (Origin::Propagated { from: f1, prop: p1 }, Origin::Propagated { from: f2, prop: p2 }) => str_eq(
            f1.as_str(),
            f2.as_str(),
        ) && str_eq(p1.as_str(), p2.as_str()),
        (Origin::Merged { prop: p1, rule: r1 }, Origin::Merged { prop: p2, rule: r2 }) => str_eq(
            p1.as_str(),
            p2.as_str(),
        ) && str_eq(r1, r2),
        (Origin::Config, Origin::Config) => true,
        (Origin::Default, Origin::Default) => true,
        _ => false,
    }
}

pub fn same_prov(a: &Prov, b: &Prov) -> (r: bool)
    ensures
        r == (prov_m(*a) == prov_m(*b)),
{
    if a.len() != b.len() {
        assert(prov_m(*a).len() != prov_m(*b).len());
        return false;
    }
    let mut i: usize = 0;
    while i < a.len()
        invariant
            a.view().len() == b.view().len(),
            i <= a.view().len(),
            forall|j: int| 0 <= j < i ==> #[trigger] prov_m(*a)[j] == prov_m(*b)[j],
        decreases a.view().len() - i,
    {
        let x = a.step(i);
        let y = b.step(i);
        if !same_origin(&x.0, &y.0) || x.1 != y.1 {
            assert(prov_m(*a)[i as int] != prov_m(*b)[i as int]);
            return false;
        }
        i += 1;
    }
    assert(prov_m(*a) =~= prov_m(*b));
    true
}

/// Whether two values mean the same.
pub fn same_value(a: &Value, b: &Value) -> (r: bool)
    ensures
        r == (value_m(*a) == value_m(*b)),
    decreases a, 1nat,
{
    a.ty.same(&b.ty) && same_data(&a.data, &b.data) && same_prov(&a.prov, &b.prov)
}

/// Whether two values hold the same, their provenance included where a
/// value is nested inside.
pub fn same_data(a: &Data, b: &Data) -> (r: bool)
    ensures
        r == (data_m(*a) == data_m(*b)),
    decreases a, 0nat,
{
    match (a, b) {
        (Data::Str(x), Data::Str(y)) => str_eq(x.as_str(), y.as_str()),
        (Data::Int(x), Data::Int(y)) => *x == *y,
        (Data::Bool(x), Data::Bool(y)) => *x == *y,
        (Data::Path(x), Data::Path(y)) => x.base == y.base && str_eq(x.rel.as_str(), y.rel.as_str()),
        (Data::Glob(x), Data::Glob(y)) => str_eq(x.as_str(), y.as_str()),
        (Data::Dep(x), Data::Dep(y)) => str_eq(x.as_str(), y.as_str()),
        (Data::Target(x), Data::Target(y)) => str_eq(x.as_str(), y.as_str()),
        (Data::PkgRef(x), Data::PkgRef(y)) => str_eq(x.as_str(), y.as_str()),
        (Data::Error, Data::Error) => true,
        (Data::When { pred: p, inner: x }, Data::When { pred: q, inner: y }) => {
            proof {
                assert(decreases_to!(*a => a->inner));
            }
            same_pred(p, q) && same_value(x, y)
        },
        (Data::List(xs), Data::List(ys)) => {
            proof {
                lemma_values_m(xs@);
                lemma_values_m(ys@);
            }
            if xs.len() != ys.len() {
                assert(values_m(xs@).len() != values_m(ys@).len());
                return false;
            }
            let mut i: usize = 0;
            while i < xs.len()
                invariant
                    *a == Data::List(*xs),
                    *b == Data::List(*ys),
                    xs@.len() == ys@.len(),
                    i <= xs@.len(),
                    values_m(xs@).len() == xs@.len(),
                    values_m(ys@).len() == ys@.len(),
                    forall|j: int| 0 <= j < xs@.len() ==> #[trigger] values_m(xs@)[j] == value_m(xs@[j]),
                    forall|j: int| 0 <= j < ys@.len() ==> #[trigger] values_m(ys@)[j] == value_m(ys@[j]),
                    forall|j: int| 0 <= j < i ==> value_m(#[trigger] xs@[j]) == value_m(ys@[j]),
                decreases xs.len() - i,
            {
                proof {
                    assert(decreases_to!(*a => a->List_0));
                    vstd::std_specs::vec::axiom_vec_index_decreases(*xs, i as int);
                }
                if !same_value(&xs[i], &ys[i]) {
                    assert(values_m(xs@)[i as int] != values_m(ys@)[i as int]);
                    return false;
                }
                i += 1;
            }
            assert forall|j: int| 0 <= j < xs@.len() implies values_m(xs@)[j] == values_m(ys@)[j] by {
                assert(value_m(xs@[j]) == value_m(ys@[j]));
            }
            assert(values_m(xs@) =~= values_m(ys@));
            true
        },
        (Data::MapOf(xs), Data::MapOf(ys)) => {
            proof {
                lemma_rows_m(xs@);
                lemma_rows_m(ys@);
            }
            if xs.len() != ys.len() {
                assert(rows_m(xs@).len() != rows_m(ys@).len());
                return false;
            }
            let mut i: usize = 0;
            while i < xs.len()
                invariant
                    *a == Data::MapOf(*xs),
                    *b == Data::MapOf(*ys),
                    xs@.len() == ys@.len(),
                    i <= xs@.len(),
                    rows_m(xs@).len() == xs@.len(),
                    rows_m(ys@).len() == ys@.len(),
                    forall|j: int|
                        0 <= j < xs@.len() ==> #[trigger] rows_m(xs@)[j] == (xs@[j].0@, value_m(
                            xs@[j].1,
                        )),
                    forall|j: int|
                        0 <= j < ys@.len() ==> #[trigger] rows_m(ys@)[j] == (ys@[j].0@, value_m(
                            ys@[j].1,
                        )),
                    forall|j: int| 0 <= j < i ==> #[trigger] rows_m(xs@)[j] == rows_m(ys@)[j],
                decreases xs.len() - i,
            {
                proof {
                    assert(decreases_to!(*a => a->MapOf_0));
                    vstd::std_specs::vec::axiom_vec_index_decreases(*xs, i as int);
                    assert(decreases_to!(xs@[i as int] => xs@[i as int].1));
                }
                if !str_eq(xs[i].0.as_str(), ys[i].0.as_str()) || !same_value(&xs[i].1, &ys[i].1) {
                    assert(rows_m(xs@)[i as int] != rows_m(ys@)[i as int]);
                    return false;
                }
                i += 1;
            }
            assert(rows_m(xs@) =~= rows_m(ys@));
            true
        },
        (Data::Match { scrutinee: k1, arms: xs }, Data::Match { scrutinee: k2, arms: ys }) => {
            proof {
                lemma_arms_m(xs@);
                lemma_arms_m(ys@);
            }
            if !same_key(k1, k2) {
                return false;
            }
            if xs.len() != ys.len() {
                assert(arms_m(xs@).len() != arms_m(ys@).len());
                return false;
            }
            let mut i: usize = 0;
            while i < xs.len()
                invariant
                    *a == (Data::Match { scrutinee: *k1, arms: *xs }),
                    *b == (Data::Match { scrutinee: *k2, arms: *ys }),
                    xs@.len() == ys@.len(),
                    i <= xs@.len(),
                    arms_m(xs@).len() == xs@.len(),
                    arms_m(ys@).len() == ys@.len(),
                    forall|j: int|
                        0 <= j < xs@.len() ==> #[trigger] arms_m(xs@)[j] == (ArmM {
                            pattern: pattern_m(xs@[j].pattern),
                            site: xs@[j].site,
                            value: value_m(xs@[j].value),
                        }),
                    forall|j: int|
                        0 <= j < ys@.len() ==> #[trigger] arms_m(ys@)[j] == (ArmM {
                            pattern: pattern_m(ys@[j].pattern),
                            site: ys@[j].site,
                            value: value_m(ys@[j].value),
                        }),
                    forall|j: int| 0 <= j < i ==> #[trigger] arms_m(xs@)[j] == arms_m(ys@)[j],
                decreases xs.len() - i,
            {
                proof {
                    assert(decreases_to!(*a => a->arms));
                    vstd::std_specs::vec::axiom_vec_index_decreases(*xs, i as int);
                    assert(decreases_to!(xs@[i as int] => xs@[i as int].value));
                }
                if !same_pattern(&xs[i].pattern, &ys[i].pattern) || xs[i].site != ys[i].site
                    || !same_value(&xs[i].value, &ys[i].value) {
                    assert(arms_m(xs@)[i as int] != arms_m(ys@)[i as int]);
                    return false;
                }
                i += 1;
            }
            assert(arms_m(xs@) =~= arms_m(ys@));
            true
        },
        _ => false,
    }
}

} // verus!
