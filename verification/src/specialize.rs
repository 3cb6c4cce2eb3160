//! Specialisation by a configuration: conditions are resolved once the
//! configuration is known. It is apart from evaluating the manifest, so
//! switching `--release` or `--target` redoes only this step.

use vstd::prelude::*;
use crate::config::{bool_text, cfg_value_text, cfg_view, lookup_text, pkg_constant_text, CfgValue, CfgView, Config};
use crate::text::{owned, str_eq};
use crate::value::{
    rows_conditional, value_conditional, values_conditional, pattern_text, pred_text, type_concrete, Data, MatchArm, Origin, Pattern, Pred, Site, Type, Value,
};
use crate::value_model::{
    arms_m, data_m, key_m, lemma_arms_m, lemma_pred_text_m, lemma_rows_m, lemma_values_m, pattern_m,
    pattern_text_m, pred_m, pred_text_m, prov_m, rows_m, value_m, values_m, ArmM, DataM, OriginM,
    PatternM, PredM, ValueM,
};

verus! {

/// The text of a configuration value, as it is compared with a pattern.
pub open spec fn view_text(v: CfgView) -> Seq<char> {
    match v {
        CfgView::Str(s) => s,
        CfgView::Bool(b) => bool_text(b),
    }
}

/// Whether a predicate holds under a configuration. Composition follows
/// the tree; precedence was settled by the parser.
pub open spec fn pred_holds(c: Config, p: Pred) -> bool
    decreases p,
{
    match p {
        Pred::Flag(k) => lookup_text(c, k.ns, k.name@) == Some(CfgView::Bool(true)),
        Pred::Eq(k, expected) => match lookup_text(c, k.ns, k.name@) {
            Some(v) => view_text(v) == expected@,
            None => false,
        },
        Pred::Not(q) => !pred_holds(c, *q),
        Pred::And(a, b) => pred_holds(c, *a) && pred_holds(c, *b),
        Pred::Or(a, b) => pred_holds(c, *a) || pred_holds(c, *b),
    }
}

/// Whether a predicate's model holds under a configuration.
pub open spec fn pred_holds_m(c: Config, p: PredM) -> bool
    decreases p,
{
    match p {
        PredM::Flag(k) => lookup_text(c, k.ns, k.name) == Some(CfgView::Bool(true)),
        PredM::Eq(k, expected) => match lookup_text(c, k.ns, k.name) {
            Some(v) => view_text(v) == expected,
            None => false,
        },
        PredM::Not(q) => !pred_holds_m(c, *q),
        PredM::And(a, b) => pred_holds_m(c, *a) && pred_holds_m(c, *b),
        PredM::Or(a, b) => pred_holds_m(c, *a) || pred_holds_m(c, *b),
    }
}

/// Whether a predicate holds is read off its model.
pub proof fn lemma_pred_holds_m(c: Config, p: Pred)
    ensures
        pred_holds(c, p) == pred_holds_m(c, pred_m(p)),
    decreases p,
{
    match p {
        Pred::Not(a) => lemma_pred_holds_m(c, *a),
        Pred::And(a, b) => {
            lemma_pred_holds_m(c, *a);
            lemma_pred_holds_m(c, *b);
        },
        Pred::Or(a, b) => {
            lemma_pred_holds_m(c, *a);
            lemma_pred_holds_m(c, *b);
        },
        _ => {},
    }
}

/// Evaluates a predicate under a configuration. A flag holds when its key
/// is `true`; a comparison holds when the key's value reads as the expected
/// text; a key that is not found makes either false.
pub fn eval_pred(pred: &Pred, cfg: &Config) -> (r: bool)
    ensures
        r == pred_holds(*cfg, *pred),
    decreases pred,
{
    match pred {
        Pred::Flag(key) => match cfg.lookup(key) {
            Some(CfgValue::Bool(b)) => b,
            _ => false,
        },
        Pred::Eq(key, expected) => match cfg.lookup(key) {
            Some(v) => {
                let text = v.display();
                str_eq(text.as_str(), expected.as_str())
            },
            None => false,
        },
        Pred::Not(p) => !eval_pred(p, cfg),
        Pred::And(a, b) => eval_pred(a, cfg) && eval_pred(b, cfg),
        Pred::Or(a, b) => eval_pred(a, cfg) || eval_pred(b, cfg),
    }
}


/// The index of the first item of `s` that satisfies `p`.
pub open spec fn first_index<A>(s: Seq<A>, p: spec_fn(A) -> bool) -> Option<int>
    decreases s.len(),
{
    if s.len() == 0 {
        None
    } else {
        match first_index(s.drop_last(), p) {
            Some(i) => Some(i),
            None => if p(s.last()) {
                Some(s.len() - 1)
            } else {
                None
            },
        }
    }
}

/// The first index found is in range, and its item satisfies `p`.
pub proof fn lemma_first_index<A>(s: Seq<A>, p: spec_fn(A) -> bool)
    ensures
        first_index(s, p) matches Some(i) ==> 0 <= i < s.len() && p(s[i]) && forall|j: int|
            0 <= j < i ==> !p(#[trigger] s[j]),
        first_index(s, p) is None ==> forall|j: int| 0 <= j < s.len() ==> !p(#[trigger] s[j]),
    decreases s.len(),
{
    if s.len() > 0 {
        let d = s.drop_last();
        lemma_first_index(d, p);
        match first_index(d, p) {
            Some(i) => {
                assert forall|j: int| 0 <= j < i implies !p(#[trigger] s[j]) by {
                    assert(d[j] == s[j]);
                    assert(!p(d[j]));
                }
                assert(d[i] == s[i]);
            },
            None => {
                assert forall|j: int| 0 <= j < d.len() implies !p(#[trigger] s[j]) by {
                    assert(d[j] == s[j]);
                    assert(!p(d[j]));
                }
            },
        }
    }
}

/// Looking one item further.
pub proof fn lemma_first_index_step<A>(s: Seq<A>, p: spec_fn(A) -> bool, i: int)
    requires
        0 <= i < s.len(),
    ensures
        first_index(s.take(i + 1), p) == (match first_index(s.take(i), p) {
            Some(j) => Some(j),
            None => if p(s[i]) {
                Some(i)
            } else {
                None
            },
        }),
{
    assert(s.take(i + 1).drop_last() =~= s.take(i));
}

/// What is found in a prefix is what is found in the whole.
pub proof fn lemma_first_index_prefix<A>(s: Seq<A>, p: spec_fn(A) -> bool, k: int)
    requires
        0 <= k <= s.len(),
        first_index(s.take(k), p) is Some,
    ensures
        first_index(s, p) == first_index(s.take(k), p),
    decreases s.len() - k,
{
    if k < s.len() {
        lemma_first_index_step(s, p, k);
        lemma_first_index_prefix(s, p, k + 1);
    } else {
        assert(s.take(k) =~= s);
    }
}

/// An arm whose pattern is exactly the value `actual`.
pub open spec fn names_value(actual: Seq<char>) -> spec_fn(ArmM) -> bool {
    |a: ArmM| a.pattern == PatternM::Value(actual)
}

/// An arm whose pattern is `_`.
pub open spec fn is_wildcard() -> spec_fn(ArmM) -> bool {
    |a: ArmM| a.pattern == PatternM::Wildcard
}

/// The arm a `match` takes for the value `actual`: the first that names
/// it, or else the first `_`.
pub open spec fn chosen_arm(arms: Seq<ArmM>, actual: Seq<char>) -> Option<int> {
    match first_index(arms, names_value(actual)) {
        Some(i) => Some(i),
        None => first_index(arms, is_wildcard()),
    }
}

/// The site of the nearest step of a chain.
pub open spec fn head_site(p: Seq<(OriginM, Option<Site>)>) -> Option<Site> {
    if p.len() == 0 {
        None
    } else {
        p[0].1
    }
}

/// A value specialised by a configuration: `None` when a `when` is false,
/// when a `match` has no arm for the configuration or reads a key the
/// configuration lacks, or when a package constant is missing. A `when`
/// that holds and a `match` leave a step in the provenance; elements that
/// specialise to `None` are dropped from lists and maps.
pub open spec fn specialized(c: Config, v: ValueM) -> Option<ValueM>
    decreases v, 1nat,
{
    match v.data {
        DataM::When(pred, inner) => if !pred_holds_m(c, pred) {
            None
        } else {
            match specialized(c, *inner) {
                Some(x) => Some(
                    ValueM {
                        ty: x.ty,
                        data: x.data,
                        prov: seq![(OriginM::WhenTrue(pred_text_m(pred)), head_site(v.prov))] + x.prov,
                    },
                ),
                None => None,
            }
        },
        DataM::Match(k, arms) => match lookup_text(c, k.ns, k.name) {
            None => None,
            Some(actual) => match chosen_arm(arms, view_text(actual)) {
                None => None,
                Some(i) => {
                    proof {
                        lemma_first_index(arms, names_value(view_text(actual)));
                        lemma_first_index(arms, is_wildcard());
                    }
                    match specialized(c, arms[i].value) {
                        Some(x) => Some(
                            ValueM {
                                ty: x.ty,
                                data: x.data,
                                prov: seq![
                                    (OriginM::MatchArm(pattern_text_m(arms[i].pattern)), Some(arms[i].site)),
                                ] + x.prov,
                            },
                        ),
                        None => None,
                    }
                },
            },
        },
        DataM::PkgRef(name) => match pkg_constant_text(c, name) {
            Some(t) => Some(ValueM { ty: Type::Str, data: DataM::Str(t), prov: v.prov }),
            None => None,
        },
        DataM::List(items) => Some(
            ValueM {
                ty: type_concrete(v.ty),
                data: DataM::List(specialized_list(c, items)),
                prov: v.prov,
            },
        ),
        DataM::MapOf(rows) => Some(
            ValueM {
                ty: type_concrete(v.ty),
                data: DataM::MapOf(specialized_rows(c, rows)),
                prov: v.prov,
            },
        ),
        _ => Some(v),
    }
}

/// The elements of a list that specialise, specialised, in order.
pub open spec fn specialized_list(c: Config, s: Seq<ValueM>) -> Seq<ValueM>
    decreases s, 0nat,
{
    if s.len() == 0 {
        Seq::empty()
    } else {
        let init = specialized_list(c, s.subrange(0, s.len() - 1));
        match specialized(c, s[s.len() - 1]) {
            Some(x) => init.push(x),
            None => init,
        }
    }
}

/// The entries of a map whose values specialise, specialised, in order.
pub open spec fn specialized_rows(c: Config, s: Seq<(Seq<char>, ValueM)>) -> Seq<(Seq<char>, ValueM)>
    decreases s, 0nat,
{
    if s.len() == 0 {
        Seq::empty()
    } else {
        let init = specialized_rows(c, s.subrange(0, s.len() - 1));
        match specialized(c, s[s.len() - 1].1) {
            Some(x) => init.push((s[s.len() - 1].0, x)),
            None => init,
        }
    }
}


/// The first arm whose pattern names `actual`.
fn find_value_arm(arms: &[MatchArm], actual: &str) -> (r: Option<usize>)
    ensures
        match r {
            Some(i) => first_index(arms_m(arms@), names_value(actual@)) == Some(i as int),
            None => first_index(arms_m(arms@), names_value(actual@)) is None,
        },
{
    let ghost am = arms_m(arms@);
    let ghost p = names_value(actual@);
    proof {
        lemma_arms_m(arms@);
    }
    let mut i: usize = 0;
    while i < arms.len()
        invariant
            i <= arms@.len(),
            am == arms_m(arms@),
            am.len() == arms@.len(),
            p == names_value(actual@),
            forall|j: int| 0 <= j < arms@.len() ==> (#[trigger] am[j]).pattern == pattern_m(arms@[j].pattern),
            first_index(am.take(i as int), p) is None,
        decreases arms.len() - i,
    {
        proof {
            lemma_first_index_step(am, p, i as int);
        }
        let named = match &arms[i].pattern {
            Pattern::Value(v) => str_eq(v.as_str(), actual),
            Pattern::Wildcard => false,
        };
        assert(named == p(am[i as int]));
        if named {
            proof {
                lemma_first_index_prefix(am, p, i + 1);
            }
            return Some(i);
        }
        i += 1;
    }
    assert(am.take(i as int) =~= am);
    None
}

/// The first arm whose pattern is `_`.
fn find_wildcard(arms: &[MatchArm]) -> (r: Option<usize>)
    ensures
        match r {
            Some(i) => first_index(arms_m(arms@), is_wildcard()) == Some(i as int),
            None => first_index(arms_m(arms@), is_wildcard()) is None,
        },
{
    let ghost am = arms_m(arms@);
    let ghost p = is_wildcard();
    proof {
        lemma_arms_m(arms@);
    }
    let mut i: usize = 0;
    while i < arms.len()
        invariant
            i <= arms@.len(),
            am == arms_m(arms@),
            am.len() == arms@.len(),
            p == is_wildcard(),
            forall|j: int| 0 <= j < arms@.len() ==> (#[trigger] am[j]).pattern == pattern_m(arms@[j].pattern),
            first_index(am.take(i as int), p) is None,
        decreases arms.len() - i,
    {
        proof {
            lemma_first_index_step(am, p, i as int);
        }
        let wild = match &arms[i].pattern {
            Pattern::Wildcard => true,
            Pattern::Value(_) => false,
        };
        assert(wild == p(am[i as int]));
        if wild {
            proof {
                lemma_first_index_prefix(am, p, i + 1);
            }
            return Some(i);
        }
        i += 1;
    }
    assert(am.take(i as int) =~= am);
    None
}

/// Resolves a value's conditions under a configuration: the `Cfg<T>` of the
/// manifest becomes a `T`. A value whose `when` is false becomes `None`,
/// and is dropped where it stands in a list or a map.
pub fn specialize(value: &Value, cfg: &Config) -> (r: Option<Value>)
    ensures
        match r {
            Some(x) => specialized(*cfg, value_m(*value)) == Some(value_m(x)),
            None => specialized(*cfg, value_m(*value)) is None,
        },
    decreases value,
{
    match &value.data {
        Data::When { pred, inner } => {
            proof {
                lemma_pred_holds_m(*cfg, *pred);
                lemma_pred_text_m(*pred);
            }
            if !eval_pred(pred, cfg) {
                return None;
            }
            proof {
                assert(decreases_to!(*value => value.data));
                assert(decreases_to!(value.data => value.data->inner));
            }
            let x = match specialize(inner, cfg) {
                Some(x) => x,
                None => {
                    return None;
                },
            };
            let text = pred.display();
            let site = value.prov.site();
            let Value { ty, data, prov } = x;
            let prov = prov.with_step(Origin::WhenTrue(text), site);
            let out = Value { ty, data, prov };
            proof {
                assert(prov_m(out.prov) =~= seq![
                    (OriginM::WhenTrue(pred_text_m(pred_m(*pred))), head_site(prov_m(value.prov))),
                ] + prov_m(x.prov));
            }
            Some(out)
        },
        Data::Match { scrutinee, arms } => {
            let actual = match cfg.lookup(scrutinee) {
                Some(v) => v.display(),
                None => {
                    return None;
                },
            };
            let found = match find_value_arm(arms.as_slice(), actual.as_str()) {
                Some(i) => Some(i),
                None => find_wildcard(arms.as_slice()),
            };
            let c = match found {
                Some(c) => c,
                None => {
                    return None;
                },
            };
            proof {
                lemma_arms_m(arms@);
                lemma_first_index(arms_m(arms@), names_value(actual@));
                lemma_first_index(arms_m(arms@), is_wildcard());
                assert(decreases_to!(*value => value.data));
                assert(decreases_to!(value.data => value.data->arms));
                vstd::std_specs::vec::axiom_vec_index_decreases(*arms, c as int);
                assert(decreases_to!(arms@[c as int] => arms@[c as int].value));
            }
            let arm = &arms[c];
            let x = match specialize(&arm.value, cfg) {
                Some(x) => x,
                None => {
                    return None;
                },
            };
            let text = arm.pattern.display();
            let Value { ty, data, prov } = x;
            let prov = prov.with_step(Origin::MatchArm(text), Some(arm.site));
            let out = Value { ty, data, prov };
            proof {
                assert(arms_m(arms@)[c as int].pattern == pattern_m(arm.pattern));
                assert(pattern_text(arm.pattern) == pattern_text_m(pattern_m(arm.pattern)));
                assert(prov_m(out.prov) =~= seq![
                    (OriginM::MatchArm(pattern_text_m(pattern_m(arm.pattern))), Some(arm.site)),
                ] + prov_m(x.prov));
            }
            Some(out)
        },
        Data::PkgRef(name) => {
            let t = match cfg.pkg_constant(name.as_str()) {
                Some(t) => t,
                None => {
                    return None;
                },
            };
            Some(Value { ty: Type::Str, data: Data::Str(owned(t)), prov: value.prov.copy() })
        },
        Data::List(items) => {
            let ghost s = values_m(items@);
            proof {
                lemma_values_m(items@);
            }
            let mut out: Vec<Value> = Vec::new();
            let mut i: usize = 0;
            while i < items.len()
                invariant
                    i <= items@.len(),
                    value.data == Data::List(*items),
                    s == values_m(items@),
                    s.len() == items@.len(),
                    forall|j: int| 0 <= j < items@.len() ==> #[trigger] s[j] == value_m(items@[j]),
                    values_m(out@) == specialized_list(*cfg, s.take(i as int)),
                decreases items.len() - i,
            {
                proof {
                    assert(decreases_to!(*value => value.data));
                    assert(decreases_to!(value.data => value.data->List_0));
                    vstd::std_specs::vec::axiom_vec_index_decreases(*items, i as int);
                    assert(s.take(i + 1).subrange(0, i as int) =~= s.take(i as int));
                    assert(s.take(i + 1)[i as int] == s[i as int]);
                }
                match specialize(&items[i], cfg) {
                    Some(x) => {
                        let ghost before = out@;
                        out.push(x);
                        assert(out@.subrange(0, out@.len() - 1) =~= before);
                    },
                    None => {},
                }
                i += 1;
            }
            assert(s.take(i as int) =~= s);
            Some(Value { ty: value.ty.concrete().copy(), data: Data::List(out), prov: value.prov.copy() })
        },
        Data::MapOf(rows) => {
            let ghost s = rows_m(rows@);
            proof {
                lemma_rows_m(rows@);
            }
            let mut out: Vec<(String, Value)> = Vec::new();
            let mut i: usize = 0;
            while i < rows.len()
                invariant
                    i <= rows@.len(),
                    value.data == Data::MapOf(*rows),
                    s == rows_m(rows@),
                    s.len() == rows@.len(),
                    forall|j: int|
                        0 <= j < rows@.len() ==> #[trigger] s[j] == (rows@[j].0@, value_m(rows@[j].1)),
                    rows_m(out@) == specialized_rows(*cfg, s.take(i as int)),
                decreases rows.len() - i,
            {
                proof {
                    assert(decreases_to!(*value => value.data));
                    assert(decreases_to!(value.data => value.data->MapOf_0));
                    vstd::std_specs::vec::axiom_vec_index_decreases(*rows, i as int);
                    assert(decreases_to!(rows@[i as int] => rows@[i as int].1));
                    assert(s.take(i + 1).subrange(0, i as int) =~= s.take(i as int));
                    assert(s.take(i + 1)[i as int] == s[i as int]);
                }
                match specialize(&rows[i].1, cfg) {
                    Some(x) => {
                        let ghost before = out@;
                        let key = crate::text::copy_string(&rows[i].0);
                        out.push((key, x));
                        assert(out@.subrange(0, out@.len() - 1) =~= before);
                    },
                    None => {},
                }
                i += 1;
            }
            assert(s.take(i as int) =~= s);
            Some(Value { ty: value.ty.concrete().copy(), data: Data::MapOf(out), prov: value.prov.copy() })
        },
        _ => Some(value.copy()),
    }
}


/// Whether a value's model holds a `match` or a `when` anywhere inside it.
pub open spec fn conditional_m(v: ValueM) -> bool
    decreases v, 1nat,
{
    match v.data {
        DataM::Match(_, _) => true,
        DataM::When(_, _) => true,
        DataM::List(items) => list_conditional_m(items),
        DataM::MapOf(rows) => rows_conditional_m(rows),
        _ => false,
    }
}

pub open spec fn list_conditional_m(s: Seq<ValueM>) -> bool
    decreases s, 0nat,
{
    if s.len() == 0 {
        false
    } else {
        list_conditional_m(s.subrange(0, s.len() - 1)) || conditional_m(s[s.len() - 1])
    }
}

pub open spec fn rows_conditional_m(s: Seq<(Seq<char>, ValueM)>) -> bool
    decreases s, 0nat,
{
    if s.len() == 0 {
        false
    } else {
        rows_conditional_m(s.subrange(0, s.len() - 1)) || conditional_m(s[s.len() - 1].1)
    }
}

/// Whether a value is conditional is read off its model.
pub proof fn lemma_conditional_m(v: Value)
    ensures
        value_conditional(v) == conditional_m(value_m(v)),
    decreases v, 1nat,
{
    match v.data {
        Data::List(items) => {
            assert(decreases_to!(v => v.data));
            lemma_list_conditional_m(items@);
        },
        Data::MapOf(rows) => {
            assert(decreases_to!(v => v.data));
            lemma_rows_conditional_m(rows@);
        },
        _ => {},
    }
}

pub proof fn lemma_list_conditional_m(s: Seq<Value>)
    ensures
        values_conditional(s) == list_conditional_m(values_m(s)),
    decreases s, 0nat,
{
    if s.len() > 0 {
        let p = s.subrange(0, s.len() - 1);
        lemma_list_conditional_m(p);
        lemma_conditional_m(s[s.len() - 1]);
        lemma_values_m(p);
        assert(values_m(s) == values_m(p).push(value_m(s[s.len() - 1])));
        assert(values_m(s).subrange(0, s.len() - 1) =~= values_m(p));
    }
}

pub proof fn lemma_rows_conditional_m(s: Seq<(String, Value)>)
    ensures
        rows_conditional(s) == rows_conditional_m(rows_m(s)),
    decreases s, 0nat,
{
    if s.len() > 0 {
        let p = s.subrange(0, s.len() - 1);
        lemma_rows_conditional_m(p);
        assert(decreases_to!(s => s[s.len() - 1]));
        lemma_conditional_m(s[s.len() - 1].1);
        lemma_rows_m(p);
        assert(rows_m(s) == rows_m(p).push((s[s.len() - 1].0@, value_m(s[s.len() - 1].1))));
        assert(rows_m(s).subrange(0, s.len() - 1) =~= rows_m(p));
    }
}

/// A specialised value depends on the configuration nowhere: no `match`
/// and no `when` is left in it.
pub proof fn law_a_specialized_value_holds_no_condition(c: Config, v: ValueM)
    ensures
        specialized(c, v) matches Some(x) ==> !conditional_m(x),
    decreases v, 1nat,
{
    match v.data {
        DataM::When(pred, inner) => {
            law_a_specialized_value_holds_no_condition(c, *inner);
        },
        DataM::Match(k, arms) => {
            if let Some(actual) = lookup_text(c, k.ns, k.name) {
                if let Some(i) = chosen_arm(arms, view_text(actual)) {
                    lemma_first_index(arms, names_value(view_text(actual)));
                    lemma_first_index(arms, is_wildcard());
                    law_a_specialized_value_holds_no_condition(c, arms[i].value);
                }
            }
        },
        DataM::List(items) => {
            lemma_specialized_list_plain(c, items);
        },
        DataM::MapOf(rows) => {
            lemma_specialized_rows_plain(c, rows);
        },
        _ => {},
    }
}

proof fn lemma_specialized_list_plain(c: Config, s: Seq<ValueM>)
    ensures
        !list_conditional_m(specialized_list(c, s)),
    decreases s, 0nat,
{
    if s.len() > 0 {
        let p = s.subrange(0, s.len() - 1);
        lemma_specialized_list_plain(c, p);
        law_a_specialized_value_holds_no_condition(c, s[s.len() - 1]);
        if let Some(x) = specialized(c, s[s.len() - 1]) {
            let out = specialized_list(c, s);
            assert(out.subrange(0, out.len() - 1) =~= specialized_list(c, p));
        }
    }
}

proof fn lemma_specialized_rows_plain(c: Config, s: Seq<(Seq<char>, ValueM)>)
    ensures
        !rows_conditional_m(specialized_rows(c, s)),
    decreases s, 0nat,
{
    if s.len() > 0 {
        let p = s.subrange(0, s.len() - 1);
        lemma_specialized_rows_plain(c, p);
        assert(decreases_to!(s => s[s.len() - 1]));
        law_a_specialized_value_holds_no_condition(c, s[s.len() - 1].1);
        if let Some(x) = specialized(c, s[s.len() - 1].1) {
            let out = specialized_rows(c, s);
            assert(out.subrange(0, out.len() - 1) =~= specialized_rows(c, p));
        }
    }
}

} // verus!
