//! What a target supplies to its dependents. A value that arrives from a
//! dependency's `public` block carries that step in its provenance, so
//! that `dowel why` can trace it back.

use vstd::prelude::*;
use crate::config::Config;
use crate::diag::{diags_m, DiagM, Diagnostic};
use crate::document::strings_view;
use crate::merge::{lemma_nearest_m, merge_diags, merge_values, merged_value, nearest_m};
use crate::model::TargetId;
use crate::schema::{block_props, block_rows, row_of, rows_of, PropDef, PropRow};
use crate::specialize::{specialize, specialized};
use crate::strs::ByName;
use crate::text::{owned, push_str};
use crate::value::{Data, Origin, Site, Value};
use crate::value_model::{
    lemma_rows_m, lemma_values_m, origin_m, prov_m, rows_m, steps_m, value_m, values_m, DataM, OriginM, ValueM,
};

verus! {

/// A provenance chain with the step of arriving from `from`'s `public.<prop>`
/// in front, at the nearest site the value already had.
pub open spec fn propagated_step(from: Seq<char>, prop: Seq<char>, p: Seq<(OriginM, Option<Site>)>) -> Seq<
    (OriginM, Option<Site>),
> {
    seq![(OriginM::Propagated(from, "public."@ + prop), nearest_m(p))] + p
}

/// A value with the arriving step added to its own provenance.
pub open spec fn retagged(from: Seq<char>, prop: Seq<char>, v: ValueM) -> ValueM {
    ValueM { prov: propagated_step(from, prop, v.prov), ..v }
}

/// A propagated value: the step is added to the value and, for a list or a
/// map, to each item, since items are merged one by one downstream.
pub open spec fn tagged(v: ValueM, from: Seq<char>, prop: Seq<char>) -> ValueM {
    ValueM {
        ty: v.ty,
        data: match v.data {
            DataM::List(items) => DataM::List(items.map_values(|x: ValueM| retagged(from, prop, x))),
            DataM::MapOf(rows) => DataM::MapOf(
                rows.map_values(|r: (Seq<char>, ValueM)| (r.0, retagged(from, prop, r.1))),
            ),
            d => d,
        },
        prov: propagated_step(from, prop, v.prov),
    }
}

/// The origin of a value arriving from `from`'s `public.<prop>`.
fn propagated_origin(from: &str, prop: &str) -> (o: Origin)
    ensures
        origin_m(o) == OriginM::Propagated(from@, "public."@ + prop@),
{
    let mut p = owned("public.");
    push_str(&mut p, prop);
    proof {
        reveal_strlit("public.");
    }
    Origin::Propagated { from: owned(from), prop: p }
}

/// One value with the arriving step added to its provenance.
fn retag(v: &Value, from: &str, prop: &str) -> (r: Value)
    ensures
        value_m(r) == retagged(from@, prop@, value_m(*v)),
{
    let origin = propagated_origin(from, prop);
    let site = v.prov.nearest_site();
    let prov = v.prov.with_step(origin, site);
    proof {
        lemma_nearest_m(v.prov.view());
        assert(prov_m(prov) =~= propagated_step(from@, prop@, prov_m(v.prov)));
    }
    Value { ty: v.ty.copy(), data: v.data.copy(), prov }
}

/// Marks a value as propagated from the dependency `from`'s
/// `public.<prop>`: one step of what `dowel why` shows.
pub fn tag_propagated(value: &Value, from: &str, prop: &str) -> (r: Value)
    ensures
        value_m(r) == tagged(value_m(*value), from@, prop@),
{
    let origin = propagated_origin(from, prop);
    let site = value.prov.nearest_site();
    let prov = value.prov.with_step(origin, site);
    proof {
        lemma_nearest_m(value.prov.view());
        assert(prov_m(prov) =~= propagated_step(from@, prop@, prov_m(value.prov)));
    }
    match &value.data {
        Data::List(items) => {
            let mut out: Vec<Value> = Vec::new();
            let mut i: usize = 0;
            proof {
                lemma_values_m(items@);
            }
            while i < items.len()
                invariant
                    i <= items@.len(),
                    values_m(items@).len() == items@.len(),
                    forall|j: int| 0 <= j < items@.len() ==> #[trigger] values_m(items@)[j] == value_m(items@[j]),
                    values_m(out@) == values_m(items@).take(i as int).map_values(|x: ValueM| retagged(from@, prop@, x)),
                decreases items.len() - i,
            {
                let ghost before = out@;
                out.push(retag(&items[i], from, prop));
                proof {
                    lemma_values_m(before);
                    lemma_values_m(out@);
                    assert(values_m(out@) =~= values_m(before).push(retagged(from@, prop@, value_m(items@[i as int]))));
                    assert(values_m(items@).take(i + 1) =~= values_m(items@).take(i as int).push(values_m(items@)[i as int]));
                    assert(values_m(out@) =~= values_m(items@).take(i + 1).map_values(|x: ValueM| retagged(from@, prop@, x)));
                }
                i += 1;
            }
            assert(values_m(items@).take(i as int) =~= values_m(items@));
            Value { ty: value.ty.copy(), data: Data::List(out), prov }
        },
        Data::MapOf(rows) => {
            let mut out: Vec<(String, Value)> = Vec::new();
            let mut i: usize = 0;
            proof {
                lemma_rows_m(rows@);
            }
            while i < rows.len()
                invariant
                    i <= rows@.len(),
                    rows_m(rows@).len() == rows@.len(),
                    forall|j: int| 0 <= j < rows@.len() ==> #[trigger] rows_m(rows@)[j] == (rows@[j].0@, value_m(rows@[j].1)),
                    rows_m(out@) == rows_m(rows@).take(i as int).map_values(
                        |r: (Seq<char>, ValueM)| (r.0, retagged(from@, prop@, r.1)),
                    ),
                decreases rows.len() - i,
            {
                let ghost before = out@;
                out.push((crate::text::copy_string(&rows[i].0), retag(&rows[i].1, from, prop)));
                proof {
                    lemma_rows_m(before);
                    lemma_rows_m(out@);
                    assert(rows_m(out@) =~= rows_m(before).push(
                        (rows@[i as int].0@, retagged(from@, prop@, value_m(rows@[i as int].1))),
                    ));
                    assert(rows_m(rows@).take(i + 1) =~= rows_m(rows@).take(i as int).push(rows_m(rows@)[i as int]));
                    assert(rows_m(out@) =~= rows_m(rows@).take(i + 1).map_values(
                        |r: (Seq<char>, ValueM)| (r.0, retagged(from@, prop@, r.1)),
                    ));
                }
                i += 1;
            }
            assert(rows_m(rows@).take(i as int) =~= rows_m(rows@));
            Value { ty: value.ty.copy(), data: Data::MapOf(out), prov }
        },
        _ => Value { ty: value.ty.copy(), data: value.data.copy(), prov },
    }
}

// --- merging a block ---------------------------------------------------------------

/// The values of property `name` in the target's own blocks, specialised,
/// in block order; a value whose condition does not hold is dropped.
pub open spec fn own_reached(cfg: Config, own: Seq<ByName<Value>>, name: Seq<char>) -> Seq<ValueM>
    decreases own.len(),
{
    if own.len() == 0 {
        Seq::empty()
    } else {
        let r = own_reached(cfg, own.drop_last(), name);
        match own.last().lookup(name) {
            Some(v) => match specialized(cfg, value_m(v)) {
                Some(x) => r.push(x),
                None => r,
            },
            None => r,
        }
    }
}

/// The values of property `name` in the interfaces of `deps`, in order,
/// each marked as propagated from its dependency.
pub open spec fn dep_reached(
    labels: Seq<Seq<char>>,
    deps: Seq<TargetId>,
    ifaces: Seq<Option<ByName<Value>>>,
    name: Seq<char>,
) -> Seq<ValueM>
    decreases deps.len(),
{
    if deps.len() == 0 {
        Seq::empty()
    } else {
        let r = dep_reached(labels, deps.drop_last(), ifaces, name);
        let d = deps.last();
        if d.0 < ifaces.len() && ifaces[d.0 as int] is Some && ifaces[d.0 as int]->0.lookup(name) is Some {
            r.push(tagged(value_m(ifaces[d.0 as int]->0.lookup(name)->0), labels[d.0 as int], name))
        } else {
            r
        }
    }
}

/// Everything that reaches property `name`: the target's own values first,
/// then its dependencies'.
pub open spec fn reached(
    cfg: Config,
    own: Seq<ByName<Value>>,
    labels: Seq<Seq<char>>,
    deps: Seq<TargetId>,
    ifaces: Seq<Option<ByName<Value>>>,
    name: Seq<char>,
) -> Seq<ValueM> {
    own_reached(cfg, own, name) + dep_reached(labels, deps, ifaces, name)
}

/// What merging the properties of `rows` raises, in order.
pub open spec fn block_diags(
    cfg: Config,
    own: Seq<ByName<Value>>,
    labels: Seq<Seq<char>>,
    deps: Seq<TargetId>,
    ifaces: Seq<Option<ByName<Value>>>,
    rows: Seq<PropRow>,
) -> Seq<DiagM>
    decreases rows.len(),
{
    if rows.len() == 0 {
        Seq::empty()
    } else {
        let vs = reached(cfg, own, labels, deps, ifaces, rows.last().0);
        block_diags(cfg, own, labels, deps, ifaces, rows.drop_last()) + if vs.len() > 0 {
            merge_diags(rows.last(), vs)
        } else {
            Seq::empty()
        }
    }
}

/// Whether a merged block holds what its properties reach, property by
/// property, for the first `k` properties of the block.
pub open spec fn block_holds(
    props: ByName<Value>,
    cfg: Config,
    own: Seq<ByName<Value>>,
    labels: Seq<Seq<char>>,
    deps: Seq<TargetId>,
    ifaces: Seq<Option<ByName<Value>>>,
    k: int,
) -> bool {
    &&& forall|i: int|
        0 <= i < k ==> {
            let row = #[trigger] block_rows()[i];
            let vs = reached(cfg, own, labels, deps, ifaces, row.0);
            &&& vs.len() == 0 ==> props.lookup(row.0) is None
            &&& vs.len() > 0 ==> props.lookup(row.0) is Some && merged_value(row, vs, props.lookup(row.0)->0)
        }
    &&& forall|name: Seq<char>|
        #[trigger] props.lookup(name) is Some ==> exists|i: int| 0 <= i < k && block_rows()[i].0 == name
}

/// The names of the block properties are all different.
proof fn lemma_block_names_distinct()
    ensures
        forall|i: int, j: int|
            0 <= i < j < block_rows().len() ==> (#[trigger] block_rows()[i]).0 != (#[trigger] block_rows()[j]).0,
{
    reveal_strlit("includes");
    reveal_strlit("defines");
    reveal_strlit("flags");
    reveal_strlit("c_flags");
    reveal_strlit("cxx_flags");
    reveal_strlit("link_flags");
    reveal_strlit("c_std");
    reveal_strlit("cxx_std");
    reveal_strlit("deps");
    reveal_strlit("abi");
    let r = block_rows();
    assert(r[0].0 == "includes"@);
    assert(r[1].0 == "defines"@);
    assert(r[2].0 == "flags"@);
    assert(r[3].0 == "c_flags"@);
    assert(r[4].0 == "cxx_flags"@);
    assert(r[5].0 == "link_flags"@);
    assert(r[6].0 == "c_std"@);
    assert(r[7].0 == "cxx_std"@);
    assert(r[8].0 == "deps"@);
    assert(r[9].0 == "abi"@);
    assert forall|i: int, j: int| 0 <= i < j < r.len() implies (#[trigger] r[i]).0 != (#[trigger] r[j]).0 by {
        assert(0 <= i < 10 && 0 <= j < 10);
        if r[i].0 == r[j].0 {
            assert(r[i].0.len() == r[j].0.len());
            assert(r[i].0[0] == r[j].0[0]);
            assert(r[i].0[1] == r[j].0[1]);
        }
    }
}

/// The values of one property that reach a target.
fn reach(
    def: &PropDef,
    labels: &[String],
    cfg: &Config,
    own: &[ByName<Value>],
    deps: &[TargetId],
    ifaces: &[Option<ByName<Value>>],
) -> (r: Vec<Value>)
    requires
        forall|b: int| 0 <= b < own@.len() ==> (#[trigger] own@[b]).wf(),
        forall|i: int| 0 <= i < ifaces@.len() && ifaces@[i] is Some ==> (#[trigger] ifaces@[i])->0.wf(),
        forall|d: int| 0 <= d < deps@.len() ==> (#[trigger] deps@[d]).0 < labels@.len(),
    ensures
        values_m(r@) == reached(*cfg, own@, strings_view(labels@), deps@, ifaces@, def.name@),
{
    let ghost name = def.name@;
    let ghost lv = strings_view(labels@);
    let mut out: Vec<Value> = Vec::new();
    let mut j: usize = 0;
    while j < own.len()
        invariant
            j <= own@.len(),
            name == def.name@,
            forall|b: int| 0 <= b < own@.len() ==> (#[trigger] own@[b]).wf(),
            values_m(out@) == own_reached(*cfg, own@.take(j as int), name),
        decreases own.len() - j,
    {
        assert(own@.take(j + 1).drop_last() =~= own@.take(j as int));
        assert(own@.take(j + 1).last() == own@[j as int]);
        let ghost before = out@;
        proof {
            lemma_values_m(before);
        }
        let ghost prefix = own@.take(j + 1);
        assert(prefix.last() == own@[j as int]);
        match own[j].get(def.name) {
            Some(v) => match specialize(v, cfg) {
                Some(x) => {
                    out.push(x);
                    proof {
                        lemma_values_m(out@);
                        assert(values_m(out@) =~= values_m(before).push(value_m(x)));
                        assert(own@[j as int].lookup(name) == Some(*v));
                        assert(specialized(*cfg, value_m(*v)) == Some(value_m(x)));
                    }
                },
                None => {
                    assert(own@[j as int].lookup(name) == Some(*v));
                },
            },
            None => {
                assert(own@[j as int].lookup(name) is None);
            },
        }
        assert(values_m(out@) == own_reached(*cfg, prefix, name));
        j += 1;
    }
    assert(own@.take(j as int) =~= own@);
    let ghost mid = values_m(out@);
    let mut k: usize = 0;
    while k < deps.len()
        invariant
            k <= deps@.len(),
            name == def.name@,
            lv == strings_view(labels@),
            forall|i: int| 0 <= i < ifaces@.len() && ifaces@[i] is Some ==> (#[trigger] ifaces@[i])->0.wf(),
            forall|d: int| 0 <= d < deps@.len() ==> (#[trigger] deps@[d]).0 < labels@.len(),
            values_m(out@) == mid + dep_reached(lv, deps@.take(k as int), ifaces@, name),
        decreases deps.len() - k,
    {
        assert(deps@.take(k + 1).drop_last() =~= deps@.take(k as int));
        assert(deps@.take(k + 1).last() == deps@[k as int]);
        let d = deps[k];
        let ghost before = out@;
        if d.0 < ifaces.len() {
            match &ifaces[d.0] {
                Some(m) => match m.get(def.name) {
                    Some(v) => {
                        let t = tag_propagated(v, labels[d.0].as_str(), def.name);
                        out.push(t);
                        proof {
                            lemma_values_m(before);
                            lemma_values_m(out@);
                            assert(values_m(out@) =~= values_m(before).push(value_m(t)));
                            assert(lv[d.0 as int] == labels@[d.0 as int]@);
                        }
                    },
                    None => {},
                },
                None => {},
            }
        }
        proof {
            let r0 = dep_reached(lv, deps@.take(k as int), ifaces@, name);
            let prefix = deps@.take(k + 1);
            assert(prefix.last() == d);
            assert(prefix.drop_last() == deps@.take(k as int));
            if values_m(out@) != values_m(before) {
                assert(values_m(out@) =~= mid + r0.push(tagged(value_m(ifaces@[d.0 as int]->0.lookup(name)->0), lv[d.0 as int], name)));
            } else {
                assert(values_m(out@) =~= mid + r0);
            }
            assert(values_m(out@) =~= mid + dep_reached(lv, prefix, ifaces@, name));
        }
        k += 1;
    }
    assert(deps@.take(k as int) =~= deps@);
    out
}

/// Merges, property by property, what the target declares in `own` and
/// what the interfaces of `deps` supply: the target's own values first.
/// `ifaces` holds the interface of each target computed so far, by number.
pub fn merge_block(
    labels: &[String],
    cfg: &Config,
    own: &[ByName<Value>],
    deps: &[TargetId],
    ifaces: &[Option<ByName<Value>>],
    diags: &mut Vec<Diagnostic>,
) -> (props: ByName<Value>)
    requires
        forall|b: int| 0 <= b < own@.len() ==> (#[trigger] own@[b]).wf(),
        forall|i: int| 0 <= i < ifaces@.len() && ifaces@[i] is Some ==> (#[trigger] ifaces@[i])->0.wf(),
        forall|d: int| 0 <= d < deps@.len() ==> (#[trigger] deps@[d]).0 < labels@.len(),
    ensures
        props.wf(),
        block_holds(props, *cfg, own@, strings_view(labels@), deps@, ifaces@, block_rows().len() as int),
        diags_m(final(diags)@) == diags_m(old(diags)@) + block_diags(
            *cfg,
            own@,
            strings_view(labels@),
            deps@,
            ifaces@,
            block_rows(),
        ),
{
    let ghost lv = strings_view(labels@);
    let defs = block_props();
    let mut props: ByName<Value> = ByName::new();
    proof {
        lemma_block_names_distinct();
        assert(defs@.len() == block_rows().len());
    }
    let mut k: usize = 0;
    while k < defs.len()
        invariant
            k <= defs@.len(),
            defs@.len() == block_rows().len(),
            rows_of(defs@) == block_rows(),
            lv == strings_view(labels@),
            forall|b: int| 0 <= b < own@.len() ==> (#[trigger] own@[b]).wf(),
            forall|i: int| 0 <= i < ifaces@.len() && ifaces@[i] is Some ==> (#[trigger] ifaces@[i])->0.wf(),
            forall|d: int| 0 <= d < deps@.len() ==> (#[trigger] deps@[d]).0 < labels@.len(),
            forall|i: int, j: int|
                0 <= i < j < block_rows().len() ==> (#[trigger] block_rows()[i]).0 != (#[trigger] block_rows()[j]).0,
            props.wf(),
            block_holds(props, *cfg, own@, lv, deps@, ifaces@, k as int),
            diags_m(diags@) == diags_m(old(diags)@) + block_diags(*cfg, own@, lv, deps@, ifaces@, block_rows().take(k as int)),
        decreases defs.len() - k,
    {
        let def = &defs[k];
        assert(row_of(*def) == block_rows()[k as int]);
        assert(block_rows().take(k + 1).drop_last() =~= block_rows().take(k as int));
        assert(block_rows().take(k + 1).last() == block_rows()[k as int]);
        let reached_values = reach(def, labels, cfg, own, deps, ifaces);
        let ghost vs = values_m(reached_values@);
        let ghost before = props;
        if reached_values.len() > 0 {
            let merged = merge_values(def, reached_values.as_slice(), diags);
            props.insert(owned(def.name), merged);
            proof {
                lemma_values_m(reached_values@);
            }
        } else {
            proof {
                lemma_values_m(reached_values@);
            }
        }
        proof {
            let name = def.name@;
            assert(name == block_rows()[k as int].0);
            assert forall|i: int|
                0 <= i < k + 1 implies {
                    let row = #[trigger] block_rows()[i];
                    let vs = reached(*cfg, own@, lv, deps@, ifaces@, row.0);
                    &&& vs.len() == 0 ==> props.lookup(row.0) is None
                    &&& vs.len() > 0 ==> props.lookup(row.0) is Some && merged_value(row, vs, props.lookup(row.0)->0)
                } by {
                if i < k {
                    assert(block_rows()[i].0 != name);
                    assert(props.lookup(block_rows()[i].0) == before.lookup(block_rows()[i].0));
                }
            }
            assert forall|nm: Seq<char>| #[trigger] props.lookup(nm) is Some implies exists|i: int|
                0 <= i < k + 1 && block_rows()[i].0 == nm by {
                if nm != name {
                    assert(before.lookup(nm) is Some);
                } else {
                    assert(block_rows()[k as int].0 == nm);
                }
            }
            assert(diags_m(diags@) =~= diags_m(old(diags)@) + block_diags(
                *cfg,
                own@,
                lv,
                deps@,
                ifaces@,
                block_rows().take(k + 1),
            ));
        }
        k += 1;
    }
    assert(block_rows().take(k as int) =~= block_rows());
    props
}

} // verus!
