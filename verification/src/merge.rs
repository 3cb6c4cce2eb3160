//! Merging the values of one property that reach a target from several
//! places, by the rule the schema declares for it, and the diagnostics
//! the rules raise.

use vstd::prelude::*;
use crate::diag::{diag_m, diags_m, push_diag, DiagM, Diagnostic, Severity};
use crate::schema::{domain_m, merge_text, row_of, Merge, PropDef, PropRow, C_ABI};
use crate::specialize::{first_index, lemma_first_index, lemma_first_index_prefix, lemma_first_index_step};
use crate::strs::{find_name, insert_row, lemma_find_name_absent, lemma_find_name_at, names_of, rows_view, strictly_sorted};
use crate::text::{owned, push_str, str_eq};
use crate::value::{nearest_site_of, origin_text, Data, FileId, Origin, Prov, Site, Type, Value};
use crate::value_eq::{same_data, same_value};
use crate::value_model::{
    data_m, lemma_rows_m, lemma_values_m, origin_m, prov_m, rows_m, steps_m, value_m, values_m, value_text, DataM, OriginM,
    ValueM,
};

verus! {

// --- the model of merging -------------------------------------------------------

/// The nearest site of a provenance chain's model.
pub open spec fn nearest_m(p: Seq<(OriginM, Option<Site>)>) -> Option<Site>
    decreases p.len(),
{
    if p.len() == 0 {
        None
    } else if p[0].1 is Some {
        p[0].1
    } else {
        nearest_m(p.drop_first())
    }
}

/// The nearest site is the same read off the chain or its model.
pub proof fn lemma_nearest_m(p: Seq<(Origin, Option<Site>)>)
    ensures
        nearest_m(steps_m(p)) == nearest_site_of(p),
    decreases p.len(),
{
    if p.len() > 0 {
        lemma_nearest_m(p.drop_first());
        assert(steps_m(p).drop_first() =~= steps_m(p.drop_first()));
    }
}

/// A list's items, lists inside it unwrapped to the end, errors dropped;
/// any other value is one item. Specialising a `match` inside a list gives
/// a list inside a list: unwrapping only one level would leave such a
/// value in the result, passed over downstream.
pub open spec fn flatten_m(v: ValueM) -> Seq<ValueM>
    decreases v, 1nat,
{
    match v.data {
        DataM::List(items) => flatten_list(items),
        DataM::Error => Seq::empty(),
        _ => seq![v],
    }
}

/// The items of several values, flattened, one after another.
pub open spec fn flatten_list(s: Seq<ValueM>) -> Seq<ValueM>
    decreases s, 0nat,
{
    if s.len() == 0 {
        Seq::empty()
    } else {
        flatten_list(s.subrange(0, s.len() - 1)) + flatten_m(s[s.len() - 1])
    }
}

/// The file a site is in.
pub open spec fn file_of(s: Option<Site>) -> Option<FileId> {
    match s {
        Some(x) => Some(x.file),
        None => None,
    }
}

/// Whether two items are the same for `union`. A path is relative to the
/// package root, and the root comes with where it was declared, not with
/// the value: the same `dir("include")` from two packages names two
/// directories, so paths and globs also compare the file they come from.
pub open spec fn same_item_m(a: ValueM, b: ValueM) -> bool {
    &&& a.data == b.data
    &&& (a.data is Path || a.data is Glob) ==> file_of(nearest_m(a.prov)) == file_of(
        nearest_m(b.prov),
    )
}

/// The items with every item that is the same as an earlier one dropped;
/// the one that arrived first stays.
pub open spec fn union_of(s: Seq<ValueM>) -> Seq<ValueM>
    decreases s.len(),
{
    if s.len() == 0 {
        Seq::empty()
    } else {
        let acc = union_of(s.drop_last());
        if exists|j: int| 0 <= j < acc.len() && same_item_m(acc[j], s.last()) {
            acc
        } else {
            acc.push(s.last())
        }
    }
}

/// The provenance of a merged value: a `Merged` step on top of the first
/// value's chain, or `Default` when nothing arrived.
pub open spec fn merged_prov_m(prop: Seq<char>, rule: Seq<char>, vs: Seq<ValueM>) -> Seq<
    (OriginM, Option<Site>),
> {
    if vs.len() == 0 {
        seq![(OriginM::Default, None)]
    } else {
        seq![(OriginM::Merged(prop, rule), nearest_m(vs[0].prov))] + vs[0].prov
    }
}

// --- executable parts --------------------------------------------------------------

/// Appends the items of `v`, flattened, to `out`.
fn flatten_into(v: &Value, out: &mut Vec<Value>)
    ensures
        values_m(final(out)@) == values_m(old(out)@) + flatten_m(value_m(*v)),
    decreases v,
{
    proof {
        lemma_values_m(old(out)@);
    }
    match &v.data {
        Data::List(items) => {
            let ghost start = values_m(out@);
            let ghost m = values_m(items@);
            proof {
                lemma_values_m(items@);
            }
            let mut i: usize = 0;
            while i < items.len()
                invariant
                    i <= items@.len(),
                    v.data == Data::List(*items),
                    m == values_m(items@),
                    m.len() == items@.len(),
                    forall|j: int| 0 <= j < items@.len() ==> #[trigger] m[j] == value_m(items@[j]),
                    values_m(out@) == start + flatten_list(m.take(i as int)),
                decreases items.len() - i,
            {
                proof {
                    assert(decreases_to!(*v => v.data));
                    assert(decreases_to!(v.data => v.data->List_0));
                    vstd::std_specs::vec::axiom_vec_index_decreases(*items, i as int);
                    assert(m.take(i + 1).subrange(0, i as int) =~= m.take(i as int));
                }
                flatten_into(&items[i], out);
                i += 1;
                assert(start + flatten_list(m.take(i as int)) =~= start + flatten_list(
                    m.take(i - 1),
                ) + flatten_m(m[i - 1]));
            }
            assert(m.take(i as int) =~= m);
        },
        Data::Error => {
            assert(values_m(out@) =~= values_m(old(out)@) + flatten_m(value_m(*v)));
        },
        _ => {
            let ghost before = out@;
            out.push(v.copy());
            assert(out@.subrange(0, out@.len() - 1) =~= before);
            assert(values_m(out@) =~= values_m(before) + flatten_m(value_m(*v)));
        },
    }
}

/// The items of all the values, flattened, in order.
fn flatten_all(values: &[Value]) -> (r: Vec<Value>)
    ensures
        values_m(r@) == flatten_list(values_m(values@)),
{
    let ghost m = values_m(values@);
    proof {
        lemma_values_m(values@);
    }
    let mut out: Vec<Value> = Vec::new();
    let mut i: usize = 0;
    assert(values_m(out@) =~= Seq::<ValueM>::empty());
    while i < values.len()
        invariant
            i <= values@.len(),
            m == values_m(values@),
            m.len() == values@.len(),
            forall|j: int| 0 <= j < values@.len() ==> #[trigger] m[j] == value_m(values@[j]),
            values_m(out@) == flatten_list(m.take(i as int)),
        decreases values.len() - i,
    {
        assert(m.take(i + 1).subrange(0, i as int) =~= m.take(i as int));
        flatten_into(&values[i], &mut out);
        i += 1;
    }
    assert(m.take(i as int) =~= m);
    out
}

/// Whether two items are the same for `union`.
fn same_item(a: &Value, b: &Value) -> (r: bool)
    ensures
        r == same_item_m(value_m(*a), value_m(*b)),
{
    if !same_data(&a.data, &b.data) {
        return false;
    }
    let rooted = match &a.data {
        Data::Path(_) => true,
        Data::Glob(_) => true,
        _ => false,
    };
    if rooted {
        proof {
            lemma_nearest_m(a.prov.view());
            lemma_nearest_m(b.prov.view());
        }
        let x = a.prov.nearest_site();
        let y = b.prov.nearest_site();
        return match (x, y) {
            (Some(s), Some(t)) => s.file == t.file,
            (None, None) => true,
            _ => false,
        };
    }
    true
}

/// The items with later duplicates dropped.
fn union_items(items: Vec<Value>) -> (r: Vec<Value>)
    ensures
        values_m(r@) == union_of(values_m(items@)),
{
    let ghost m = values_m(items@);
    proof {
        lemma_values_m(items@);
    }
    let mut out: Vec<Value> = Vec::new();
    assert(values_m(out@) =~= Seq::<ValueM>::empty());
    let mut i: usize = 0;
    while i < items.len()
        invariant
            i <= items@.len(),
            m == values_m(items@),
            m.len() == items@.len(),
            forall|j: int| 0 <= j < items@.len() ==> #[trigger] m[j] == value_m(items@[j]),
            values_m(out@) == union_of(m.take(i as int)),
        decreases items.len() - i,
    {
        proof {
            lemma_values_m(out@);
            assert(m.take(i + 1).drop_last() =~= m.take(i as int));
        }
        let mut k: usize = 0;
        let mut found = false;
        while k < out.len()
            invariant
                k <= out@.len(),
                i < items@.len(),
                values_m(out@).len() == out@.len(),
                forall|j: int| 0 <= j < out@.len() ==> #[trigger] values_m(out@)[j] == value_m(out@[j]),
                found ==> exists|j: int| 0 <= j < out@.len() && same_item_m(values_m(out@)[j], m[i as int]),
                !found ==> forall|j: int| 0 <= j < k ==> !same_item_m(#[trigger] values_m(out@)[j], m[i as int]),
                m[i as int] == value_m(items@[i as int]),
            decreases out.len() - k,
        {
            if same_item(&out[k], &items[i]) {
                found = true;
                assert(same_item_m(values_m(out@)[k as int], m[i as int]));
            }
            k += 1;
        }
        if !found {
            let ghost before = out@;
            out.push(items[i].copy());
            assert(out@.subrange(0, out@.len() - 1) =~= before);
        }
        i += 1;
    }
    assert(m.take(i as int) =~= m);
    out
}

/// The provenance of a merged value.
fn merged_prov(prop: &str, rule: &'static str, values: &[Value]) -> (r: Prov)
    ensures
        prov_m(r) == merged_prov_m(prop@, rule@, values_m(values@)),
{
    proof {
        lemma_values_m(values@);
    }
    if values.len() == 0 {
        let p = Prov::new(Origin::Default, None);
        assert(prov_m(p) =~= seq![(OriginM::Default, None::<Site>)]);
        p
    } else {
        let first = &values[0];
        proof {
            lemma_nearest_m(first.prov.view());
        }
        let site = first.prov.nearest_site();
        let p = first.prov.with_step(Origin::Merged { prop: owned(prop), rule }, site);
        assert(prov_m(p) =~= seq![(OriginM::Merged(prop@, rule@), site)] + prov_m(first.prov));
        p
    }
}


// --- diagnostics ------------------------------------------------------------------

/// The text of an origin's model, as `origin_text` writes the origin.
pub open spec fn origin_text_m(o: OriginM) -> Seq<char> {
    match o {
        OriginM::Literal => "literal"@,
        OriginM::Call(f) => f + "(...)"@,
        OriginM::MatchArm(p) => "match arm `"@ + p + "`"@,
        OriginM::WhenTrue(p) => "when "@ + p,
        OriginM::Propagated(from, prop) => prop + " of "@ + from,
        OriginM::Merged(prop, rule) => "merge of "@ + prop + " ("@ + rule + ")"@,
        OriginM::Config => "configuration"@,
        OriginM::Default => "default"@,
    }
}

/// One note per step of a chain after the first, so that the path a value
/// took can be read off the diagnostic alone.
pub open spec fn prov_notes_m(p: Seq<(OriginM, Option<Site>)>) -> Seq<Seq<char>> {
    if p.len() <= 1 {
        Seq::empty()
    } else {
        p.drop_first().map_values(|s: (OriginM, Option<Site>)| "  \u{2190} "@ + origin_text_m(s.0))
    }
}

/// A label at a value's nearest site, when it has one.
pub open spec fn label_at(v: ValueM, text: Seq<char>, primary: bool) -> Seq<(Site, Seq<char>, bool)> {
    match nearest_m(v.prov) {
        Some(s) => seq![(s, text, primary)],
        None => Seq::empty(),
    }
}

/// The diagnostic for differing values reaching one key under
/// `error_on_conflict`.
pub open spec fn conflict_diag_m(prop: Seq<char>, key: Seq<char>, prev: ValueM, cur: ValueM) -> DiagM {
    DiagM {
        code: "merge-conflict"@,
        severity: Severity::Error,
        message: "conflicting values reached `"@ + key + "` of `"@ + prop + "`"@,
        labels: label_at(cur, "this one is "@ + value_text(cur), true) + label_at(
            prev,
            "the value that arrived first is "@ + value_text(prev),
            false,
        ),
        notes: seq!["the merge rule of `"@ + prop + "` is error_on_conflict"@] + prov_notes_m(
            prev.prov,
        ) + prov_notes_m(cur.prov),
    }
}

/// The diagnostic for a value that differs from the first under
/// `must_equal`.
pub open spec fn mismatch_diag_m(prop: Seq<char>, first: ValueM, other: ValueM) -> DiagM {
    DiagM {
        code: "abi-mismatch"@,
        severity: Severity::Error,
        message: "`"@ + prop + "` does not match: "@ + value_text(first) + " vs "@ + value_text(other),
        labels: label_at(other, "this one is "@ + value_text(other), true) + label_at(
            first,
            "the value that arrived first is "@ + value_text(first),
            false,
        ),
        notes: seq![
            "the merge rule of `"@ + prop + "` is must_equal. a mismatch fails instead of propagating"@,
        ],
    }
}

/// Adds a label at a value's nearest site, when it has one.
fn label_value(d: &mut Diagnostic, v: &Value, lead: &str, primary: bool)
    ensures
        diag_m(*final(d)) == (DiagM {
            labels: diag_m(*old(d)).labels + label_at(
                value_m(*v),
                lead@ + value_text(value_m(*v)),
                primary,
            ),
            ..diag_m(*old(d))
        }),
{
    proof {
        lemma_nearest_m(v.prov.view());
    }
    let ghost start = diag_m(*d);
    match v.prov.nearest_site() {
        Some(s) => {
            let mut text = owned(lead);
            push_str(&mut text, v.display().as_str());
            assert(label_at(value_m(*v), lead@ + value_text(value_m(*v)), primary) == seq![
                (s, text@, primary),
            ]);
            assert(start.labels.push((s, text@, primary)) =~= start.labels + seq![
                (s, text@, primary),
            ]);
            d.label(s, text, primary);
        },
        None => {
            assert(diag_m(*d).labels + Seq::<(Site, Seq<char>, bool)>::empty() =~= diag_m(*d).labels);
        },
    }
}

/// Adds the provenance notes of a value.
fn prov_notes(d: &mut Diagnostic, v: &Value)
    ensures
        diag_m(*final(d)) == (DiagM {
            notes: diag_m(*old(d)).notes + prov_notes_m(value_m(*v).prov),
            ..diag_m(*old(d))
        }),
{
    let ghost p = prov_m(v.prov);
    let ghost start = diag_m(*d);
    let n = v.prov.len();
    if n <= 1 {
        assert(start.notes + prov_notes_m(p) =~= start.notes);
        return;
    }
    let mut i: usize = 1;
    while i < n
        invariant
            n == v.prov.view().len(),
            p == prov_m(v.prov),
            1 <= i <= n,
            diag_m(*d) == (DiagM {
                notes: start.notes + prov_notes_m(p).take(i - 1),
                ..start
            }),
        decreases n - i,
    {
        let step = v.prov.step(i);
        let mut text = owned("  \u{2190} ");
        push_str(&mut text, step.0.display().as_str());
        proof {
            assert(origin_text(step.0) == origin_text_m(origin_m(step.0)));
            assert(prov_notes_m(p)[i - 1] == "  \u{2190} "@ + origin_text_m(p[i as int].0));
            assert(start.notes + prov_notes_m(p).take(i as int) =~= (start.notes + prov_notes_m(p).take(
                i - 1,
            )).push(text@));
        }
        d.note(text);
        i += 1;
    }
    assert(prov_notes_m(p).take(n - 1) =~= prov_notes_m(p));
}

/// The diagnostic for differing values reaching one key.
fn conflict_diagnostic(prop: &str, key: &str, prev: &Value, cur: &Value) -> (d: Diagnostic)
    ensures
        diag_m(d) == conflict_diag_m(prop@, key@, value_m(*prev), value_m(*cur)),
{
    let mut message = owned("conflicting values reached `");
    push_str(&mut message, key);
    push_str(&mut message, "` of `");
    push_str(&mut message, prop);
    push_str(&mut message, "`");
    let mut d = Diagnostic::error("merge-conflict", message);
    let mut note = owned("the merge rule of `");
    push_str(&mut note, prop);
    push_str(&mut note, "` is error_on_conflict");
    d.note(note);
    label_value(&mut d, cur, "this one is ", true);
    label_value(&mut d, prev, "the value that arrived first is ", false);
    prov_notes(&mut d, prev);
    prov_notes(&mut d, cur);
    proof {
        reveal_strlit("merge-conflict");
    }
    assert(diag_m(d).labels =~= conflict_diag_m(prop@, key@, value_m(*prev), value_m(*cur)).labels);
    assert(diag_m(d).notes =~= conflict_diag_m(prop@, key@, value_m(*prev), value_m(*cur)).notes);
    d
}

/// The diagnostic for a value that differs from the first.
fn must_equal_diagnostic(prop: &str, first: &Value, other: &Value) -> (d: Diagnostic)
    ensures
        diag_m(d) == mismatch_diag_m(prop@, value_m(*first), value_m(*other)),
{
    let mut message = owned("`");
    push_str(&mut message, prop);
    push_str(&mut message, "` does not match: ");
    push_str(&mut message, first.display().as_str());
    push_str(&mut message, " vs ");
    push_str(&mut message, other.display().as_str());
    let mut d = Diagnostic::error("abi-mismatch", message);
    let mut note = owned("the merge rule of `");
    push_str(&mut note, prop);
    push_str(&mut note, "` is must_equal. a mismatch fails instead of propagating");
    d.note(note);
    label_value(&mut d, other, "this one is ", true);
    label_value(&mut d, first, "the value that arrived first is ", false);
    assert(diag_m(d).labels =~= mismatch_diag_m(prop@, value_m(*first), value_m(*other)).labels);
    assert(diag_m(d).notes =~= mismatch_diag_m(prop@, value_m(*first), value_m(*other)).notes);
    d
}


// --- must_equal, replace, max -----------------------------------------------------

/// The value that stands for nothing mergeable.
pub open spec fn error_value(ty: Type) -> ValueM {
    ValueM { ty, data: DataM::Error, prov: Seq::empty() }
}

/// An ABI label that names the C boundary, which matches any label. Only
/// the ABI label's vocabulary has it: under `must_equal` on another
/// property, `"c"` is a value like any other.
pub open spec fn exempt_m(ty: Type, v: ValueM) -> bool {
    ty == Type::AbiLabel && v.data == DataM::Str("c"@)
}

/// The values that `must_equal` holds to agreeing, in order.
pub open spec fn eligible(ty: Type, s: Seq<ValueM>) -> Seq<ValueM>
    decreases s.len(),
{
    if s.len() == 0 {
        Seq::empty()
    } else if !(s.last().data is Error) && !exempt_m(ty, s.last()) {
        eligible(ty, s.drop_last()).push(s.last())
    } else {
        eligible(ty, s.drop_last())
    }
}

/// Whether a value is not an error.
pub open spec fn not_error() -> spec_fn(ValueM) -> bool {
    |v: ValueM| !(v.data is Error)
}

/// What `must_equal` takes: the first value it holds to agreeing; when
/// there is none, the first that is not an error, a `c` label adding no
/// constraint but not being dropped either.
pub open spec fn must_equal_value(ty: Type, vs: Seq<ValueM>) -> ValueM {
    let c = eligible(ty, vs);
    if c.len() > 0 {
        c[0]
    } else {
        match first_index(vs, not_error()) {
            Some(i) => vs[i],
            None => error_value(ty),
        }
    }
}

/// One diagnostic for each value that differs from `first`, in order.
pub open spec fn mismatches(prop: Seq<char>, first: ValueM, rest: Seq<ValueM>) -> Seq<DiagM>
    decreases rest.len(),
{
    if rest.len() == 0 {
        Seq::empty()
    } else {
        let m = mismatches(prop, first, rest.drop_last());
        if rest.last().data != first.data {
            m.push(mismatch_diag_m(prop, first, rest.last()))
        } else {
            m
        }
    }
}

/// The diagnostics of `must_equal`.
pub open spec fn must_equal_diags(prop: Seq<char>, ty: Type, vs: Seq<ValueM>) -> Seq<DiagM> {
    let c = eligible(ty, vs);
    if c.len() == 0 {
        Seq::empty()
    } else {
        mismatches(prop, c[0], c.drop_first())
    }
}

/// Whether a word is `s`.
pub open spec fn equals(s: Seq<char>) -> spec_fn(Seq<char>) -> bool {
    |c: Seq<char>| c == s
}

/// The position of a value in a closed vocabulary; -1 outside it, which no
/// value below ranks.
pub open spec fn rank_m(domain: Option<Seq<Seq<char>>>, v: ValueM) -> int {
    match v.data {
        DataM::Str(s) => match domain {
            Some(d) => match first_index(d, equals(s)) {
                Some(i) => i,
                None => -1,
            },
            None => -1,
        },
        _ => -1,
    }
}

/// The value `max` takes: the highest ranked that is not an error, the
/// last of equals.
pub open spec fn max_of(domain: Option<Seq<Seq<char>>>, s: Seq<ValueM>) -> Option<ValueM>
    decreases s.len(),
{
    if s.len() == 0 {
        None
    } else {
        let b = max_of(domain, s.drop_last());
        let v = s.last();
        if v.data is Error {
            b
        } else {
            match b {
                None => Some(v),
                Some(x) => if rank_m(domain, v) >= rank_m(domain, x) {
                    Some(v)
                } else {
                    b
                },
            }
        }
    }
}

// --- error_on_conflict ---------------------------------------------------------

/// Folds map entries into the entries gathered so far: an entry for a key
/// already held with other contents is a conflict and is not taken; any
/// other entry is held, in place of an equal one.
pub open spec fn conflict_entries(
    st: (Map<Seq<char>, ValueM>, Seq<DiagM>),
    prop: Seq<char>,
    rows: Seq<(Seq<char>, ValueM)>,
) -> (Map<Seq<char>, ValueM>, Seq<DiagM>)
    decreases rows.len(),
{
    if rows.len() == 0 {
        st
    } else {
        let (m, ds) = conflict_entries(st, prop, rows.drop_last());
        let (k, item) = rows.last();
        if m.contains_key(k) && m[k].data != item.data {
            (m, ds.push(conflict_diag_m(prop, k, m[k], item)))
        } else {
            (m.insert(k, item), ds)
        }
    }
}

/// The entries and conflicts of `error_on_conflict` over the arriving
/// values; values that are not maps add nothing.
pub open spec fn conflict_fold(prop: Seq<char>, vs: Seq<ValueM>) -> (Map<Seq<char>, ValueM>, Seq<DiagM>)
    decreases vs.len(),
{
    if vs.len() == 0 {
        (Map::empty(), Seq::empty())
    } else {
        let st = conflict_fold(prop, vs.drop_last());
        match vs.last().data {
            DataM::MapOf(rows) => conflict_entries(st, prop, rows),
            _ => st,
        }
    }
}

/// Rows that hold, key by key, what a map holds.
pub open spec fn rows_hold(rows: Seq<(String, Value)>, m: Map<Seq<char>, ValueM>) -> bool {
    forall|k: Seq<char>|
        #![trigger find_name(rows_view(rows), k)]
        #![trigger m.dom().contains(k)]
        (find_name(rows_view(rows), k) is Some <==> m.dom().contains(k)) && (find_name(
            rows_view(rows),
            k,
        ) matches Some(v) ==> value_m(v) == m[k])
}

/// The position of the row for `k`.
fn find_row(rows: &Vec<(String, Value)>, k: &str) -> (r: Option<usize>)
    requires
        strictly_sorted(names_of(rows_view(rows@))),
    ensures
        match r {
            Some(i) => i < rows@.len() && rows@[i as int].0@ == k@ && find_name(rows_view(rows@), k@)
                == Some(rows@[i as int].1),
            None => find_name(rows_view(rows@), k@) is None,
        },
{
    let mut i: usize = 0;
    while i < rows.len()
        invariant
            i <= rows@.len(),
            strictly_sorted(names_of(rows_view(rows@))),
            forall|j: int| 0 <= j < i ==> (#[trigger] rows@[j]).0@ != k@,
        decreases rows.len() - i,
    {
        if str_eq(rows[i].0.as_str(), k) {
            proof {
                lemma_find_name_at(rows_view(rows@), i as int);
            }
            return Some(i);
        }
        i += 1;
    }
    proof {
        assert forall|j: int| 0 <= j < rows_view(rows@).len() implies rows_view(rows@)[j].0 != k@ by {
            assert(rows_view(rows@)[j].0 == rows@[j].0@);
        }
        lemma_find_name_absent(rows_view(rows@), k@);
    }
    None
}


/// A value standing for nothing mergeable.
fn error_of(ty: &Type) -> (r: Value)
    ensures
        value_m(r) == error_value(*ty),
{
    let r = Value { ty: ty.copy(), data: Data::Error, prov: Prov::none() };
    assert(prov_m(r.prov) =~= Seq::<(OriginM, Option<Site>)>::empty());
    r
}

/// Whether a value is an ABI label naming the C boundary.
fn exempt(ty: &Type, v: &Value) -> (r: bool)
    ensures
        r == exempt_m(*ty, value_m(*v)),
{
    proof {
        reveal_strlit("c");
    }
    ty.same(&Type::AbiLabel) && match v.as_str() {
        Some(s) => str_eq(s, C_ABI),
        None => false,
    }
}

/// `must_equal`: the first value held to agreeing, and a diagnostic for
/// each later one that differs from it.
fn must_equal(prop: &str, ty: &Type, values: &[Value], diags: &mut Vec<Diagnostic>) -> (r: Value)
    ensures
        value_m(r) == must_equal_value(*ty, values_m(values@)),
        diags_m(final(diags)@) == diags_m(old(diags)@) + must_equal_diags(prop@, *ty, values_m(values@)),
{
    let ghost m = values_m(values@);
    let ghost start = diags_m(diags@);
    proof {
        lemma_values_m(values@);
    }
    let mut first: Option<usize> = None;
    let mut i: usize = 0;
    while i < values.len()
        invariant
            i <= values@.len(),
            m == values_m(values@),
            m.len() == values@.len(),
            forall|j: int| 0 <= j < values@.len() ==> #[trigger] m[j] == value_m(values@[j]),
            match first {
                None => eligible(*ty, m.take(i as int)).len() == 0 && diags_m(diags@) == start,
                Some(f) => f < i && eligible(*ty, m.take(i as int)).len() > 0 && eligible(
                    *ty,
                    m.take(i as int),
                )[0] == m[f as int] && diags_m(diags@) == start + mismatches(
                    prop@,
                    m[f as int],
                    eligible(*ty, m.take(i as int)).drop_first(),
                ),
            },
        decreases values.len() - i,
    {
        let ghost before = eligible(*ty, m.take(i as int));
        assert(m.take(i + 1).drop_last() =~= m.take(i as int));
        let v = &values[i];
        if !v.is_error() && !exempt(ty, v) {
            assert(eligible(*ty, m.take(i + 1)) == before.push(m[i as int]));
            match first {
                None => {
                    first = Some(i);
                    assert(before.push(m[i as int]).drop_first() =~= Seq::<ValueM>::empty());
                },
                Some(f) => {
                    assert(before.push(m[i as int]).drop_first() =~= before.drop_first().push(
                        m[i as int],
                    ));
                    assert(before.push(m[i as int]).drop_first().drop_last() =~= before.drop_first());
                    if !same_data(&v.data, &values[f].data) {
                        let d = must_equal_diagnostic(prop, &values[f], v);
                        push_diag(diags, d);
                    }
                },
            }
        } else {
            assert(eligible(*ty, m.take(i + 1)) == before);
        }
        i += 1;
    }
    assert(m.take(i as int) =~= m);
    match first {
        Some(f) => values[f].copy(),
        None => {
            // Every value is `c` or there are none: `c` adds no constraint
            // but is not dropped, so what is left is taken as it stands.
            let mut k: usize = 0;
            while k < values.len()
                invariant
                    k <= values@.len(),
                    m == values_m(values@),
                    m.len() == values@.len(),
                    forall|j: int| 0 <= j < values@.len() ==> #[trigger] m[j] == value_m(values@[j]),
                    first_index(m.take(k as int), not_error()) is None,
                    eligible(*ty, m).len() == 0,
                    diags_m(diags@) == start,
                    start == diags_m(old(diags)@),
                decreases values.len() - k,
            {
                proof {
                    lemma_first_index_step(m, not_error(), k as int);
                }
                if !values[k].is_error() {
                    proof {
                        lemma_first_index_prefix(m, not_error(), k + 1);
                    }
                    return values[k].copy();
                }
                k += 1;
            }
            assert(m.take(k as int) =~= m);
            error_of(ty)
        },
    }
}

/// `replace`: the last value, or an error value when none arrived.
fn replace_last(ty: &Type, values: &[Value]) -> (r: Value)
    ensures
        value_m(r) == (if values@.len() == 0 {
            error_value(*ty)
        } else {
            value_m(values@.last())
        }),
{
    if values.len() == 0 {
        error_of(ty)
    } else {
        values[values.len() - 1].copy()
    }
}

/// The position of `s` in a vocabulary, or -1.
fn rank(domain: &Option<Vec<&'static str>>, v: &Value) -> (r: i128)
    ensures
        r == rank_m(domain_m(*domain), value_m(*v)),
{
    let s = match v.as_str() {
        Some(s) => s,
        None => {
            return -1;
        },
    };
    let d = match domain {
        Some(d) => d,
        None => {
            return -1;
        },
    };
    let ghost dv = d@.map_values(|x: &'static str| x@);
    let ghost p = equals(s@);
    proof {
        assert(domain_m(*domain) == Some(dv));
        assert(value_m(*v).data == DataM::Str(s@));
    }
    let mut i: usize = 0;
    while i < d.len()
        invariant
            i <= d@.len(),
            dv == d@.map_values(|x: &'static str| x@),
            p == equals(s@),
            domain_m(*domain) == Some(dv),
            value_m(*v).data == DataM::Str(s@),
            first_index(dv.take(i as int), p) is None,
        decreases d.len() - i,
    {
        proof {
            lemma_first_index_step(dv, p, i as int);
        }
        if str_eq(d[i], s) {
            proof {
                assert(dv[i as int] == d@[i as int]@);
                assert(p(dv[i as int]));
                lemma_first_index_prefix(dv, p, i + 1);
            }
            return i as i128;
        }
        i += 1;
    }
    assert(dv.take(i as int) =~= dv);
    -1
}

/// `max`: the highest value in the vocabulary's order, the last of equals.
fn max_value(ty: &Type, domain: &Option<Vec<&'static str>>, values: &[Value]) -> (r: Value)
    ensures
        value_m(r) == match max_of(domain_m(*domain), values_m(values@)) {
            Some(v) => v,
            None => error_value(*ty),
        },
{
    let ghost dom = domain_m(*domain);
    let ghost m = values_m(values@);
    proof {
        lemma_values_m(values@);
    }
    let mut best: Option<usize> = None;
    let mut best_rank: i128 = -1;
    let mut i: usize = 0;
    while i < values.len()
        invariant
            i <= values@.len(),
            m == values_m(values@),
            m.len() == values@.len(),
            forall|j: int| 0 <= j < values@.len() ==> #[trigger] m[j] == value_m(values@[j]),
            dom == domain_m(*domain),
            match best {
                None => max_of(dom, m.take(i as int)) is None,
                Some(b) => b < i && max_of(dom, m.take(i as int)) == Some(m[b as int]) && best_rank
                    == rank_m(dom, m[b as int]),
            },
        decreases values.len() - i,
    {
        assert(m.take(i + 1).drop_last() =~= m.take(i as int));
        let v = &values[i];
        if !v.is_error() {
            let r = rank(domain, v);
            match best {
                None => {
                    best = Some(i);
                    best_rank = r;
                },
                Some(_) => {
                    if r >= best_rank {
                        best = Some(i);
                        best_rank = r;
                    }
                },
            }
        }
        i += 1;
    }
    assert(m.take(i as int) =~= m);
    match best {
        Some(b) => values[b].copy(),
        None => error_of(ty),
    }
}

/// `error_on_conflict`: the entries of the maps that arrive, a conflicting
/// entry raising a diagnostic instead of being taken.
fn merge_maps(prop: &str, values: &[Value], diags: &mut Vec<Diagnostic>) -> (r: Vec<(String, Value)>)
    ensures
        strictly_sorted(names_of(rows_view(r@))),
        rows_hold(r@, conflict_fold(prop@, values_m(values@)).0),
        diags_m(final(diags)@) == diags_m(old(diags)@) + conflict_fold(prop@, values_m(values@)).1,
{
    let ghost m = values_m(values@);
    let ghost start = diags_m(diags@);
    proof {
        lemma_values_m(values@);
    }
    let mut out: Vec<(String, Value)> = Vec::new();
    proof {
        assert(names_of(rows_view(out@)) =~= Seq::<Seq<char>>::empty());
        assert forall|k: Seq<char>| find_name(rows_view(out@), k) is None by {}
    }
    let mut i: usize = 0;
    while i < values.len()
        invariant
            i <= values@.len(),
            m == values_m(values@),
            m.len() == values@.len(),
            forall|j: int| 0 <= j < values@.len() ==> #[trigger] m[j] == value_m(values@[j]),
            strictly_sorted(names_of(rows_view(out@))),
            rows_hold(out@, conflict_fold(prop@, m.take(i as int)).0),
            diags_m(diags@) == start + conflict_fold(prop@, m.take(i as int)).1,
        decreases values.len() - i,
    {
        assert(m.take(i + 1).drop_last() =~= m.take(i as int));
        let ghost st0 = conflict_fold(prop@, m.take(i as int));
        match &values[i].data {
            Data::MapOf(rows) => {
                let ghost rm = rows_m(rows@);
                proof {
                    lemma_rows_m(rows@);
                    assert(m[i as int].data == DataM::MapOf(rm));
                }
                let mut j: usize = 0;
                while j < rows.len()
                    invariant
                        j <= rows@.len(),
                        rm == rows_m(rows@),
                        rm.len() == rows@.len(),
                        forall|x: int|
                            0 <= x < rows@.len() ==> #[trigger] rm[x] == (rows@[x].0@, value_m(
                                rows@[x].1,
                            )),
                        strictly_sorted(names_of(rows_view(out@))),
                        rows_hold(out@, conflict_entries(st0, prop@, rm.take(j as int)).0),
                        diags_m(diags@) == start + conflict_entries(st0, prop@, rm.take(j as int)).1,
                    decreases rows.len() - j,
                {
                    assert(rm.take(j + 1).drop_last() =~= rm.take(j as int));
                    let ghost cur = conflict_entries(st0, prop@, rm.take(j as int));
                    let key = rows[j].0.as_str();
                    let item = &rows[j].1;
                    let held = find_row(&out, key);
                    let mut conflict = false;
                    match held {
                        Some(h) => {
                            assert(cur.0.dom().contains(key@));
                            if !same_data(&out[h].1.data, &item.data) {
                                let d = conflict_diagnostic(prop, key, &out[h].1, item);
                                push_diag(diags, d);
                                conflict = true;
                            }
                        },
                        None => {},
                    }
                    if !conflict {
                        let ghost before = out@;
                        let copied = item.copy();
                        insert_row(&mut out, crate::text::copy_string(&rows[j].0), copied);
                        proof {
                            let nm = cur.0.insert(key@, value_m(*item));
                            assert forall|k: Seq<char>| #![auto]
                                (find_name(rows_view(out@), k) is Some <==> nm.dom().contains(k))
                                    && (find_name(rows_view(out@), k) matches Some(v) ==> value_m(v)
                                    == nm[k]) by {
                                if k != key@ {
                                    assert(find_name(rows_view(out@), k) == find_name(
                                        rows_view(before),
                                        k,
                                    ));
                                }
                            }
                        }
                    }
                    j += 1;
                }
                assert(rm.take(j as int) =~= rm);
            },
            _ => {},
        }
        i += 1;
    }
    assert(m.take(i as int) =~= m);
    out
}

/// What merging gives for a property declared as `row`: the value by its
/// rule. For `error_on_conflict` the entries are pinned down by name, in
/// increasing order.
pub open spec fn merged_value(row: PropRow, vs: Seq<ValueM>, r: Value) -> bool {
    let prop = row.0;
    match row.2 {
        Merge::Union => value_m(r) == (ValueM {
            ty: row.1,
            data: DataM::List(union_of(flatten_list(vs))),
            prov: merged_prov_m(prop, "union"@, vs),
        }),
        Merge::Append => value_m(r) == (ValueM {
            ty: row.1,
            data: DataM::List(flatten_list(vs)),
            prov: merged_prov_m(prop, "append"@, vs),
        }),
        Merge::ErrorOnConflict => r.ty == row.1 && prov_m(r.prov) == merged_prov_m(prop, "error_on_conflict"@, vs)
            && (r.data matches Data::MapOf(rows) && strictly_sorted(names_of(rows_view(rows@))) && rows_hold(
            rows@,
            conflict_fold(prop, vs).0,
        )),
        Merge::MustEqual => value_m(r) == must_equal_value(row.1, vs),
        Merge::Replace => value_m(r) == (if vs.len() == 0 {
            error_value(row.1)
        } else {
            vs.last()
        }),
        Merge::Max => value_m(r) == (match max_of(row.4, vs) {
            Some(v) => v,
            None => error_value(row.1),
        }),
    }
}

/// What merging raises for a property declared as `row`.
pub open spec fn merge_diags(row: PropRow, vs: Seq<ValueM>) -> Seq<DiagM> {
    match row.2 {
        Merge::ErrorOnConflict => conflict_fold(row.0, vs).1,
        Merge::MustEqual => must_equal_diags(row.0, row.1, vs),
        _ => Seq::empty(),
    }
}

/// Merges the values of one property that reach a target, by the rule
/// the schema declares for it, adding to `diags` what the rule raises.
pub fn merge_values(def: &PropDef, values: &[Value], diags: &mut Vec<Diagnostic>) -> (r: Value)
    ensures
        merged_value(row_of(*def), values_m(values@), r),
        diags_m(final(diags)@) == diags_m(old(diags)@) + merge_diags(row_of(*def), values_m(values@)),
{
    proof {
        lemma_values_m(values@);
    }
    match def.merge {
        Merge::Union => {
            let items = flatten_all(values);
            let out = union_items(items);
            let prov = merged_prov(def.name, "union", values);
            proof {
                reveal_strlit("union");
            }
            Value { ty: def.ty.copy(), data: Data::List(out), prov }
        },
        Merge::Append => {
            let out = flatten_all(values);
            let prov = merged_prov(def.name, "append", values);
            proof {
                reveal_strlit("append");
            }
            Value { ty: def.ty.copy(), data: Data::List(out), prov }
        },
        Merge::ErrorOnConflict => {
            let rows = merge_maps(def.name, values, diags);
            let prov = merged_prov(def.name, "error_on_conflict", values);
            proof {
                reveal_strlit("error_on_conflict");
            }
            Value { ty: def.ty.copy(), data: Data::MapOf(rows), prov }
        },
        Merge::MustEqual => must_equal(def.name, &def.ty, values, diags),
        Merge::Replace => {
            proof {
                if values@.len() > 0 {
                    assert(values_m(values@).last() == value_m(values@.last()));
                }
            }
            replace_last(&def.ty, values)
        },
        Merge::Max => max_value(&def.ty, &def.domain, values),
    }
}

proof fn lemma_max_of(domain: Option<Seq<Seq<char>>>, s: Seq<ValueM>)
    ensures
        match max_of(domain, s) {
            None => forall|j: int| 0 <= j < s.len() ==> (#[trigger] s[j]).data is Error,
            Some(m) => {
                &&& exists|i: int|
                    0 <= i < s.len() && !(s[i].data is Error) && s[i] == m && (forall|j: int|
                        i < j < s.len() && !((#[trigger] s[j]).data is Error) ==> rank_m(domain, s[j])
                            < rank_m(domain, m))
                &&& forall|j: int| 0 <= j < s.len() && !((#[trigger] s[j]).data is Error) ==> rank_m(domain, s[j])
                    <= rank_m(domain, m)
            },
        },
    decreases s.len(),
{
    if s.len() > 0 {
        let d = s.drop_last();
        lemma_max_of(domain, d);
        assert forall|j: int| 0 <= j < d.len() implies d[j] == s[j] by {}
        let last = s.len() - 1;
        match max_of(domain, d) {
            Some(m) => {
                let i = choose|i: int|
                    0 <= i < d.len() && !(d[i].data is Error) && d[i] == m && (forall|j: int|
                        i < j < d.len() && !((#[trigger] d[j]).data is Error) ==> rank_m(domain, d[j])
                            < rank_m(domain, m));
                assert(s[i] == m);
                if !(s[last].data is Error) && rank_m(domain, s[last]) >= rank_m(domain, m) {
                    assert(max_of(domain, s) == Some(s[last]));
                    assert(0 <= last < s.len() && !(s[last].data is Error) && s[last] == s[last] && (forall|j: int|
                        last < j < s.len() && !((#[trigger] s[j]).data is Error) ==> rank_m(domain, s[j])
                            < rank_m(domain, s[last])));
                } else {
                    assert(max_of(domain, s) == Some(m));
                    assert forall|j: int| i < j < s.len() && !((#[trigger] s[j]).data is Error) implies rank_m(
                        domain,
                        s[j],
                    ) < rank_m(domain, m) by {
                        if j < last {
                            assert(d[j] == s[j]);
                        }
                    }
                }
            },
            None => {},
        }
    }
}

/// `max` takes the highest ranked of the values that arrive: the merged
/// value is one of those that are not errors, and none of them is ranked
/// above it in the property's vocabulary; of values ranked alike, the last
/// to arrive is taken. With none but errors, it is an error.
pub proof fn law_max_takes_the_highest(row: PropRow, vs: Seq<ValueM>, r: Value)
    requires
        row.2 == Merge::Max,
        merged_value(row, vs, r),
    ensures
        (exists|i: int| 0 <= i < vs.len() && !(vs[i].data is Error)) ==> {
            &&& exists|i: int| 0 <= i < vs.len() && !(vs[i].data is Error) && value_m(r) == vs[i]
            &&& forall|j: int| 0 <= j < vs.len() && !((#[trigger] vs[j]).data is Error) ==> rank_m(row.4, vs[j])
                <= rank_m(row.4, value_m(r))
            &&& exists|i: int|
                0 <= i < vs.len() && !(vs[i].data is Error) && value_m(r) == vs[i] && (forall|j: int|
                    i < j < vs.len() && !((#[trigger] vs[j]).data is Error) ==> rank_m(row.4, vs[j])
                        < rank_m(row.4, value_m(r)))
        },
        (forall|j: int| 0 <= j < vs.len() ==> (#[trigger] vs[j]).data is Error) ==> value_m(r).data is Error,
{
    lemma_max_of(row.4, vs);
    if exists|i: int| 0 <= i < vs.len() && !(vs[i].data is Error) {
        let i = choose|i: int| 0 <= i < vs.len() && !(vs[i].data is Error);
        assert(max_of(row.4, vs) is Some);
    }
}

/// A string's rank is its position in the vocabulary; what is not in the
/// vocabulary, or is no string, ranks below all of it.
pub proof fn law_rank_is_position(d: Seq<Seq<char>>, v: ValueM, i: int)
    requires
        d.no_duplicates(),
        0 <= i < d.len(),
    ensures
        v.data == DataM::Str(d[i]) ==> rank_m(Some(d), v) == i,
        (forall|j: int| 0 <= j < d.len() ==> v.data != DataM::Str(d[j])) ==> rank_m(Some(d), v) == -1,
{
    if let DataM::Str(s) = v.data {
        lemma_first_index(d, equals(s));
        if s == d[i] {
            let k = first_index(d, equals(s))->0;
            assert(d[k] == s);
        } else if first_index(d, equals(s)) is Some {
            let k = first_index(d, equals(s))->0;
            assert(v.data == DataM::Str(d[k]));
        }
    }
}

} // verus!
