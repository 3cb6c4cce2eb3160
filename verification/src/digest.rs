//! Digests of values that leave out where the values were written.
//!
//! Early cutoff keeps a dependent query when what it read digests the same
//! as before. A digest of the whole value would change with every comment
//! added above it, since all spans move; these digests fold the type and
//! the contents only. The file that declared a value is part of its digest:
//! a path is relative to its declaring package, so the same text in another
//! file names another directory.
//!
//! A digest is std's default hasher over one byte string: the bytes of the
//! stored-document format (`codec`) for the type and the contents, with the
//! declaring file in place of the provenance and no site on `match` arms.

use vstd::prelude::*;
use std::collections::hash_map::DefaultHasher;
use std::hash::Hasher;
use vstd::std_specs::hash::DefaultHasherAdditionalSpecFns;
use vstd::bytes::{lemma_auto_spec_u32_to_from_le_bytes, lemma_auto_spec_u64_to_from_le_bytes};
use crate::codec::{
    base_tag, bool_byte, cfg_key_bytes, cfg_key_fits, data_bytes, fits, i64_bytes,
    law_a_type_reads_back, lemma_i64_reads_back, lemma_list_len, lemma_list_one, lemma_list_split,
    lemma_list_step, lemma_prefix_cat,
    lemma_str_reads_back, lemma_tag, len_bytes, len_u32, list_bytes, ns_tag, pattern_bytes,
    pattern_fits, pred_bytes, pred_fits, str_bytes, str_fits, type_bytes, u64_bytes, W,
};
use crate::value::{nearest_site_of, CfgKey, Data, MatchArm, Pattern, Pred, Site, Type, Value};
use crate::value_model::{data_m, key_m, pattern_m, pred_m};

verus! {

/// The bytes of the file that declared a value: a tag, then its identity.
pub open spec fn file_bytes(s: Option<Site>) -> Seq<u8> {
    match s {
        Some(x) => seq![1u8] + u64_bytes(x.file.0),
        None => seq![0u8],
    }
}

/// The file that declared a value: that of its nearest site.
pub open spec fn file_of(v: Value) -> Option<u64> {
    match nearest_site_of(v.prov.view()) {
        Some(s) => Some(s.file.0),
        None => None,
    }
}

/// The bytes a value is digested as: its type, the file that declared it,
/// then what it holds. No span is among them.
pub open spec fn digest_bytes(v: Value) -> Seq<u8>
    decreases v, 2nat,
{
    type_bytes(v.ty) + file_bytes(nearest_site_of(v.prov.view())) + digest_data(v.data)
}

/// The bytes of what a value holds, a tag first so that two kinds with the
/// same contents differ; nested values are digested in turn.
pub open spec fn digest_data(d: Data) -> Seq<u8>
    decreases d, 1nat,
{
    match d {
        Data::List(items) => seq![7u8] + len_bytes(items@.len()) + digest_values(items@),
        Data::MapOf(rows) => seq![8u8] + len_bytes(rows@.len()) + digest_rows(rows@),
        Data::Match { scrutinee, arms } => seq![9u8] + cfg_key_bytes(scrutinee) + len_bytes(
            arms@.len(),
        ) + digest_arms(arms@),
        Data::When { pred, inner } => seq![10u8] + pred_bytes(pred) + digest_bytes(*inner),
        _ => data_bytes(d),
    }
}

/// The bytes of values one after another.
pub open spec fn digest_values(s: Seq<Value>) -> Seq<u8>
    decreases s, 0nat,
{
    if s.len() == 0 {
        Seq::empty()
    } else {
        digest_values(s.subrange(0, s.len() - 1)) + digest_bytes(s[s.len() - 1])
    }
}

/// The bytes of map entries one after another: each key, then its value.
pub open spec fn digest_rows(s: Seq<(String, Value)>) -> Seq<u8>
    decreases s, 0nat,
{
    if s.len() == 0 {
        Seq::empty()
    } else {
        digest_rows(s.subrange(0, s.len() - 1)) + str_bytes(s[s.len() - 1].0@) + digest_bytes(
            s[s.len() - 1].1,
        )
    }
}

/// The bytes of `match` arms one after another: pattern, then value.
pub open spec fn digest_arms(s: Seq<MatchArm>) -> Seq<u8>
    decreases s, 0nat,
{
    if s.len() == 0 {
        Seq::empty()
    } else {
        digest_arms(s.subrange(0, s.len() - 1)) + pattern_bytes(s[s.len() - 1].pattern) + digest_bytes(
            s[s.len() - 1].value,
        )
    }
}

/// Writes the bytes a value is digested as.
fn write_value(w: &mut W, v: &Value)
    ensures
        final(w).0@ == old(w).0@ + digest_bytes(*v),
    decreases v, 1nat,
{
    let ghost start = w.0@;
    w.ty(&v.ty);
    match v.prov.nearest_site() {
        Some(s) => {
            w.u8(1);
            w.u64(s.file.0);
        },
        None => w.u8(0),
    }
    write_data(w, &v.data);
    assert(w.0@ =~= start + digest_bytes(*v));
}

/// Writes the bytes what a value holds is digested as.
fn write_data(w: &mut W, d: &Data)
    ensures
        final(w).0@ == old(w).0@ + digest_data(*d),
    decreases d, 0nat,
{
    let ghost start = w.0@;
    match d {
        Data::List(items) => {
            w.u8(7);
            w.len(items.len());
            let ghost mid = w.0@;
            let mut i: usize = 0;
            while i < items.len()
                invariant
                    i <= items@.len(),
                    *d == Data::List(*items),
                    w.0@ == mid + digest_values(items@.take(i as int)),
                decreases items.len() - i,
            {
                proof {
                    assert(decreases_to!(*d => d->List_0));
                    vstd::std_specs::vec::axiom_vec_index_decreases(*items, i as int);
                }
                write_value(w, &items[i]);
                assert(items@.take(i + 1).subrange(0, i as int) =~= items@.take(i as int));
                i += 1;
            }
            assert(items@.take(i as int) =~= items@);
        },
        Data::MapOf(rows) => {
            w.u8(8);
            w.len(rows.len());
            let ghost mid = w.0@;
            let mut i: usize = 0;
            while i < rows.len()
                invariant
                    i <= rows@.len(),
                    *d == Data::MapOf(*rows),
                    w.0@ == mid + digest_rows(rows@.take(i as int)),
                decreases rows.len() - i,
            {
                proof {
                    assert(decreases_to!(*d => d->MapOf_0));
                    vstd::std_specs::vec::axiom_vec_index_decreases(*rows, i as int);
                    assert(decreases_to!(rows@[i as int] => rows@[i as int].1));
                }
                w.str(rows[i].0.as_str());
                write_value(w, &rows[i].1);
                assert(rows@.take(i + 1).subrange(0, i as int) =~= rows@.take(i as int));
                i += 1;
            }
            assert(rows@.take(i as int) =~= rows@);
        },
        Data::Match { scrutinee, arms } => {
            w.u8(9);
            w.cfg_key(scrutinee);
            w.len(arms.len());
            let ghost mid = w.0@;
            let mut i: usize = 0;
            while i < arms.len()
                invariant
                    i <= arms@.len(),
                    *d == (Data::Match { scrutinee: *scrutinee, arms: *arms }),
                    w.0@ == mid + digest_arms(arms@.take(i as int)),
                decreases arms.len() - i,
            {
                proof {
                    assert(decreases_to!(*d => d->arms));
                    vstd::std_specs::vec::axiom_vec_index_decreases(*arms, i as int);
                    assert(decreases_to!(arms@[i as int] => arms@[i as int].value));
                }
                w.pattern(&arms[i].pattern);
                write_value(w, &arms[i].value);
                assert(arms@.take(i + 1).subrange(0, i as int) =~= arms@.take(i as int));
                i += 1;
            }
            assert(arms@.take(i as int) =~= arms@);
        },
        Data::When { pred, inner } => {
            w.u8(10);
            w.pred(pred);
            write_value(w, inner);
        },
        _ => w.data(d),
    }
    assert(w.0@ =~= start + digest_data(*d));
}

/// The digest of a value. Spans are not part of it, so editing comments or
/// white space leaves it as it was.
pub fn value_digest(v: &Value) -> (r: u64)
    ensures
        r == DefaultHasher::spec_finish(seq![digest_bytes(*v)]),
{
    let mut w = W(Vec::new());
    write_value(&mut w, v);
    assert(w.0@ =~= digest_bytes(*v));
    let mut h = DefaultHasher::new();
    h.write(w.0.as_slice());
    assert(h@ =~= seq![digest_bytes(*v)]);
    h.finish()
}

/// The bytes of a named value: the name, then the value.
pub open spec fn prop_item() -> spec_fn((String, Value)) -> Seq<u8> {
    |p: (String, Value)| str_bytes(p.0@) + digest_bytes(p.1)
}

/// The digest of named values, as for the properties of a block: each
/// name, then its value, in order.
pub fn props_digest(props: &[(String, Value)]) -> (r: u64)
    ensures
        r == DefaultHasher::spec_finish(seq![list_bytes(props@, prop_item())]),
{
    let mut w = W(Vec::new());
    let mut i: usize = 0;
    assert(w.0@ =~= list_bytes(props@.take(0), prop_item()));
    while i < props.len()
        invariant
            i <= props@.len(),
            w.0@ == list_bytes(props@.take(i as int), prop_item()),
        decreases props.len() - i,
    {
        w.str(props[i].0.as_str());
        write_value(&mut w, &props[i].1);
        proof {
            lemma_list_step(props@, prop_item(), i as int);
        }
        i += 1;
    }
    assert(props@.take(i as int) =~= props@);
    let mut h = DefaultHasher::new();
    h.write(w.0.as_slice());
    assert(h@ =~= seq![list_bytes(props@, prop_item())]);
    h.finish()
}

/// Whether two values are the same but for where they were written: the
/// same type, declared in the same file, holding the same contents, with
/// nested values the same in turn. Spans, provenance steps and the sites
/// of `match` arms may differ.
pub open spec fn same_but_spans(a: Value, b: Value) -> bool
    decreases a, 2nat,
{
    a.ty == b.ty && file_of(a) == file_of(b) && same_data(a.data, b.data)
}

/// Whether two contents are the same but for where their values were
/// written.
pub open spec fn same_data(x: Data, y: Data) -> bool
    decreases x, 1nat,
{
    match (x, y) {
        (Data::List(p), Data::List(q)) => same_values(p@, q@),
        (Data::MapOf(p), Data::MapOf(q)) => same_rows(p@, q@),
        (Data::Match { scrutinee: s1, arms: a1 }, Data::Match { scrutinee: s2, arms: a2 }) => key_m(
            s1,
        ) == key_m(s2) && same_arms(a1@, a2@),
        (Data::When { pred: p1, inner: i1 }, Data::When { pred: p2, inner: i2 }) => pred_m(p1)
            == pred_m(p2) && same_but_spans(*i1, *i2),
        (Data::List(_), _) | (Data::MapOf(_), _) | (Data::Match { .. }, _) | (Data::When { .. }, _) => false,
        _ => data_m(x) == data_m(y),
    }
}

pub open spec fn same_values(p: Seq<Value>, q: Seq<Value>) -> bool
    decreases p, 0nat,
{
    p.len() == q.len() && (p.len() == 0 || (same_values(p.subrange(0, p.len() - 1), q.subrange(0, q.len() - 1))
        && same_but_spans(p[p.len() - 1], q[q.len() - 1])))
}

pub open spec fn same_rows(p: Seq<(String, Value)>, q: Seq<(String, Value)>) -> bool
    decreases p, 0nat,
{
    p.len() == q.len() && (p.len() == 0 || (same_rows(p.subrange(0, p.len() - 1), q.subrange(0, q.len() - 1))
        && p[p.len() - 1].0@ == q[q.len() - 1].0@ && same_but_spans(p[p.len() - 1].1, q[q.len() - 1].1)))
}

pub open spec fn same_arms(p: Seq<MatchArm>, q: Seq<MatchArm>) -> bool
    decreases p, 0nat,
{
    p.len() == q.len() && (p.len() == 0 || (same_arms(p.subrange(0, p.len() - 1), q.subrange(0, q.len() - 1))
        && pattern_m(p[p.len() - 1].pattern) == pattern_m(q[q.len() - 1].pattern) && same_but_spans(
        p[p.len() - 1].value,
        q[q.len() - 1].value,
    )))
}

proof fn lemma_same_value(a: Value, b: Value)
    requires
        same_but_spans(a, b),
    ensures
        digest_bytes(a) == digest_bytes(b),
    decreases a, 2nat,
{
    lemma_same_data(a.data, b.data);
    assert(file_bytes(nearest_site_of(a.prov.view())) == file_bytes(nearest_site_of(b.prov.view())));
}

proof fn lemma_same_data(x: Data, y: Data)
    requires
        same_data(x, y),
    ensures
        digest_data(x) == digest_data(y),
    decreases x, 1nat,
{
    match (x, y) {
        (Data::List(p), Data::List(q)) => {
            assert(decreases_to!(x => p));
            lemma_same_values(p@, q@);
        },
        (Data::MapOf(p), Data::MapOf(q)) => {
            assert(decreases_to!(x => p));
            lemma_same_rows(p@, q@);
        },
        (Data::Match { scrutinee: s1, arms: a1 }, Data::Match { scrutinee: s2, arms: a2 }) => {
            assert(decreases_to!(x => a1));
            lemma_same_arms(a1@, a2@);
        },
        (Data::When { pred: p1, inner: i1 }, Data::When { pred: p2, inner: i2 }) => {
            lemma_pred_same_bytes(p1, p2);
            lemma_same_value(*i1, *i2);
        },
        _ => {},
    }
}

/// Predicates with the same model have the same bytes.
proof fn lemma_pred_same_bytes(p: Pred, q: Pred)
    requires
        pred_m(p) == pred_m(q),
    ensures
        pred_bytes(p) == pred_bytes(q),
    decreases p,
{
    match (p, q) {
        (Pred::Not(a), Pred::Not(b)) => {
            lemma_pred_same_bytes(*a, *b);
        },
        (Pred::And(a1, b1), Pred::And(a2, b2)) => {
            lemma_pred_same_bytes(*a1, *a2);
            lemma_pred_same_bytes(*b1, *b2);
        },
        (Pred::Or(a1, b1), Pred::Or(a2, b2)) => {
            lemma_pred_same_bytes(*a1, *a2);
            lemma_pred_same_bytes(*b1, *b2);
        },
        _ => {},
    }
}

proof fn lemma_same_values(p: Seq<Value>, q: Seq<Value>)
    requires
        same_values(p, q),
    ensures
        digest_values(p) == digest_values(q),
    decreases p, 0nat,
{
    if p.len() > 0 {
        lemma_same_values(p.subrange(0, p.len() - 1), q.subrange(0, q.len() - 1));
        lemma_same_value(p[p.len() - 1], q[q.len() - 1]);
    }
}

proof fn lemma_same_rows(p: Seq<(String, Value)>, q: Seq<(String, Value)>)
    requires
        same_rows(p, q),
    ensures
        digest_rows(p) == digest_rows(q),
    decreases p, 0nat,
{
    if p.len() > 0 {
        lemma_same_rows(p.subrange(0, p.len() - 1), q.subrange(0, q.len() - 1));
        assert(decreases_to!(p => p[p.len() - 1]));
        assert(decreases_to!(p[p.len() - 1] => p[p.len() - 1].1));
        lemma_same_value(p[p.len() - 1].1, q[q.len() - 1].1);
    }
}

proof fn lemma_same_arms(p: Seq<MatchArm>, q: Seq<MatchArm>)
    requires
        same_arms(p, q),
    ensures
        digest_arms(p) == digest_arms(q),
    decreases p, 0nat,
{
    if p.len() > 0 {
        lemma_same_arms(p.subrange(0, p.len() - 1), q.subrange(0, q.len() - 1));
        assert(decreases_to!(p => p[p.len() - 1]));
        assert(decreases_to!(p[p.len() - 1] => p[p.len() - 1].value));
        lemma_same_value(p[p.len() - 1].value, q[q.len() - 1].value);
    }
}

/// Values that are the same but for where they were written digest the
/// same: moving a value within its file, as editing a comment above it
/// does, leaves its digest as it was.
pub proof fn law_digest_ignores_spans(a: Value, b: Value)
    requires
        same_but_spans(a, b),
    ensures
        digest_bytes(a) == digest_bytes(b),
        DefaultHasher::spec_finish(seq![digest_bytes(a)]) == DefaultHasher::spec_finish(seq![digest_bytes(b)]),
{
    lemma_same_value(a, b);
}


/// Whether every string and list inside a value is short enough for the
/// 32-bit length its digest bytes give it.
pub open spec fn lengths_fit(v: Value) -> bool
    decreases v, 2nat,
{
    data_lengths_fit(v.data)
}

pub open spec fn data_lengths_fit(d: Data) -> bool
    decreases d, 1nat,
{
    match d {
        Data::Str(s) => str_fits(s@),
        Data::Path(p) => str_fits(p.rel@),
        Data::Glob(s) => str_fits(s@),
        Data::Dep(s) => str_fits(s@),
        Data::Target(s) => str_fits(s@),
        Data::PkgRef(s) => str_fits(s@),
        Data::List(items) => fits(items@.len()) && values_lengths_fit(items@),
        Data::MapOf(rows) => fits(rows@.len()) && rows_lengths_fit(rows@),
        Data::Match { scrutinee, arms } => cfg_key_fits(scrutinee) && fits(arms@.len())
            && arms_lengths_fit(arms@),
        Data::When { pred, inner } => pred_fits(pred) && lengths_fit(*inner),
        _ => true,
    }
}

pub open spec fn values_lengths_fit(s: Seq<Value>) -> bool
    decreases s, 0nat,
{
    s.len() == 0 || (values_lengths_fit(s.subrange(0, s.len() - 1)) && lengths_fit(s[s.len() - 1]))
}

pub open spec fn rows_lengths_fit(s: Seq<(String, Value)>) -> bool
    decreases s, 0nat,
{
    s.len() == 0 || (rows_lengths_fit(s.subrange(0, s.len() - 1)) && str_fits(s[s.len() - 1].0@)
        && lengths_fit(s[s.len() - 1].1))
}

pub open spec fn arms_lengths_fit(s: Seq<MatchArm>) -> bool
    decreases s, 0nat,
{
    s.len() == 0 || (arms_lengths_fit(s.subrange(0, s.len() - 1)) && pattern_fits(s[s.len() - 1].pattern)
        && lengths_fit(s[s.len() - 1].value))
}

/// A tag byte and two parts, at the start of `r`: each part starts where
/// the one before it ends.
proof fn lemma_parts(t: u8, x: Seq<u8>, y: Seq<u8>, r: Seq<u8>)
    requires
        (seq![t] + x + y).is_prefix_of(r),
    ensures
        r.len() >= 1,
        r[0] == t,
        x.is_prefix_of(r.skip(1)),
        y.is_prefix_of(r.skip(1 + x.len() as int)),
{
    lemma_prefix_cat(seq![t] + x, y, r);
    lemma_tag(t, x, r);
}

/// Two strings whose bytes both start `r` are the same string.
proof fn lemma_str_unique(s: Seq<char>, t: Seq<char>, r: Seq<u8>)
    requires
        str_fits(s),
        str_fits(t),
        str_bytes(s).is_prefix_of(r),
        str_bytes(t).is_prefix_of(r),
    ensures
        s == t,
{
    lemma_str_reads_back(s, r);
    lemma_str_reads_back(t, r);
}

/// Two lengths whose bytes both start `r` are the same length.
proof fn lemma_len_unique(n: nat, m: nat, r: Seq<u8>)
    requires
        fits(n),
        fits(m),
        len_bytes(n).is_prefix_of(r),
        len_bytes(m).is_prefix_of(r),
    ensures
        n == m,
        len_bytes(n).len() == 4,
{
    lemma_auto_spec_u32_to_from_le_bytes();
    assert(len_u32(n) == n);
    assert(len_u32(m) == m);
    assert(len_bytes(n) =~= r.take(4));
    assert(len_bytes(m) =~= r.take(4));
}

/// Two types whose bytes both start `r` are the same type.
proof fn lemma_type_unique(s: Type, t: Type, r: Seq<u8>)
    requires
        type_bytes(s).is_prefix_of(r),
        type_bytes(t).is_prefix_of(r),
    ensures
        s == t,
{
    law_a_type_reads_back(s, r.skip(type_bytes(s).len() as int));
    assert(type_bytes(s) + r.skip(type_bytes(s).len() as int) =~= r);
    law_a_type_reads_back(t, r.skip(type_bytes(t).len() as int));
    assert(type_bytes(t) + r.skip(type_bytes(t).len() as int) =~= r);
}

/// Two declaring files whose bytes both start `r` are the same file.
proof fn lemma_file_unique(a: Option<Site>, b: Option<Site>, r: Seq<u8>)
    requires
        file_bytes(a).is_prefix_of(r),
        file_bytes(b).is_prefix_of(r),
    ensures
        file_bytes(a) == file_bytes(b),
        (a is Some) == (b is Some),
        a is Some ==> a->0.file.0 == b->0.file.0,
{
    lemma_auto_spec_u64_to_from_le_bytes();
    assert(file_bytes(a)[0] == r[0]);
    assert(file_bytes(b)[0] == r[0]);
    if a is Some && b is Some {
        let x = a->0.file.0;
        let y = b->0.file.0;
        assert(file_bytes(a) =~= r.take(9));
        assert(file_bytes(b) =~= r.take(9));
        assert(file_bytes(a).subrange(1, 9) =~= u64_bytes(x));
        assert(file_bytes(b).subrange(1, 9) =~= u64_bytes(y));
        assert(u64_bytes(x) =~= u64_bytes(y));
    }
}

/// Two configuration keys whose bytes both start `r` are the same key.
proof fn lemma_key_unique(k1: CfgKey, k2: CfgKey, r: Seq<u8>)
    requires
        cfg_key_fits(k1),
        cfg_key_fits(k2),
        cfg_key_bytes(k1).is_prefix_of(r),
        cfg_key_bytes(k2).is_prefix_of(r),
    ensures
        key_m(k1) == key_m(k2),
{
    lemma_tag(ns_tag(k1.ns), str_bytes(k1.name@), r);
    lemma_tag(ns_tag(k2.ns), str_bytes(k2.name@), r);
    lemma_str_unique(k1.name@, k2.name@, r.skip(1));
}

/// Two patterns whose bytes both start `r` are the same pattern.
proof fn lemma_pattern_unique(p: Pattern, q: Pattern, r: Seq<u8>)
    requires
        pattern_fits(p),
        pattern_fits(q),
        pattern_bytes(p).is_prefix_of(r),
        pattern_bytes(q).is_prefix_of(r),
    ensures
        pattern_m(p) == pattern_m(q),
{
    assert(pattern_bytes(p)[0] == r[0]);
    assert(pattern_bytes(q)[0] == r[0]);
    match (p, q) {
        (Pattern::Value(s), Pattern::Value(t)) => {
            lemma_tag(1u8, str_bytes(s@), r);
            lemma_tag(1u8, str_bytes(t@), r);
            lemma_str_unique(s@, t@, r.skip(1));
        },
        _ => {},
    }
}

/// Two predicates whose bytes both start `r` are the same predicate.
#[verifier::spinoff_prover]
#[verifier::rlimit(50)]
proof fn lemma_pred_unique(p: Pred, q: Pred, r: Seq<u8>)
    requires
        pred_fits(p),
        pred_fits(q),
        pred_bytes(p).is_prefix_of(r),
        pred_bytes(q).is_prefix_of(r),
    ensures
        pred_m(p) == pred_m(q),
    decreases p,
{
    assert(pred_bytes(p)[0] == r[0]);
    assert(pred_bytes(q)[0] == r[0]);
    match (p, q) {
        (Pred::Flag(k1), Pred::Flag(k2)) => {
            lemma_tag(0u8, cfg_key_bytes(k1), r);
            lemma_tag(0u8, cfg_key_bytes(k2), r);
            lemma_key_unique(k1, k2, r.skip(1));
        },
        (Pred::Eq(k1, v1), Pred::Eq(k2, v2)) => {
            lemma_parts(1u8, cfg_key_bytes(k1), str_bytes(v1@), r);
            lemma_parts(1u8, cfg_key_bytes(k2), str_bytes(v2@), r);
            lemma_key_unique(k1, k2, r.skip(1));
            assert(cfg_key_bytes(k1) == cfg_key_bytes(k2));
            lemma_str_unique(v1@, v2@, r.skip(1 + cfg_key_bytes(k1).len() as int));
        },
        (Pred::Not(a), Pred::Not(b)) => {
            lemma_tag(2u8, pred_bytes(*a), r);
            lemma_tag(2u8, pred_bytes(*b), r);
            lemma_pred_unique(*a, *b, r.skip(1));
        },
        (Pred::And(a1, b1), Pred::And(a2, b2)) => {
            lemma_parts(3u8, pred_bytes(*a1), pred_bytes(*b1), r);
            lemma_parts(3u8, pred_bytes(*a2), pred_bytes(*b2), r);
            lemma_pred_unique(*a1, *a2, r.skip(1));
            lemma_pred_same_bytes(*a1, *a2);
            lemma_pred_unique(*b1, *b2, r.skip(1 + pred_bytes(*a1).len() as int));
        },
        (Pred::Or(a1, b1), Pred::Or(a2, b2)) => {
            lemma_parts(4u8, pred_bytes(*a1), pred_bytes(*b1), r);
            lemma_parts(4u8, pred_bytes(*a2), pred_bytes(*b2), r);
            lemma_pred_unique(*a1, *a2, r.skip(1));
            lemma_pred_same_bytes(*a1, *a2);
            lemma_pred_unique(*b1, *b2, r.skip(1 + pred_bytes(*a1).len() as int));
        },
        _ => {},
    }
}


/// Two values whose digest bytes both start `r` are the same but for where
/// they were written.
#[verifier::spinoff_prover]
#[verifier::rlimit(50)]
proof fn lemma_digest_unique(a: Value, b: Value, r: Seq<u8>)
    requires
        lengths_fit(a),
        lengths_fit(b),
        digest_bytes(a).is_prefix_of(r),
        digest_bytes(b).is_prefix_of(r),
    ensures
        same_but_spans(a, b),
    decreases a, 2nat,
{
    let fa = file_bytes(nearest_site_of(a.prov.view()));
    let fb = file_bytes(nearest_site_of(b.prov.view()));
    lemma_prefix_cat(type_bytes(a.ty) + fa, digest_data(a.data), r);
    lemma_prefix_cat(type_bytes(b.ty) + fb, digest_data(b.data), r);
    lemma_prefix_cat(type_bytes(a.ty), fa, r);
    lemma_prefix_cat(type_bytes(b.ty), fb, r);
    lemma_type_unique(a.ty, b.ty, r);
    let n = type_bytes(a.ty).len() as int;
    lemma_file_unique(nearest_site_of(a.prov.view()), nearest_site_of(b.prov.view()), r.skip(n));
    lemma_data_unique(a.data, b.data, r.skip(n + fa.len()));
}

/// Two contents whose digest bytes both start `r` are the same but for
/// where their values were written.
#[verifier::spinoff_prover]
#[verifier::rlimit(50)]
proof fn lemma_data_unique(x: Data, y: Data, r: Seq<u8>)
    requires
        data_lengths_fit(x),
        data_lengths_fit(y),
        digest_data(x).is_prefix_of(r),
        digest_data(y).is_prefix_of(r),
    ensures
        same_data(x, y),
    decreases x, 1nat,
{
    lemma_auto_spec_u32_to_from_le_bytes();
    assert(digest_data(x)[0] == r[0]);
    assert(digest_data(y)[0] == r[0]);
    match (x, y) {
        (Data::Str(s), Data::Str(t)) => {
            lemma_tag(0u8, str_bytes(s@), r);
            lemma_tag(0u8, str_bytes(t@), r);
            lemma_str_unique(s@, t@, r.skip(1));
        },
        (Data::Int(i), Data::Int(j)) => {
            lemma_auto_spec_u64_to_from_le_bytes();
            lemma_tag(1u8, i64_bytes(i), r);
            lemma_tag(1u8, i64_bytes(j), r);
            lemma_i64_reads_back(i);
            lemma_i64_reads_back(j);
            assert(i64_bytes(i) =~= r.skip(1).take(8));
            assert(i64_bytes(j) =~= r.skip(1).take(8));
        },
        (Data::Bool(p), Data::Bool(q)) => {
            assert(digest_data(x)[1] == r[1]);
            assert(digest_data(y)[1] == r[1]);
        },
        (Data::Path(p), Data::Path(q)) => {
            assert(digest_data(x) =~= seq![3u8] + (seq![base_tag(p.base)] + str_bytes(p.rel@)));
            assert(digest_data(y) =~= seq![3u8] + (seq![base_tag(q.base)] + str_bytes(q.rel@)));
            lemma_tag(3u8, seq![base_tag(p.base)] + str_bytes(p.rel@), r);
            lemma_tag(3u8, seq![base_tag(q.base)] + str_bytes(q.rel@), r);
            lemma_tag(base_tag(p.base), str_bytes(p.rel@), r.skip(1));
            lemma_tag(base_tag(q.base), str_bytes(q.rel@), r.skip(1));
            lemma_str_unique(p.rel@, q.rel@, r.skip(1).skip(1));
        },
        (Data::Glob(s), Data::Glob(t)) => {
            lemma_tag(4u8, str_bytes(s@), r);
            lemma_tag(4u8, str_bytes(t@), r);
            lemma_str_unique(s@, t@, r.skip(1));
        },
        (Data::Dep(s), Data::Dep(t)) => {
            lemma_tag(5u8, str_bytes(s@), r);
            lemma_tag(5u8, str_bytes(t@), r);
            lemma_str_unique(s@, t@, r.skip(1));
        },
        (Data::Target(s), Data::Target(t)) => {
            lemma_tag(6u8, str_bytes(s@), r);
            lemma_tag(6u8, str_bytes(t@), r);
            lemma_str_unique(s@, t@, r.skip(1));
        },
        (Data::PkgRef(s), Data::PkgRef(t)) => {
            lemma_tag(12u8, str_bytes(s@), r);
            lemma_tag(12u8, str_bytes(t@), r);
            lemma_str_unique(s@, t@, r.skip(1));
        },
        (Data::List(p), Data::List(q)) => {
            lemma_parts(7u8, len_bytes(p@.len()), digest_values(p@), r);
            lemma_parts(7u8, len_bytes(q@.len()), digest_values(q@), r);
            lemma_len_unique(p@.len(), q@.len(), r.skip(1));
            assert(decreases_to!(x => p));
            lemma_values_unique(p@, q@, r.skip(5));
        },
        (Data::MapOf(p), Data::MapOf(q)) => {
            lemma_parts(8u8, len_bytes(p@.len()), digest_rows(p@), r);
            lemma_parts(8u8, len_bytes(q@.len()), digest_rows(q@), r);
            lemma_len_unique(p@.len(), q@.len(), r.skip(1));
            assert(decreases_to!(x => p));
            lemma_rows_unique(p@, q@, r.skip(5));
        },
        (Data::Match { scrutinee: s1, arms: a1 }, Data::Match { scrutinee: s2, arms: a2 }) => {
            let k1 = cfg_key_bytes(s1);
            let k2 = cfg_key_bytes(s2);
            lemma_prefix_cat(seq![9u8] + k1 + len_bytes(a1@.len()), digest_arms(a1@), r);
            lemma_prefix_cat(seq![9u8] + k2 + len_bytes(a2@.len()), digest_arms(a2@), r);
            lemma_parts(9u8, k1, len_bytes(a1@.len()), r);
            lemma_parts(9u8, k2, len_bytes(a2@.len()), r);
            lemma_key_unique(s1, s2, r.skip(1));
            assert(k1 == k2);
            lemma_len_unique(a1@.len(), a2@.len(), r.skip(1 + k1.len() as int));
            assert(decreases_to!(x => a1));
            lemma_arms_unique(a1@, a2@, r.skip(1 + k1.len() as int + 4));
        },
        (Data::When { pred: p1, inner: i1 }, Data::When { pred: p2, inner: i2 }) => {
            lemma_parts(10u8, pred_bytes(p1), digest_bytes(*i1), r);
            lemma_parts(10u8, pred_bytes(p2), digest_bytes(*i2), r);
            lemma_pred_unique(p1, p2, r.skip(1));
            lemma_pred_same_bytes(p1, p2);
            lemma_digest_unique(*i1, *i2, r.skip(1 + pred_bytes(p1).len() as int));
        },
        _ => {},
    }
}

/// Two runs of as many values, whose digest bytes both start `r`, hold
/// the same values one by one.
#[verifier::spinoff_prover]
#[verifier::rlimit(50)]
proof fn lemma_values_unique(p: Seq<Value>, q: Seq<Value>, r: Seq<u8>)
    requires
        p.len() == q.len(),
        values_lengths_fit(p),
        values_lengths_fit(q),
        digest_values(p).is_prefix_of(r),
        digest_values(q).is_prefix_of(r),
    ensures
        same_values(p, q),
    decreases p, 0nat,
{
    if p.len() > 0 {
        let ip = p.subrange(0, p.len() - 1);
        let iq = q.subrange(0, q.len() - 1);
        lemma_prefix_cat(digest_values(ip), digest_bytes(p[p.len() - 1]), r);
        lemma_prefix_cat(digest_values(iq), digest_bytes(q[q.len() - 1]), r);
        lemma_values_unique(ip, iq, r);
        lemma_same_values(ip, iq);
        lemma_digest_unique(p[p.len() - 1], q[q.len() - 1], r.skip(digest_values(ip).len() as int));
    }
}

/// Two runs of as many map entries, whose digest bytes both start `r`,
/// hold the same keys and the same values one by one.
#[verifier::spinoff_prover]
#[verifier::rlimit(50)]
proof fn lemma_rows_unique(p: Seq<(String, Value)>, q: Seq<(String, Value)>, r: Seq<u8>)
    requires
        p.len() == q.len(),
        rows_lengths_fit(p),
        rows_lengths_fit(q),
        digest_rows(p).is_prefix_of(r),
        digest_rows(q).is_prefix_of(r),
    ensures
        same_rows(p, q),
    decreases p, 0nat,
{
    if p.len() > 0 {
        let ip = p.subrange(0, p.len() - 1);
        let iq = q.subrange(0, q.len() - 1);
        let kp = str_bytes(p[p.len() - 1].0@);
        let kq = str_bytes(q[q.len() - 1].0@);
        lemma_prefix_cat(digest_rows(ip) + kp, digest_bytes(p[p.len() - 1].1), r);
        lemma_prefix_cat(digest_rows(iq) + kq, digest_bytes(q[q.len() - 1].1), r);
        lemma_prefix_cat(digest_rows(ip), kp, r);
        lemma_prefix_cat(digest_rows(iq), kq, r);
        lemma_rows_unique(ip, iq, r);
        lemma_same_rows(ip, iq);
        let n = digest_rows(ip).len() as int;
        lemma_str_unique(p[p.len() - 1].0@, q[q.len() - 1].0@, r.skip(n));
        assert(decreases_to!(p => p[p.len() - 1]));
        assert(decreases_to!(p[p.len() - 1] => p[p.len() - 1].1));
        lemma_digest_unique(p[p.len() - 1].1, q[q.len() - 1].1, r.skip(n + kp.len()));
    }
}

/// Two runs of as many `match` arms, whose digest bytes both start `r`,
/// hold the same patterns and the same values one by one.
#[verifier::spinoff_prover]
#[verifier::rlimit(50)]
proof fn lemma_arms_unique(p: Seq<MatchArm>, q: Seq<MatchArm>, r: Seq<u8>)
    requires
        p.len() == q.len(),
        arms_lengths_fit(p),
        arms_lengths_fit(q),
        digest_arms(p).is_prefix_of(r),
        digest_arms(q).is_prefix_of(r),
    ensures
        same_arms(p, q),
    decreases p, 0nat,
{
    if p.len() > 0 {
        let ip = p.subrange(0, p.len() - 1);
        let iq = q.subrange(0, q.len() - 1);
        let kp = pattern_bytes(p[p.len() - 1].pattern);
        let kq = pattern_bytes(q[q.len() - 1].pattern);
        lemma_prefix_cat(digest_arms(ip) + kp, digest_bytes(p[p.len() - 1].value), r);
        lemma_prefix_cat(digest_arms(iq) + kq, digest_bytes(q[q.len() - 1].value), r);
        lemma_prefix_cat(digest_arms(ip), kp, r);
        lemma_prefix_cat(digest_arms(iq), kq, r);
        lemma_arms_unique(ip, iq, r);
        lemma_same_arms(ip, iq);
        let n = digest_arms(ip).len() as int;
        lemma_pattern_unique(p[p.len() - 1].pattern, q[q.len() - 1].pattern, r.skip(n));
        assert(kp == kq);
        assert(decreases_to!(p => p[p.len() - 1]));
        assert(decreases_to!(p[p.len() - 1] => p[p.len() - 1].value));
        lemma_digest_unique(p[p.len() - 1].value, q[q.len() - 1].value, r.skip(n + kp.len()));
    }
}

/// Values that digest to the same bytes are the same but for where they
/// were written: the same type, declared in the same file, holding the
/// same contents. Changing anything a value holds, such as the value of
/// one entry of a map, changes its digest bytes. Every string and list
/// inside the values is short enough for its 32-bit length.
pub proof fn law_digest_tells_contents_apart(a: Value, b: Value)
    requires
        lengths_fit(a),
        lengths_fit(b),
        digest_bytes(a) == digest_bytes(b),
    ensures
        same_but_spans(a, b),
{
    assert(digest_bytes(a).is_prefix_of(digest_bytes(a)));
    lemma_digest_unique(a, b, digest_bytes(a));
}


/// Whether every name and value of a list of named values is short enough
/// for the 32-bit lengths its digest bytes give them.
pub open spec fn props_lengths_fit(p: Seq<(String, Value)>) -> bool {
    forall|i: int| 0 <= i < p.len() ==> str_fits((#[trigger] p[i]).0@) && lengths_fit(p[i].1)
}

/// Lists of named values with the same digest bytes hold, one by one, the
/// same names and values the same but for where they were written.
#[verifier::spinoff_prover]
#[verifier::rlimit(50)]
proof fn lemma_props_unique(p: Seq<(String, Value)>, q: Seq<(String, Value)>)
    requires
        props_lengths_fit(p),
        props_lengths_fit(q),
        list_bytes(p, prop_item()) == list_bytes(q, prop_item()),
    ensures
        p.len() == q.len(),
        forall|i: int| 0 <= i < p.len() ==> (#[trigger] p[i]).0@ == q[i].0@ && same_but_spans(p[i].1, q[i].1),
    decreases p.len(),
{
    assert forall|x: (String, Value)| #[trigger] prop_item()(x).len() >= 1 by {
        lemma_auto_spec_u32_to_from_le_bytes();
        assert(str_bytes(x.0@).len() >= 4);
    }
    if p.len() == 0 || q.len() == 0 {
        lemma_list_len(p, prop_item());
        lemma_list_len(q, prop_item());
    } else {
        let f = prop_item();
        let r = list_bytes(p, f);
        lemma_list_split(p, f, 1);
        lemma_list_split(q, f, 1);
        assert(p.take(1) =~= seq![p[0]]);
        assert(q.take(1) =~= seq![q[0]]);
        lemma_list_one(p[0], f);
        lemma_list_one(q[0], f);
        let rp = list_bytes(p.skip(1), f);
        let rq = list_bytes(q.skip(1), f);
        assert((f(p[0]) + rp).is_prefix_of(r));
        assert((f(q[0]) + rq).is_prefix_of(r));
        lemma_prefix_cat(f(p[0]), rp, r);
        lemma_prefix_cat(f(q[0]), rq, r);
        let kp = str_bytes(p[0].0@);
        let kq = str_bytes(q[0].0@);
        lemma_prefix_cat(kp, digest_bytes(p[0].1), r);
        lemma_prefix_cat(kq, digest_bytes(q[0].1), r);
        assert(str_fits(p[0].0@) && lengths_fit(p[0].1));
        assert(str_fits(q[0].0@) && lengths_fit(q[0].1));
        lemma_str_unique(p[0].0@, q[0].0@, r);
        lemma_digest_unique(p[0].1, q[0].1, r.skip(kp.len() as int));
        lemma_same_value(p[0].1, q[0].1);
        assert(f(p[0]) == f(q[0]));
        assert(rp =~= r.skip(f(p[0]).len() as int));
        assert(rq =~= r.skip(f(q[0]).len() as int));
        assert forall|i: int| 0 <= i < p.skip(1).len() implies str_fits((#[trigger] p.skip(1)[i]).0@)
            && lengths_fit(p.skip(1)[i].1) by {
            assert(p.skip(1)[i] == p[i + 1]);
        }
        assert forall|i: int| 0 <= i < q.skip(1).len() implies str_fits((#[trigger] q.skip(1)[i]).0@)
            && lengths_fit(q.skip(1)[i].1) by {
            assert(q.skip(1)[i] == q[i + 1]);
        }
        lemma_props_unique(p.skip(1), q.skip(1));
        assert forall|i: int| 0 <= i < p.len() implies (#[trigger] p[i]).0@ == q[i].0@ && same_but_spans(
            p[i].1,
            q[i].1,
        ) by {
            if i > 0 {
                assert(p.skip(1)[i - 1] == p[i]);
                assert(q.skip(1)[i - 1] == q[i]);
            }
        }
    }
}

/// Lists of named values, as the properties of a block, that digest to the
/// same bytes hold the same names in the same order, each with a value the
/// same but for where it was written: changing a property's value, or
/// adding, dropping or renaming one, changes the bytes `props_digest`
/// hashes. Every name, string and list is short enough for its 32-bit
/// length.
pub proof fn law_props_digest_tells_contents_apart(p: Seq<(String, Value)>, q: Seq<(String, Value)>)
    requires
        props_lengths_fit(p),
        props_lengths_fit(q),
        list_bytes(p, prop_item()) == list_bytes(q, prop_item()),
    ensures
        p.len() == q.len(),
        forall|i: int| 0 <= i < p.len() ==> (#[trigger] p[i]).0@ == q[i].0@ && same_but_spans(p[i].1, q[i].1),
{
    lemma_props_unique(p, q);
}

} // verus!
