//! What a value means in contracts: the same tree with every string taken
//! as its characters and every list as a sequence, so that two values with
//! the same meaning are equal whatever their buffers.

use vstd::prelude::*;
use crate::config::bool_text;
use crate::text::{copy_string, decimal, decimal_string, owned, push_str};
use crate::value::{
    debug_quoted, key_text, ns_text, pattern_text, pred_operand, pred_strength, pred_text, CfgKey,
    Data, MatchArm, Ns, Origin, PathBase, PathValue, Pattern, Pred, Prov, Site, Type, Value, debug_quote,
};

verus! {

/// An origin, its strings as characters.
pub enum OriginM {
    Literal,
    Call(Seq<char>),
    MatchArm(Seq<char>),
    WhenTrue(Seq<char>),
    Propagated(Seq<char>, Seq<char>),
    Merged(Seq<char>, Seq<char>),
    Config,
    Default,
}

/// A configuration key, its name as characters.
pub struct KeyM {
    pub ns: Ns,
    pub name: Seq<char>,
}

/// A `when` predicate, its strings as characters.
pub enum PredM {
    Flag(KeyM),
    Eq(KeyM, Seq<char>),
    Not(Box<PredM>),
    And(Box<PredM>, Box<PredM>),
    Or(Box<PredM>, Box<PredM>),
}

/// The left side of a `match` arm.
pub enum PatternM {
    Value(Seq<char>),
    Wildcard,
}

/// An arm of a `match`.
pub struct ArmM {
    pub pattern: PatternM,
    pub site: Site,
    pub value: ValueM,
}

/// What a value holds.
pub enum DataM {
    Str(Seq<char>),
    Int(i64),
    Bool(bool),
    Path(PathBase, Seq<char>),
    Glob(Seq<char>),
    Dep(Seq<char>),
    Target(Seq<char>),
    List(Seq<ValueM>),
    MapOf(Seq<(Seq<char>, ValueM)>),
    Match(KeyM, Seq<ArmM>),
    When(PredM, Box<ValueM>),
    PkgRef(Seq<char>),
    Error,
}

/// A value: its type, what it holds, and its provenance, nearest step first.
pub struct ValueM {
    pub ty: Type,
    pub data: DataM,
    pub prov: Seq<(OriginM, Option<Site>)>,
}

pub open spec fn key_m(k: CfgKey) -> KeyM {
    KeyM { ns: k.ns, name: k.name@ }
}

pub open spec fn pred_m(p: Pred) -> PredM
    decreases p,
{
    match p {
        Pred::Flag(k) => PredM::Flag(key_m(k)),
        Pred::Eq(k, v) => PredM::Eq(key_m(k), v@),
        Pred::Not(a) => PredM::Not(Box::new(pred_m(*a))),
        Pred::And(a, b) => PredM::And(Box::new(pred_m(*a)), Box::new(pred_m(*b))),
        Pred::Or(a, b) => PredM::Or(Box::new(pred_m(*a)), Box::new(pred_m(*b))),
    }
}

pub open spec fn pattern_m(p: Pattern) -> PatternM {
    match p {
        Pattern::Value(v) => PatternM::Value(v@),
        Pattern::Wildcard => PatternM::Wildcard,
    }
}

/// The text of a key's model.
pub open spec fn key_text_m(k: KeyM) -> Seq<char> {
    ns_text(k.ns) + "."@ + k.name
}

pub open spec fn pred_strength_m(p: PredM) -> nat {
    match p {
        PredM::Or(_, _) => 0,
        PredM::And(_, _) => 1,
        PredM::Not(_) => 2,
        _ => 3,
    }
}

/// The text of a predicate's model, as `pred_text` writes the predicate.
pub open spec fn pred_text_m(p: PredM) -> Seq<char>
    decreases p, 0nat,
{
    match p {
        PredM::Flag(k) => key_text_m(k),
        PredM::Eq(k, v) => key_text_m(k) + " == "@ + debug_quoted(v),
        PredM::Not(a) => "not "@ + pred_operand_m(*a, 2),
        PredM::And(a, b) => pred_operand_m(*a, 1) + " and "@ + pred_operand_m(*b, 1),
        PredM::Or(a, b) => pred_operand_m(*a, 0) + " or "@ + pred_operand_m(*b, 0),
    }
}

pub open spec fn pred_operand_m(p: PredM, strength: nat) -> Seq<char>
    decreases p, 1nat,
{
    if pred_strength_m(p) < strength {
        "("@ + pred_text_m(p) + ")"@
    } else {
        pred_text_m(p)
    }
}

/// The text of a pattern's model.
pub open spec fn pattern_text_m(p: PatternM) -> Seq<char> {
    match p {
        PatternM::Value(v) => v,
        PatternM::Wildcard => "_"@,
    }
}

/// A predicate's text is that of its model.
pub proof fn lemma_pred_text_m(p: Pred)
    ensures
        pred_text(p) == pred_text_m(pred_m(p)),
        forall|s: nat| pred_operand(p, s) == pred_operand_m(pred_m(p), s),
    decreases p,
{
    match p {
        Pred::Not(a) => {
            lemma_pred_text_m(*a);
        },
        Pred::And(a, b) => {
            lemma_pred_text_m(*a);
            lemma_pred_text_m(*b);
        },
        Pred::Or(a, b) => {
            lemma_pred_text_m(*a);
            lemma_pred_text_m(*b);
        },
        _ => {},
    }
    assert(pred_strength(p) == pred_strength_m(pred_m(p)));
}

pub open spec fn origin_m(o: Origin) -> OriginM {
    match o {
        Origin::Literal => OriginM::Literal,
        Origin::Call(f) => OriginM::Call(f@),
        Origin::MatchArm(p) => OriginM::MatchArm(p@),
        Origin::WhenTrue(p) => OriginM::WhenTrue(p@),
        Origin::Propagated { from, prop } => OriginM::Propagated(from@, prop@),
        Origin::Merged { prop, rule } => OriginM::Merged(prop@, rule@),
        Origin::Config => OriginM::Config,
        Origin::Default => OriginM::Default,
    }
}

/// The models of provenance steps.
pub open spec fn steps_m(s: Seq<(Origin, Option<Site>)>) -> Seq<(OriginM, Option<Site>)> {
    s.map_values(|x: (Origin, Option<Site>)| (origin_m(x.0), x.1))
}

/// The steps of a provenance chain.
pub open spec fn prov_m(p: Prov) -> Seq<(OriginM, Option<Site>)> {
    steps_m(p.view())
}

pub open spec fn value_m(v: Value) -> ValueM
    decreases v, 2nat,
{
    ValueM { ty: v.ty, data: data_m(v.data), prov: prov_m(v.prov) }
}

pub open spec fn data_m(d: Data) -> DataM
    decreases d, 1nat,
{
    match d {
        Data::Str(s) => DataM::Str(s@),
        Data::Int(i) => DataM::Int(i),
        Data::Bool(b) => DataM::Bool(b),
        Data::Path(p) => DataM::Path(p.base, p.rel@),
        Data::Glob(s) => DataM::Glob(s@),
        Data::Dep(s) => DataM::Dep(s@),
        Data::Target(s) => DataM::Target(s@),
        Data::List(items) => DataM::List(values_m(items@)),
        Data::MapOf(rows) => DataM::MapOf(rows_m(rows@)),
        Data::Match { scrutinee, arms } => DataM::Match(key_m(scrutinee), arms_m(arms@)),
        Data::When { pred, inner } => DataM::When(pred_m(pred), Box::new(value_m(*inner))),
        Data::PkgRef(s) => DataM::PkgRef(s@),
        Data::Error => DataM::Error,
    }
}

pub open spec fn values_m(s: Seq<Value>) -> Seq<ValueM>
    decreases s, 0nat,
{
    if s.len() == 0 {
        Seq::empty()
    } else {
        values_m(s.subrange(0, s.len() - 1)).push(value_m(s[s.len() - 1]))
    }
}

pub open spec fn rows_m(s: Seq<(String, Value)>) -> Seq<(Seq<char>, ValueM)>
    decreases s, 0nat,
{
    if s.len() == 0 {
        Seq::empty()
    } else {
        rows_m(s.subrange(0, s.len() - 1)).push((s[s.len() - 1].0@, value_m(s[s.len() - 1].1)))
    }
}

pub open spec fn arms_m(s: Seq<MatchArm>) -> Seq<ArmM>
    decreases s, 0nat,
{
    if s.len() == 0 {
        Seq::empty()
    } else {
        arms_m(s.subrange(0, s.len() - 1)).push(
            ArmM {
                pattern: pattern_m(s[s.len() - 1].pattern),
                site: s[s.len() - 1].site,
                value: value_m(s[s.len() - 1].value),
            },
        )
    }
}

/// The models of a sequence have its length, and each its item's model.
pub proof fn lemma_values_m(s: Seq<Value>)
    ensures
        values_m(s).len() == s.len(),
        forall|j: int| 0 <= j < s.len() ==> #[trigger] values_m(s)[j] == value_m(s[j]),
    decreases s.len(),
{
    if s.len() > 0 {
        let p = s.subrange(0, s.len() - 1);
        lemma_values_m(p);
        assert forall|j: int| 0 <= j < s.len() implies #[trigger] values_m(s)[j] == value_m(s[j]) by {
            if j < p.len() {
                assert(p[j] == s[j]);
            }
        }
    }
}

pub proof fn lemma_rows_m(s: Seq<(String, Value)>)
    ensures
        rows_m(s).len() == s.len(),
        forall|j: int|
            0 <= j < s.len() ==> #[trigger] rows_m(s)[j] == (s[j].0@, value_m(s[j].1)),
    decreases s.len(),
{
    if s.len() > 0 {
        let p = s.subrange(0, s.len() - 1);
        lemma_rows_m(p);
        assert forall|j: int| 0 <= j < s.len() implies #[trigger] rows_m(s)[j] == (
            s[j].0@,
            value_m(s[j].1),
        ) by {
            if j < p.len() {
                assert(p[j] == s[j]);
            }
        }
    }
}

pub proof fn lemma_arms_m(s: Seq<MatchArm>)
    ensures
        arms_m(s).len() == s.len(),
        forall|j: int|
            0 <= j < s.len() ==> #[trigger] arms_m(s)[j] == (ArmM {
                pattern: pattern_m(s[j].pattern),
                site: s[j].site,
                value: value_m(s[j].value),
            }),
    decreases s.len(),
{
    if s.len() > 0 {
        let p = s.subrange(0, s.len() - 1);
        lemma_arms_m(p);
        assert forall|j: int| 0 <= j < s.len() implies #[trigger] arms_m(s)[j] == (ArmM {
            pattern: pattern_m(s[j].pattern),
            site: s[j].site,
            value: value_m(s[j].value),
        }) by {
            if j < p.len() {
                assert(p[j] == s[j]);
            }
        }
    }
}

/// The models of two sequences agree when their items' models agree.
pub proof fn lemma_values_m_same(s: Seq<Value>, t: Seq<Value>)
    requires
        s.len() == t.len(),
        forall|j: int| 0 <= j < s.len() ==> value_m(s[j]) == value_m(t[j]),
    ensures
        values_m(s) == values_m(t),
{
    lemma_values_m(s);
    lemma_values_m(t);
    assert(values_m(s) =~= values_m(t));
}

impl Value {
    /// A copy of this value, with the same meaning.
    pub fn copy(&self) -> (r: Value)
        ensures
            value_m(r) == value_m(*self),
        decreases self, 1nat,
    {
        Value { ty: self.ty.copy(), data: self.data.copy(), prov: self.prov.copy() }
    }
}

impl Data {
    /// A copy of what a value holds, with the same meaning.
    pub fn copy(&self) -> (r: Data)
        ensures
            data_m(r) == data_m(*self),
        decreases self, 0nat,
    {
        match self {
            Data::Str(s) => Data::Str(copy_string(s)),
            Data::Int(i) => Data::Int(*i),
            Data::Bool(b) => Data::Bool(*b),
            Data::Path(p) => Data::Path(PathValue { base: p.base, rel: copy_string(&p.rel) }),
            Data::Glob(s) => Data::Glob(copy_string(s)),
            Data::Dep(s) => Data::Dep(copy_string(s)),
            Data::Target(s) => Data::Target(copy_string(s)),
            Data::List(items) => {
                let mut out: Vec<Value> = Vec::new();
                let mut i: usize = 0;
                while i < items.len()
                    invariant
                        i <= items@.len(),
                        *self == Data::List(*items),
                        out@.len() == i,
                        forall|j: int| 0 <= j < i ==> value_m(#[trigger] out@[j]) == value_m(items@[j]),
                    decreases items.len() - i,
                {
                    proof {
                        assert(decreases_to!(*self => self->List_0));
                        vstd::std_specs::vec::axiom_vec_index_decreases(*items, i as int);
                    }
                    let v = items[i].copy();
                    out.push(v);
                    i += 1;
                }
                proof {
                    lemma_values_m_same(out@, items@);
                }
                Data::List(out)
            },
            Data::MapOf(rows) => {
                let mut out: Vec<(String, Value)> = Vec::new();
                let mut i: usize = 0;
                while i < rows.len()
                    invariant
                        i <= rows@.len(),
                        *self == Data::MapOf(*rows),
                        out@.len() == i,
                        forall|j: int|
                            0 <= j < i ==> (#[trigger] out@[j]).0@ == rows@[j].0@ && value_m(out@[j].1)
                                == value_m(rows@[j].1),
                    decreases rows.len() - i,
                {
                    proof {
                        assert(decreases_to!(*self => self->MapOf_0));
                        vstd::std_specs::vec::axiom_vec_index_decreases(*rows, i as int);
                        assert(decreases_to!(rows@[i as int] => rows@[i as int].1));
                    }
                    let row = (copy_string(&rows[i].0), rows[i].1.copy());
                    out.push(row);
                    i += 1;
                }
                proof {
                    lemma_rows_m(out@);
                    lemma_rows_m(rows@);
                    assert(rows_m(out@) =~= rows_m(rows@));
                }
                Data::MapOf(out)
            },
            Data::Match { scrutinee, arms } => {
                let mut out: Vec<MatchArm> = Vec::new();
                let mut i: usize = 0;
                while i < arms.len()
                    invariant
                        i <= arms@.len(),
                        *self == (Data::Match { scrutinee: *scrutinee, arms: *arms }),
                        out@.len() == i,
                        forall|j: int|
                            0 <= j < i ==> (#[trigger] out@[j]).pattern == arms@[j].pattern
                                && out@[j].site == arms@[j].site && value_m(out@[j].value)
                                == value_m(arms@[j].value),
                    decreases arms.len() - i,
                {
                    proof {
                        assert(decreases_to!(*self => self->arms));
                        vstd::std_specs::vec::axiom_vec_index_decreases(*arms, i as int);
                        assert(decreases_to!(arms@[i as int] => arms@[i as int].value));
                    }
                    let arm = MatchArm {
                        pattern: arms[i].pattern.copy(),
                        value: arms[i].value.copy(),
                        site: arms[i].site,
                    };
                    out.push(arm);
                    i += 1;
                }
                proof {
                    lemma_arms_m(out@);
                    lemma_arms_m(arms@);
                    assert(arms_m(out@) =~= arms_m(arms@));
                }
                Data::Match { scrutinee: scrutinee.copy(), arms: out }
            },
            Data::When { pred, inner } => Data::When {
                pred: pred.copy(),
                inner: Box::new(inner.copy()),
            },
            Data::PkgRef(s) => Data::PkgRef(copy_string(s)),
            Data::Error => Data::Error,
        }
    }
}


/// The decimal text of an integer, with a `-` when it is negative.
pub open spec fn int_text(i: i64) -> Seq<char> {
    if i < 0 {
        "-"@ + decimal((-i) as nat)
    } else {
        decimal(i as nat)
    }
}

/// The text of a path: relative to the package as it stands, to the build
/// directory or the sysroot behind a marker.
pub open spec fn path_text_m(base: PathBase, rel: Seq<char>) -> Seq<char> {
    match base {
        PathBase::Package => rel,
        PathBase::BuildDir => "<build>/"@ + rel,
        PathBase::Sysroot => "<sysroot>/"@ + rel,
    }
}

/// How a value is shown in diagnostics and logs.
pub open spec fn value_text(v: ValueM) -> Seq<char>
    decreases v, 2nat,
{
    data_text(v.data)
}

pub open spec fn data_text(d: DataM) -> Seq<char>
    decreases d, 1nat,
{
    match d {
        DataM::Str(s) => debug_quoted(s),
        DataM::Int(i) => int_text(i),
        DataM::Bool(b) => bool_text(b),
        DataM::Path(b, rel) => path_text_m(b, rel),
        DataM::Glob(g) => "glob("@ + debug_quoted(g) + ")"@,
        DataM::Dep(x) => "dep("@ + debug_quoted(x) + ")"@,
        DataM::Target(x) => "target("@ + debug_quoted(x) + ")"@,
        DataM::List(items) => "["@ + list_text(items) + "]"@,
        DataM::MapOf(rows) => "{ "@ + rows_text(rows) + " }"@,
        DataM::Match(k, arms) => "match "@ + key_text_m(k) + " { "@ + arms_text(arms) + " }"@,
        DataM::When(p, inner) => value_text(*inner) + " when "@ + pred_text_m(p),
        DataM::PkgRef(n) => "pkg."@ + n,
        DataM::Error => "<error>"@,
    }
}

/// Values shown one after another, separated by `, `.
pub open spec fn list_text(s: Seq<ValueM>) -> Seq<char>
    decreases s, 0nat,
{
    if s.len() == 0 {
        Seq::empty()
    } else if s.len() == 1 {
        value_text(s[0])
    } else {
        list_text(s.subrange(0, s.len() - 1)) + ", "@ + value_text(s[s.len() - 1])
    }
}

/// Entries shown as `key = value`, separated by `, `.
pub open spec fn rows_text(s: Seq<(Seq<char>, ValueM)>) -> Seq<char>
    decreases s, 0nat,
{
    if s.len() == 0 {
        Seq::empty()
    } else if s.len() == 1 {
        s[0].0 + " = "@ + value_text(s[0].1)
    } else {
        rows_text(s.subrange(0, s.len() - 1)) + ", "@ + s[s.len() - 1].0 + " = "@ + value_text(
            s[s.len() - 1].1,
        )
    }
}

/// Arms shown as `pattern => value`, separated by `, `.
pub open spec fn arms_text(s: Seq<ArmM>) -> Seq<char>
    decreases s, 0nat,
{
    if s.len() == 0 {
        Seq::empty()
    } else if s.len() == 1 {
        pattern_text_m(s[0].pattern) + " => "@ + value_text(s[0].value)
    } else {
        arms_text(s.subrange(0, s.len() - 1)) + ", "@ + pattern_text_m(s[s.len() - 1].pattern)
            + " => "@ + value_text(s[s.len() - 1].value)
    }
}

/// The decimal text of an integer.
pub fn int_string(i: i64) -> (r: String)
    ensures
        r@ == int_text(i),
{
    if i < 0 {
        let mut s = owned("-");
        let m: i128 = -(i as i128);
        let d = decimal_string(m as u128);
        push_str(&mut s, d.as_str());
        s
    } else {
        decimal_string(i as u128)
    }
}

impl Value {
    /// The value as shown in diagnostics and logs.
    pub fn display(&self) -> (r: String)
        ensures
            r@ == value_text(value_m(*self)),
        decreases self, 1nat,
    {
        self.data.display()
    }
}

impl Data {
    /// What a value holds, as shown in diagnostics and logs.
    pub fn display(&self) -> (r: String)
        ensures
            r@ == data_text(data_m(*self)),
        decreases self, 0nat,
    {
        match self {
            Data::Str(s) => debug_quote(s.as_str()),
            Data::Int(i) => int_string(*i),
            Data::Bool(b) => if *b {
                owned("true")
            } else {
                owned("false")
            },
            Data::Path(p) => p.display(),
            Data::Glob(g) => {
                let mut s = owned("glob(");
                push_str(&mut s, debug_quote(g.as_str()).as_str());
                push_str(&mut s, ")");
                s
            },
            Data::Dep(x) => {
                let mut s = owned("dep(");
                push_str(&mut s, debug_quote(x.as_str()).as_str());
                push_str(&mut s, ")");
                s
            },
            Data::Target(x) => {
                let mut s = owned("target(");
                push_str(&mut s, debug_quote(x.as_str()).as_str());
                push_str(&mut s, ")");
                s
            },
            Data::List(items) => {
                let mut s = owned("[");
                let ghost m = values_m(items@);
                proof {
                    lemma_values_m(items@);
                }
                let mut i: usize = 0;
                let mut inner = String::new();
                while i < items.len()
                    invariant
                        i <= items@.len(),
                        *self == Data::List(*items),
                        m == values_m(items@),
                        m.len() == items@.len(),
                        forall|j: int| 0 <= j < items@.len() ==> #[trigger] m[j] == value_m(items@[j]),
                        inner@ == list_text(m.take(i as int)),
                    decreases items.len() - i,
                {
                    proof {
                        assert(decreases_to!(*self => self->List_0));
                        vstd::std_specs::vec::axiom_vec_index_decreases(*items, i as int);
                        assert(m.take(i + 1).subrange(0, i as int) =~= m.take(i as int));
                    }
                    if i > 0 {
                        push_str(&mut inner, ", ");
                    }
                    let t = items[i].display();
                    push_str(&mut inner, t.as_str());
                    i += 1;
                }
                assert(m.take(i as int) =~= m);
                push_str(&mut s, inner.as_str());
                push_str(&mut s, "]");
                s
            },
            Data::MapOf(rows) => {
                let mut s = owned("{ ");
                let ghost m = rows_m(rows@);
                proof {
                    lemma_rows_m(rows@);
                }
                let mut i: usize = 0;
                let mut inner = String::new();
                while i < rows.len()
                    invariant
                        i <= rows@.len(),
                        *self == Data::MapOf(*rows),
                        m == rows_m(rows@),
                        m.len() == rows@.len(),
                        forall|j: int|
                            0 <= j < rows@.len() ==> #[trigger] m[j] == (rows@[j].0@, value_m(
                                rows@[j].1,
                            )),
                        inner@ == rows_text(m.take(i as int)),
                    decreases rows.len() - i,
                {
                    proof {
                        assert(decreases_to!(*self => self->MapOf_0));
                        vstd::std_specs::vec::axiom_vec_index_decreases(*rows, i as int);
                        assert(decreases_to!(rows@[i as int] => rows@[i as int].1));
                        assert(m.take(i + 1).subrange(0, i as int) =~= m.take(i as int));
                    }
                    if i > 0 {
                        push_str(&mut inner, ", ");
                    }
                    push_str(&mut inner, rows[i].0.as_str());
                    push_str(&mut inner, " = ");
                    let t = rows[i].1.display();
                    push_str(&mut inner, t.as_str());
                    i += 1;
                }
                assert(m.take(i as int) =~= m);
                push_str(&mut s, inner.as_str());
                push_str(&mut s, " }");
                s
            },
            Data::Match { scrutinee, arms } => {
                let mut s = owned("match ");
                push_str(&mut s, scrutinee.display().as_str());
                push_str(&mut s, " { ");
                let ghost m = arms_m(arms@);
                proof {
                    lemma_arms_m(arms@);
                }
                let mut i: usize = 0;
                let mut inner = String::new();
                while i < arms.len()
                    invariant
                        i <= arms@.len(),
                        *self == (Data::Match { scrutinee: *scrutinee, arms: *arms }),
                        m == arms_m(arms@),
                        m.len() == arms@.len(),
                        forall|j: int|
                            0 <= j < arms@.len() ==> #[trigger] m[j] == (ArmM {
                                pattern: pattern_m(arms@[j].pattern),
                                site: arms@[j].site,
                                value: value_m(arms@[j].value),
                            }),
                        inner@ == arms_text(m.take(i as int)),
                    decreases arms.len() - i,
                {
                    proof {
                        assert(decreases_to!(*self => self->arms));
                        vstd::std_specs::vec::axiom_vec_index_decreases(*arms, i as int);
                        assert(decreases_to!(arms@[i as int] => arms@[i as int].value));
                        assert(m.take(i + 1).subrange(0, i as int) =~= m.take(i as int));
                        assert(pattern_text(arms@[i as int].pattern) == pattern_text_m(
                            pattern_m(arms@[i as int].pattern),
                        ));
                    }
                    if i > 0 {
                        push_str(&mut inner, ", ");
                    }
                    push_str(&mut inner, arms[i].pattern.display().as_str());
                    push_str(&mut inner, " => ");
                    let t = arms[i].value.display();
                    push_str(&mut inner, t.as_str());
                    i += 1;
                }
                assert(m.take(i as int) =~= m);
                push_str(&mut s, inner.as_str());
                push_str(&mut s, " }");
                s
            },
            Data::When { pred, inner } => {
                proof {
                    lemma_pred_text_m(*pred);
                }
                let mut s = inner.display();
                push_str(&mut s, " when ");
                push_str(&mut s, pred.display().as_str());
                s
            },
            Data::PkgRef(n) => {
                let mut s = owned("pkg.");
                push_str(&mut s, n.as_str());
                s
            },
            Data::Error => owned("<error>"),
        }
    }
}

} // verus!
