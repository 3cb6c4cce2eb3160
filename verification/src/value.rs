//! Types of manifest values, paths, configuration keys, predicates, match
//! patterns and the origins recorded in a value's provenance.

use vstd::prelude::*;
use crate::text::{copy_string, owned, push_str, str_eq};

verus! {

/// The type of a value.
///
/// `Path` is a type of its own, apart from `Str`: the manifest language does
/// not build paths by joining strings.
#[derive(Debug)]
pub enum Type {
    Str,
    Int,
    Bool,
    /// A path whose base is part of its type.
    Path,
    /// `dep("bar")`: a reference to a package dependency.
    DepRef,
    /// `target("foo")`: a reference to a target of the same package.
    TargetRef,
    /// An ABI label, checked with `must_equal`.
    AbiLabel,
    /// A scalar of any kind (`Str`, `Int` or `Bool`).
    Val,
    /// One word of a command line: a `Str`, or a `Path` expanded to an
    /// absolute path.
    Word,
    List(Box<Type>),
    SetOf(Box<Type>),
    MapOf(Box<Type>),
    /// A type parameterised by the configuration, the type of a `match`.
    Cfg(Box<Type>),
    /// A value that failed to type check. Its diagnostic is already out.
    Unknown,
}

/// The text that `Type::display` gives.
pub open spec fn type_text(t: Type) -> Seq<char>
    decreases t,
{
    match t {
        Type::Str => "Str"@,
        Type::Int => "Int"@,
        Type::Bool => "Bool"@,
        Type::Path => "Path"@,
        Type::DepRef => "DepRef"@,
        Type::TargetRef => "TargetRef"@,
        Type::AbiLabel => "AbiLabel"@,
        Type::Val => "Val"@,
        Type::Word => "Str | Path"@,
        Type::List(e) => "List<"@ + type_text(*e) + ">"@,
        Type::SetOf(e) => "Set<"@ + type_text(*e) + ">"@,
        Type::MapOf(e) => "Map<Ident, "@ + type_text(*e) + ">"@,
        Type::Cfg(e) => "Cfg<"@ + type_text(*e) + ">"@,
        Type::Unknown => "?"@,
    }
}

/// The wrapper that a composite type's text starts with.
spec fn wrapper_text(t: Type) -> Seq<char> {
    match t {
        Type::List(_) => "List<"@,
        Type::SetOf(_) => "Set<"@,
        Type::MapOf(_) => "Map<Ident, "@,
        Type::Cfg(_) => "Cfg<"@,
        _ => Seq::empty(),
    }
}

spec fn inner_of(t: Type) -> Type {
    match t {
        Type::List(e) => *e,
        Type::SetOf(e) => *e,
        Type::MapOf(e) => *e,
        Type::Cfg(e) => *e,
        _ => t,
    }
}

spec fn is_composite(t: Type) -> bool {
    t is List || t is SetOf || t is MapOf || t is Cfg
}

proof fn lemma_type_text_shape(t: Type)
    ensures
        type_text(t).len() >= 1,
        is_composite(t) ==> type_text(t) == wrapper_text(t) + type_text(inner_of(t)) + ">"@,
        is_composite(t) <==> type_text(t).last() == '>',
{
    reveal_strlit("Str");
    reveal_strlit("Int");
    reveal_strlit("Bool");
    reveal_strlit("Path");
    reveal_strlit("DepRef");
    reveal_strlit("TargetRef");
    reveal_strlit("AbiLabel");
    reveal_strlit("Val");
    reveal_strlit("Str | Path");
    reveal_strlit("?");
    reveal_strlit(">");
    if is_composite(t) {
        let s = type_text(t);
        assert(s.last() == '>');
    }
}

/// Different types have different texts.
proof fn lemma_type_text_injective(t1: Type, t2: Type)
    requires
        type_text(t1) == type_text(t2),
    ensures
        t1 == t2,
    decreases t1,
{
    reveal_strlit("Str");
    reveal_strlit("Int");
    reveal_strlit("Bool");
    reveal_strlit("Path");
    reveal_strlit("DepRef");
    reveal_strlit("TargetRef");
    reveal_strlit("AbiLabel");
    reveal_strlit("Val");
    reveal_strlit("Str | Path");
    reveal_strlit("?");
    reveal_strlit(">");
    reveal_strlit("List<");
    reveal_strlit("Set<");
    reveal_strlit("Map<Ident, ");
    reveal_strlit("Cfg<");
    lemma_type_text_shape(t1);
    lemma_type_text_shape(t2);
    let s = type_text(t1);
    if is_composite(t1) {
        assert(is_composite(t2));
        let w1 = wrapper_text(t1);
        let w2 = wrapper_text(t2);
        assert(s[0] == w1[0]);
        assert(s[0] == w2[0]);
        assert(w1 == w2);
        let a = type_text(inner_of(t1));
        let b = type_text(inner_of(t2));
        assert(a =~= s.subrange(w1.len() as int, s.len() - 1));
        assert(b =~= s.subrange(w1.len() as int, s.len() - 1));
        lemma_type_text_injective(inner_of(t1), inner_of(t2));
    } else {
        assert(!is_composite(t2));
        assert(s.len() == type_text(t2).len());
        assert(s[0] == type_text(t2)[0]);
    }
}

/// A type's text tells it apart from every other type's.
pub proof fn law_type_text_distinguishes(t1: Type, t2: Type)
    ensures
        (type_text(t1) == type_text(t2)) == (t1 == t2),
{
    if type_text(t1) == type_text(t2) {
        lemma_type_text_injective(t1, t2);
    }
}

/// The number of constructors in a type, a measure for recursion.
pub open spec fn type_size(t: Type) -> nat
    decreases t,
{
    match t {
        Type::List(e) => 1 + type_size(*e),
        Type::SetOf(e) => 1 + type_size(*e),
        Type::MapOf(e) => 1 + type_size(*e),
        Type::Cfg(e) => 1 + type_size(*e),
        _ => 1,
    }
}

/// The type with every outer `Cfg<..>` removed.
pub open spec fn type_concrete(t: Type) -> Type
    decreases t,
{
    match t {
        Type::Cfg(e) => type_concrete(*e),
        _ => t,
    }
}

/// Whether a value of type `b` may be assigned where `a` is declared.
/// `Unknown` on either side is accepted, so that an error does not cascade.
pub open spec fn type_accepts(a: Type, b: Type) -> bool
    decreases type_size(a) + type_size(b),
{
    if a is Unknown || b is Unknown {
        true
    } else {
        match (a, b) {
            (Type::Cfg(x), _) => type_accepts(*x, b),
            (Type::AbiLabel, Type::Str) => true,
            (Type::Val, Type::Str) => true,
            (Type::Val, Type::Int) => true,
            (Type::Val, Type::Bool) => true,
            (Type::Val, Type::Val) => true,
            (Type::Word, Type::Str) => true,
            (Type::Word, Type::Path) => true,
            (Type::Word, Type::Word) => true,
            (_, Type::Cfg(y)) => type_accepts(a, *y),
            (Type::List(x), Type::List(y)) => type_accepts(*x, *y),
            (Type::SetOf(x), Type::SetOf(y)) => type_accepts(*x, *y),
            (Type::SetOf(x), Type::List(y)) => type_accepts(*x, *y),
            (Type::List(x), Type::SetOf(y)) => type_accepts(*x, *y),
            (Type::MapOf(x), Type::MapOf(y)) => type_accepts(*x, *y),
            _ => a == b,
        }
    }
}

impl Type {
    /// The type's name as written in diagnostics and in the schema.
    pub fn display(&self) -> (s: String)
        ensures
            s@ == type_text(*self),
        decreases self, 0nat,
    {
        match self {
            Type::Str => owned("Str"),
            Type::Int => owned("Int"),
            Type::Bool => owned("Bool"),
            Type::Path => owned("Path"),
            Type::DepRef => owned("DepRef"),
            Type::TargetRef => owned("TargetRef"),
            Type::AbiLabel => owned("AbiLabel"),
            Type::Val => owned("Val"),
            Type::Word => owned("Str | Path"),
            Type::List(e) => wrapped("List<", e),
            Type::SetOf(e) => wrapped("Set<", e),
            Type::MapOf(e) => wrapped("Map<Ident, ", e),
            Type::Cfg(e) => wrapped("Cfg<", e),
            Type::Unknown => owned("?"),
        }
    }

    /// The element type of a list, set or map; `None` for other types.
    pub fn elem(&self) -> (r: Option<&Type>)
        ensures
            r == match *self {
                Type::List(e) => Some(&*e),
                Type::SetOf(e) => Some(&*e),
                Type::MapOf(e) => Some(&*e),
                _ => None::<&Type>,
            },
    {
        match self {
            Type::List(t) => Some(&**t),
            Type::SetOf(t) => Some(&**t),
            Type::MapOf(t) => Some(&**t),
            _ => None,
        }
    }

    /// The type with its `Cfg<..>` layers removed.
    pub fn concrete(&self) -> (r: &Type)
        ensures
            *r == type_concrete(*self),
        decreases self,
    {
        match self {
            Type::Cfg(t) => t.concrete(),
            _ => self,
        }
    }

    /// Whether a value of type `other` may be assigned to this type.
    pub fn accepts(&self, other: &Type) -> (r: bool)
        ensures
            r == type_accepts(*self, *other),
        decreases type_size(*self) + type_size(*other),
    {
        if matches!(self, Type::Unknown) || matches!(other, Type::Unknown) {
            return true;
        }
        match (self, other) {
            (Type::Cfg(a), _) => a.accepts(other),
            (Type::AbiLabel, Type::Str) => true,
            (Type::Val, Type::Str) => true,
            (Type::Val, Type::Int) => true,
            (Type::Val, Type::Bool) => true,
            (Type::Val, Type::Val) => true,
            (Type::Word, Type::Str) => true,
            (Type::Word, Type::Path) => true,
            (Type::Word, Type::Word) => true,
            (_, Type::Cfg(b)) => self.accepts(b),
            (Type::List(a), Type::List(b)) => a.accepts(b),
            (Type::SetOf(a), Type::SetOf(b)) => a.accepts(b),
            (Type::SetOf(a), Type::List(b)) => a.accepts(b),
            (Type::List(a), Type::SetOf(b)) => a.accepts(b),
            (Type::MapOf(a), Type::MapOf(b)) => a.accepts(b),
            _ => self.same(other),
        }
    }

    /// Whether two types are the same type.
    pub fn same(&self, other: &Type) -> (r: bool)
        ensures
            r == (*self == *other),
        decreases self,
    {
        match (self, other) {
            (Type::Str, Type::Str) => true,
            (Type::Int, Type::Int) => true,
            (Type::Bool, Type::Bool) => true,
            (Type::Path, Type::Path) => true,
            (Type::DepRef, Type::DepRef) => true,
            (Type::TargetRef, Type::TargetRef) => true,
            (Type::AbiLabel, Type::AbiLabel) => true,
            (Type::Val, Type::Val) => true,
            (Type::Word, Type::Word) => true,
            (Type::Unknown, Type::Unknown) => true,
            (Type::List(a), Type::List(b)) => a.same(b),
            (Type::SetOf(a), Type::SetOf(b)) => a.same(b),
            (Type::MapOf(a), Type::MapOf(b)) => a.same(b),
            (Type::Cfg(a), Type::Cfg(b)) => a.same(b),
            _ => false,
        }
    }

    /// A copy of this type.
    pub fn copy(&self) -> (r: Type)
        ensures
            r == *self,
        decreases self,
    {
        match self {
            Type::Str => Type::Str,
            Type::Int => Type::Int,
            Type::Bool => Type::Bool,
            Type::Path => Type::Path,
            Type::DepRef => Type::DepRef,
            Type::TargetRef => Type::TargetRef,
            Type::AbiLabel => Type::AbiLabel,
            Type::Val => Type::Val,
            Type::Word => Type::Word,
            Type::Unknown => Type::Unknown,
            Type::List(a) => Type::List(Box::new(a.copy())),
            Type::SetOf(a) => Type::SetOf(Box::new(a.copy())),
            Type::MapOf(a) => Type::MapOf(Box::new(a.copy())),
            Type::Cfg(a) => Type::Cfg(Box::new(a.copy())),
        }
    }
}

impl Clone for Type {
    fn clone(&self) -> (r: Type)
        ensures
            r == *self,
    {
        self.copy()
    }
}

fn wrapped(open: &str, inner: &Type) -> (s: String)
    ensures
        s@ == open@ + type_text(*inner) + ">"@,
    decreases inner, 1nat,
{
    let mut s = owned(open);
    let t = inner.display();
    push_str(&mut s, t.as_str());
    push_str(&mut s, ">");
    s
}

/// The base a path is relative to.
#[derive(Clone, Copy, PartialEq, Eq, Structural, Debug)]
pub enum PathBase {
    /// The root of the package the manifest belongs to
    Package,
    /// The build directory of the configuration
    BuildDir,
    /// The toolchain's sysroot
    Sysroot,
}

/// A path: a base and a `/`-separated path relative to it.
#[derive(Clone, Debug)]
pub struct PathValue {
    pub base: PathBase,
    pub rel: String,
}

/// The text that `PathValue::display` gives.
pub open spec fn path_text(p: PathValue) -> Seq<char> {
    match p.base {
        PathBase::Package => p.rel@,
        PathBase::BuildDir => "<build>/"@ + p.rel@,
        PathBase::Sysroot => "<sysroot>/"@ + p.rel@,
    }
}

impl PathValue {
    pub fn display(&self) -> (s: String)
        ensures
            s@ == path_text(*self),
    {
        match self.base {
            PathBase::Package => copy_string(&self.rel),
            PathBase::BuildDir => {
                let mut s = owned("<build>/");
                push_str(&mut s, self.rel.as_str());
                s
            },
            PathBase::Sysroot => {
                let mut s = owned("<sysroot>/");
                push_str(&mut s, self.rel.as_str());
                s
            },
        }
    }
}

/// A namespace of configuration keys.
#[derive(Clone, Copy, PartialEq, Eq, Structural, Debug)]
pub enum Ns {
    Cfg,
    Host,
    /// Properties of the machine built for, read off the target triple
    Target,
    Feature,
    Tc,
    /// Package constants. Not an axis of the configuration: they are never a
    /// `match` scrutinee or a `when` predicate, but may stand as values.
    Pkg,
}

/// The name of a namespace.
pub open spec fn ns_text(ns: Ns) -> Seq<char> {
    match ns {
        Ns::Cfg => "cfg"@,
        Ns::Host => "host"@,
        Ns::Target => "target"@,
        Ns::Feature => "feature"@,
        Ns::Tc => "tc"@,
        Ns::Pkg => "pkg"@,
    }
}

impl Ns {
    /// The namespace with the given name.
    pub fn parse(s: &str) -> (r: Option<Ns>)
        ensures
            r == (if s@ == "cfg"@ {
                Some(Ns::Cfg)
            } else if s@ == "host"@ {
                Some(Ns::Host)
            } else if s@ == "target"@ {
                Some(Ns::Target)
            } else if s@ == "feature"@ {
                Some(Ns::Feature)
            } else if s@ == "tc"@ {
                Some(Ns::Tc)
            } else if s@ == "pkg"@ {
                Some(Ns::Pkg)
            } else {
                None
            }),
    {
        proof {
            reveal_strlit("cfg");
            reveal_strlit("host");
            reveal_strlit("target");
            reveal_strlit("feature");
            reveal_strlit("tc");
            reveal_strlit("pkg");
        }
        if str_eq(s, "cfg") {
            Some(Ns::Cfg)
        } else if str_eq(s, "host") {
            Some(Ns::Host)
        } else if str_eq(s, "target") {
            Some(Ns::Target)
        } else if str_eq(s, "feature") {
            Some(Ns::Feature)
        } else if str_eq(s, "tc") {
            Some(Ns::Tc)
        } else if str_eq(s, "pkg") {
            Some(Ns::Pkg)
        } else {
            None
        }
    }

    pub fn name(self) -> (r: &'static str)
        ensures
            r@ == ns_text(self),
    {
        match self {
            Ns::Cfg => "cfg",
            Ns::Host => "host",
            Ns::Target => "target",
            Ns::Feature => "feature",
            Ns::Tc => "tc",
            Ns::Pkg => "pkg",
        }
    }
}

/// A configuration key, such as `cfg.opt`.
#[derive(Clone, Debug)]
pub struct CfgKey {
    pub ns: Ns,
    pub name: String,
}

/// The text of a key: `<namespace>.<name>`.
pub open spec fn key_text(k: CfgKey) -> Seq<char> {
    ns_text(k.ns) + "."@ + k.name@
}

impl CfgKey {
    pub fn display(&self) -> (s: String)
        ensures
            s@ == key_text(*self),
    {
        let mut s = owned(self.ns.name());
        push_str(&mut s, ".");
        push_str(&mut s, self.name.as_str());
        s
    }

    /// A copy of this key.
    pub fn copy(&self) -> (r: CfgKey)
        ensures
            r == *self,
    {
        CfgKey { ns: self.ns, name: copy_string(&self.name) }
    }
}

/// How `{:?}` writes a string: in double quotes, with quotes, backslashes
/// and unprintable characters escaped.
pub uninterp spec fn debug_quoted(s: Seq<char>) -> Seq<char>;

/// Formats a string with std's `Debug` for `str`. The contract names the
/// result (`debug_quoted`) as a function of the characters alone; the escape
/// rules themselves are std's and are not restated here.
#[verifier::external_body]
pub fn debug_quote(s: &str) -> (r: String)
    ensures
        r@ == debug_quoted(s@),
{
    format!("{:?}", s)
}

/// A `when` predicate. Composed predicates are kept as a tree.
#[derive(Debug)]
pub enum Pred {
    /// `when feature.zlib`: the key read as a boolean
    Flag(CfgKey),
    /// `when cfg.opt == "release"`
    Eq(CfgKey, String),
    /// `not p`
    Not(Box<Pred>),
    /// `a and b`
    And(Box<Pred>, Box<Pred>),
    /// `a or b`
    Or(Box<Pred>, Box<Pred>),
}

/// Binding strength of a predicate's outermost operator: `or` binds
/// loosest, then `and`, then `not`; a leaf binds tightest.
pub open spec fn pred_strength(p: Pred) -> nat {
    match p {
        Pred::Or(_, _) => 0,
        Pred::And(_, _) => 1,
        Pred::Not(_) => 2,
        _ => 3,
    }
}

/// The text of a predicate as the manifest writes it, with parentheses
/// only where the tree would otherwise read back differently.
pub open spec fn pred_text(p: Pred) -> Seq<char>
    decreases p, 0nat,
{
    match p {
        Pred::Flag(k) => key_text(k),
        Pred::Eq(k, v) => key_text(k) + " == "@ + debug_quoted(v@),
        Pred::Not(a) => "not "@ + pred_operand(*a, 2),
        Pred::And(a, b) => pred_operand(*a, 1) + " and "@ + pred_operand(*b, 1),
        Pred::Or(a, b) => pred_operand(*a, 0) + " or "@ + pred_operand(*b, 0),
    }
}

/// The text of an operand of an operator of the given strength.
pub open spec fn pred_operand(p: Pred, strength: nat) -> Seq<char>
    decreases p, 1nat,
{
    if pred_strength(p) < strength {
        "("@ + pred_text(p) + ")"@
    } else {
        pred_text(p)
    }
}

/// Every key a predicate reads, left to right.
pub open spec fn pred_keys(p: Pred) -> Seq<CfgKey>
    decreases p,
{
    match p {
        Pred::Flag(k) => seq![k],
        Pred::Eq(k, _) => seq![k],
        Pred::Not(a) => pred_keys(*a),
        Pred::And(a, b) => pred_keys(*a) + pred_keys(*b),
        Pred::Or(a, b) => pred_keys(*a) + pred_keys(*b),
    }
}

impl Pred {
    pub fn display(&self) -> (s: String)
        ensures
            s@ == pred_text(*self),
        decreases self, 0nat,
    {
        match self {
            Pred::Flag(k) => k.display(),
            Pred::Eq(k, v) => {
                let mut s = k.display();
                push_str(&mut s, " == ");
                let q = debug_quote(v.as_str());
                push_str(&mut s, q.as_str());
                s
            },
            Pred::Not(a) => {
                let mut s = owned("not ");
                let t = a.operand(2);
                push_str(&mut s, t.as_str());
                s
            },
            Pred::And(a, b) => {
                let mut s = a.operand(1);
                push_str(&mut s, " and ");
                let t = b.operand(1);
                push_str(&mut s, t.as_str());
                s
            },
            Pred::Or(a, b) => {
                let mut s = a.operand(0);
                push_str(&mut s, " or ");
                let t = b.operand(0);
                push_str(&mut s, t.as_str());
                s
            },
        }
    }

    fn strength(&self) -> (r: u8)
        ensures
            r as nat == pred_strength(*self),
    {
        match self {
            Pred::Or(_, _) => 0,
            Pred::And(_, _) => 1,
            Pred::Not(_) => 2,
            _ => 3,
        }
    }

    fn operand(&self, strength: u8) -> (s: String)
        ensures
            s@ == pred_operand(*self, strength as nat),
        decreases self, 1nat,
    {
        if self.strength() < strength {
            let mut s = owned("(");
            let t = self.display();
            push_str(&mut s, t.as_str());
            push_str(&mut s, ")");
            s
        } else {
            self.display()
        }
    }

    /// A copy of this predicate.
    pub fn copy(&self) -> (r: Pred)
        ensures
            r == *self,
        decreases self,
    {
        match self {
            Pred::Flag(k) => Pred::Flag(k.copy()),
            Pred::Eq(k, v) => Pred::Eq(k.copy(), copy_string(v)),
            Pred::Not(a) => Pred::Not(Box::new(a.copy())),
            Pred::And(a, b) => Pred::And(Box::new(a.copy()), Box::new(b.copy())),
            Pred::Or(a, b) => Pred::Or(Box::new(a.copy()), Box::new(b.copy())),
        }
    }

    /// The key of a leaf predicate (`Flag` or `Eq`).
    pub fn key(&self) -> (r: &CfgKey)
        requires
            self is Flag || self is Eq,
        ensures
            match *self {
                Pred::Flag(k) => *r == k,
                Pred::Eq(k, _) => *r == k,
                _ => false,
            },
    {
        match self {
            Pred::Flag(k) => k,
            Pred::Eq(k, _) => k,
            _ => vstd::pervasive::unreached(),
        }
    }

    /// Every key the predicate reads, left to right.
    pub fn keys(&self) -> (r: Vec<&CfgKey>)
        ensures
            r@.len() == pred_keys(*self).len(),
            forall|i: int| 0 <= i < r@.len() ==> *#[trigger] r@[i] == pred_keys(*self)[i],
        decreases self,
    {
        match self {
            Pred::Flag(k) => {
                let mut v: Vec<&CfgKey> = Vec::new();
                v.push(k);
                v
            },
            Pred::Eq(k, _) => {
                let mut v: Vec<&CfgKey> = Vec::new();
                v.push(k);
                v
            },
            Pred::Not(a) => a.keys(),
            Pred::And(a, b) => {
                let mut v = a.keys();
                let mut w = b.keys();
                let ghost va = v@;
                v.append(&mut w);
                v
            },
            Pred::Or(a, b) => {
                let mut v = a.keys();
                let mut w = b.keys();
                v.append(&mut w);
                v
            },
        }
    }
}

impl Clone for Pred {
    fn clone(&self) -> (r: Pred)
        ensures
            r == *self,
    {
        self.copy()
    }
}

/// The left side of a `match` arm.
#[derive(Clone, Debug)]
pub enum Pattern {
    Value(String),
    Wildcard,
}

/// The text of a pattern.
pub open spec fn pattern_text(p: Pattern) -> Seq<char> {
    match p {
        Pattern::Value(v) => v@,
        Pattern::Wildcard => "_"@,
    }
}

impl Pattern {
    pub fn display(&self) -> (s: String)
        ensures
            s@ == pattern_text(*self),
    {
        match self {
            Pattern::Value(v) => copy_string(v),
            Pattern::Wildcard => owned("_"),
        }
    }
}

/// Why a value has the shape it has.
#[derive(Clone, Debug)]
pub enum Origin {
    /// Written directly in the source
    Literal,
    /// The result of a call such as `glob(...)`
    Call(String),
    /// The arm of a `match` that was chosen
    MatchArm(String),
    /// A `when` whose predicate held
    WhenTrue(String),
    /// Propagated from a dependency's public property
    Propagated { from: String, prop: String },
    /// Several arriving values merged into one
    Merged { prop: String, rule: &'static str },
    /// Given by the configuration
    Config,
    /// A default supplied by the implementation
    Default,
}

/// The text of an origin, one step of `dowel why`.
pub open spec fn origin_text(o: Origin) -> Seq<char> {
    match o {
        Origin::Literal => "literal"@,
        Origin::Call(f) => f@ + "(...)"@,
        Origin::MatchArm(p) => "match arm `"@ + p@ + "`"@,
        Origin::WhenTrue(p) => "when "@ + p@,
        Origin::Propagated { from, prop } => prop@ + " of "@ + from@,
        Origin::Merged { prop, rule } => "merge of "@ + prop@ + " ("@ + rule@ + ")"@,
        Origin::Config => "configuration"@,
        Origin::Default => "default"@,
    }
}

impl Origin {
    pub fn display(&self) -> (s: String)
        ensures
            s@ == origin_text(*self),
    {
        match self {
            Origin::Literal => owned("literal"),
            Origin::Call(f) => {
                let mut s = copy_string(f);
                push_str(&mut s, "(...)");
                s
            },
            Origin::MatchArm(p) => {
                let mut s = owned("match arm `");
                push_str(&mut s, p.as_str());
                push_str(&mut s, "`");
                s
            },
            Origin::WhenTrue(p) => {
                let mut s = owned("when ");
                push_str(&mut s, p.as_str());
                s
            },
            Origin::Propagated { from, prop } => {
                let mut s = copy_string(prop);
                push_str(&mut s, " of ");
                push_str(&mut s, from.as_str());
                s
            },
            Origin::Merged { prop, rule } => {
                let mut s = owned("merge of ");
                push_str(&mut s, prop.as_str());
                push_str(&mut s, " (");
                push_str(&mut s, rule);
                push_str(&mut s, ")");
                s
            },
            Origin::Config => owned("configuration"),
            Origin::Default => owned("default"),
        }
    }
}

impl Origin {
    /// A copy of this origin.
    pub fn copy(&self) -> (r: Origin)
        ensures
            r == *self,
    {
        match self {
            Origin::Literal => Origin::Literal,
            Origin::Call(f) => Origin::Call(copy_string(f)),
            Origin::MatchArm(p) => Origin::MatchArm(copy_string(p)),
            Origin::WhenTrue(p) => Origin::WhenTrue(copy_string(p)),
            Origin::Propagated { from, prop } => Origin::Propagated {
                from: copy_string(from),
                prop: copy_string(prop),
            },
            Origin::Merged { prop, rule } => Origin::Merged { prop: copy_string(prop), rule: *rule },
            Origin::Config => Origin::Config,
            Origin::Default => Origin::Default,
        }
    }
}

impl Pattern {
    /// A copy of this pattern.
    pub fn copy(&self) -> (r: Pattern)
        ensures
            r == *self,
    {
        match self {
            Pattern::Value(v) => Pattern::Value(copy_string(v)),
            Pattern::Wildcard => Pattern::Wildcard,
        }
    }
}

/// The identity of a source file: a hash of its normalised path, stable
/// across processes, so that stored values keep pointing at their files.
#[derive(Clone, Copy, PartialEq, Eq, Structural, Debug)]
pub struct FileId(pub u64);

/// A range of bytes in a source file.
#[derive(Clone, Copy, PartialEq, Eq, Structural, Debug)]
pub struct Span {
    pub start: u32,
    pub end: u32,
}

impl Span {
    /// The empty span at the start of a file.
    pub fn empty() -> (r: Span)
        ensures
            r == (Span { start: 0, end: 0 }),
    {
        Span { start: 0, end: 0 }
    }

    pub fn new(start: u32, end: u32) -> (r: Span)
        ensures
            r == (Span { start, end }),
    {
        Span { start, end }
    }
}

/// A place in the source.
#[derive(Clone, Copy, PartialEq, Eq, Structural, Debug)]
pub struct Site {
    pub file: FileId,
    pub span: Span,
}

impl Site {
    pub fn new(file: FileId, span: Span) -> (r: Site)
        ensures
            r == (Site { file, span }),
    {
        Site { file, span }
    }
}

/// The nearest site of a provenance chain: the first step that has one.
pub open spec fn nearest_site_of(chain: Seq<(Origin, Option<Site>)>) -> Option<Site>
    decreases chain.len(),
{
    if chain.len() == 0 {
        None
    } else if chain[0].1 is Some {
        chain[0].1
    } else {
        nearest_site_of(chain.drop_first())
    }
}

/// Why a value has the shape it has: a chain of steps from the value back
/// to where it was written, nearest step first.
#[derive(Debug)]
pub struct Prov {
    chain: Vec<(Origin, Option<Site>)>,
}

/// Copies a chain of provenance steps.
fn copy_chain(s: &[(Origin, Option<Site>)], out: &mut Vec<(Origin, Option<Site>)>)
    ensures
        final(out)@ == old(out)@ + s@,
{
    let ghost start = out@;
    let mut i: usize = 0;
    while i < s.len()
        invariant
            i <= s@.len(),
            out@ == start + s@.take(i as int),
        decreases s.len() - i,
    {
        let step = (s[i].0.copy(), s[i].1);
        out.push(step);
        i += 1;
        assert(out@ =~= start + s@.take(i as int));
    }
    assert(s@.take(s@.len() as int) =~= s@);
}

impl Prov {
    /// The steps, nearest first.
    pub closed spec fn view(&self) -> Seq<(Origin, Option<Site>)> {
        self.chain@
    }

    /// No provenance at all.
    pub fn none() -> (r: Prov)
        ensures
            r.view() == Seq::<(Origin, Option<Site>)>::empty(),
    {
        let r = Prov { chain: Vec::new() };
        assert(r.view() =~= Seq::<(Origin, Option<Site>)>::empty());
        r
    }

    /// A chain of one step.
    pub fn new(origin: Origin, site: Option<Site>) -> (r: Prov)
        ensures
            r.view() == seq![(origin, site)],
    {
        let mut chain = Vec::new();
        chain.push((origin, site));
        let r = Prov { chain };
        assert(r.view() =~= seq![(origin, site)]);
        r
    }

    /// A chain of one step at a known site.
    pub fn at(origin: Origin, site: Site) -> (r: Prov)
        ensures
            r.view() == seq![(origin, Some(site))],
    {
        Prov::new(origin, Some(site))
    }

    /// This chain with one more step in front of it.
    pub fn with_step(&self, origin: Origin, site: Option<Site>) -> (r: Prov)
        ensures
            r.view() == seq![(origin, site)] + self.view(),
    {
        let mut chain = Vec::new();
        chain.push((origin, site));
        copy_chain(self.chain.as_slice(), &mut chain);
        Prov { chain }
    }

    /// A copy of this chain.
    pub fn copy(&self) -> (r: Prov)
        ensures
            r.view() == self.view(),
    {
        let mut chain = Vec::new();
        copy_chain(self.chain.as_slice(), &mut chain);
        let r = Prov { chain };
        assert(r.view() =~= self.view());
        r
    }

    /// Builds a chain from its steps, nearest first.
    pub fn from_steps(steps: Vec<(Origin, Option<Site>)>) -> (r: Prov)
        ensures
            r.view() == steps@,
    {
        Prov { chain: steps }
    }

    /// The origin of the nearest step.
    pub fn origin(&self) -> (r: Option<&Origin>)
        ensures
            match r {
                Some(o) => self.view().len() > 0 && *o == self.view()[0].0,
                None => self.view().len() == 0,
            },
    {
        if self.chain.len() == 0 {
            None
        } else {
            Some(&self.chain[0].0)
        }
    }

    /// The site of the nearest step, if it has one.
    pub fn site(&self) -> (r: Option<Site>)
        ensures
            r == (if self.view().len() == 0 {
                None
            } else {
                self.view()[0].1
            }),
    {
        if self.chain.len() == 0 {
            None
        } else {
            self.chain[0].1
        }
    }

    /// The nearest site: this step's, or else that of the first step
    /// further back that has one.
    pub fn nearest_site(&self) -> (r: Option<Site>)
        ensures
            r == nearest_site_of(self.view()),
    {
        let mut i: usize = 0;
        assert(self.view().skip(0) =~= self.view());
        while i < self.chain.len()
            invariant
                i <= self.chain@.len(),
                nearest_site_of(self.view()) == nearest_site_of(self.view().skip(i as int)),
            decreases self.chain.len() - i,
        {
            assert(self.view().skip(i as int)[0] == self.chain@[i as int]);
            if self.chain[i].1.is_some() {
                return self.chain[i].1;
            }
            assert(self.view().skip(i as int).drop_first() =~= self.view().skip(i + 1));
            i += 1;
        }
        assert(self.view().skip(i as int).len() == 0);
        None
    }

    /// The steps back to the root, nearest first: what `dowel why` shows.
    pub fn chain(&self) -> (r: Vec<(Origin, Option<Site>)>)
        ensures
            r@ == self.view(),
    {
        let mut out = Vec::new();
        copy_chain(self.chain.as_slice(), &mut out);
        assert(out@ =~= self.view());
        out
    }

    /// The number of steps.
    pub fn len(&self) -> (r: usize)
        ensures
            r == self.view().len(),
    {
        self.chain.len()
    }

    /// The `i`-th step, nearest first.
    pub fn step(&self, i: usize) -> (r: &(Origin, Option<Site>))
        requires
            i < self.view().len(),
        ensures
            *r == self.view()[i as int],
    {
        &self.chain[i]
    }
}

/// One arm of a `match`.
#[derive(Debug)]
pub struct MatchArm {
    pub pattern: Pattern,
    pub value: Value,
    pub site: Site,
}

/// What a value holds.
#[derive(Debug)]
pub enum Data {
    Str(String),
    Int(i64),
    Bool(bool),
    Path(PathValue),
    /// `glob("src/**.c")`. The files are listed when the build is planned:
    /// listing them here would mix an unrecorded input, the file system at
    /// that moment, into the result.
    Glob(String),
    Dep(String),
    Target(String),
    List(Vec<Value>),
    /// A map, in increasing order of its keys, one entry per key.
    MapOf(Vec<(String, Value)>),
    /// A value that depends on the configuration, kept until specialised.
    Match { scrutinee: CfgKey, arms: Vec<MatchArm> },
    /// A value with a predicate; specialising keeps it or drops it.
    When { pred: Pred, inner: Box<Value> },
    /// A reference to a package constant, filled in when specialised.
    PkgRef(String),
    /// Where an error was; its diagnostic is already out.
    Error,
}

/// A value: its type, what it holds, and why.
#[derive(Debug)]
pub struct Value {
    pub ty: Type,
    pub data: Data,
    pub prov: Prov,
}

/// Whether a value depends on the configuration anywhere inside it.
pub open spec fn value_conditional(v: Value) -> bool
    decreases v, 2nat,
{
    data_conditional(v.data)
}

pub open spec fn data_conditional(d: Data) -> bool
    decreases d, 1nat,
{
    match d {
        Data::Match { .. } => true,
        Data::When { .. } => true,
        Data::List(items) => values_conditional(items@),
        Data::MapOf(rows) => rows_conditional(rows@),
        _ => false,
    }
}

pub open spec fn values_conditional(s: Seq<Value>) -> bool
    decreases s, 0nat,
{
    if s.len() == 0 {
        false
    } else {
        values_conditional(s.subrange(0, s.len() - 1)) || value_conditional(s[s.len() - 1])
    }
}

pub open spec fn rows_conditional(s: Seq<(String, Value)>) -> bool
    decreases s, 0nat,
{
    if s.len() == 0 {
        false
    } else {
        rows_conditional(s.subrange(0, s.len() - 1)) || value_conditional(s[s.len() - 1].1)
    }
}

impl Value {
    pub fn new(ty: Type, data: Data, prov: Prov) -> (r: Value)
        ensures
            r == (Value { ty, data, prov }),
    {
        Value { ty, data, prov }
    }

    /// A value standing for an error whose diagnostic is already out.
    pub fn error(prov: Prov) -> (r: Value)
        ensures
            r == (Value { ty: Type::Unknown, data: Data::Error, prov }),
    {
        Value { ty: Type::Unknown, data: Data::Error, prov }
    }

    pub fn str(s: String, prov: Prov) -> (r: Value)
        ensures
            r == (Value { ty: Type::Str, data: Data::Str(s), prov }),
    {
        Value { ty: Type::Str, data: Data::Str(s), prov }
    }

    /// A list whose elements have type `ty`.
    pub fn list(ty: Type, items: Vec<Value>, prov: Prov) -> (r: Value)
        ensures
            r == (Value { ty: Type::List(Box::new(ty)), data: Data::List(items), prov }),
    {
        Value { ty: Type::List(Box::new(ty)), data: Data::List(items), prov }
    }

    pub fn is_error(&self) -> (r: bool)
        ensures
            r == (self.data is Error),
    {
        match self.data {
            Data::Error => true,
            _ => false,
        }
    }

    /// Whether the value depends on the configuration: whether it is, or
    /// holds anywhere inside it, a `match` or a `when`.
    pub fn is_conditional(&self) -> (r: bool)
        ensures
            r == value_conditional(*self),
        decreases self, 2nat,
    {
        match &self.data {
            Data::Match { .. } => true,
            Data::When { .. } => true,
            Data::List(items) => {
                let mut i: usize = 0;
                while i < items.len()
                    invariant
                        i <= items@.len(),
                        self.data == Data::List(*items),
                        values_conditional(items@.take(i as int)) == false,
                    decreases items.len() - i,
                {
                    assert(items@.take(i + 1).subrange(0, i as int) =~= items@.take(i as int));
                    proof {
                        assert(decreases_to!(self.data => self.data->List_0));
                        vstd::std_specs::vec::axiom_vec_index_decreases(*items, i as int);
                    }
                    if items[i].is_conditional() {
                        proof {
                            lemma_values_conditional_prefix(items@, i as int + 1);
                        }
                        return true;
                    }
                    i += 1;
                }
                assert(items@.take(i as int) =~= items@);
                false
            },
            Data::MapOf(rows) => {
                let mut i: usize = 0;
                while i < rows.len()
                    invariant
                        i <= rows@.len(),
                        self.data == Data::MapOf(*rows),
                        rows_conditional(rows@.take(i as int)) == false,
                    decreases rows.len() - i,
                {
                    assert(rows@.take(i + 1).subrange(0, i as int) =~= rows@.take(i as int));
                    proof {
                        assert(decreases_to!(self.data => self.data->MapOf_0));
                        vstd::std_specs::vec::axiom_vec_index_decreases(*rows, i as int);
                        assert(decreases_to!(rows@[i as int] => rows@[i as int].1));
                    }
                    if rows[i].1.is_conditional() {
                        proof {
                            lemma_rows_conditional_prefix(rows@, i as int + 1);
                        }
                        return true;
                    }
                    i += 1;
                }
                assert(rows@.take(i as int) =~= rows@);
                false
            },
            _ => false,
        }
    }

    pub fn as_str(&self) -> (r: Option<&str>)
        ensures
            match self.data {
                Data::Str(s) => r is Some && r->0@ == s@,
                _ => r is None,
            },
    {
        match &self.data {
            Data::Str(s) => Some(s.as_str()),
            _ => None,
        }
    }

    pub fn as_int(&self) -> (r: Option<i64>)
        ensures
            r == (match self.data {
                Data::Int(i) => Some(i),
                _ => None,
            }),
    {
        match &self.data {
            Data::Int(i) => Some(*i),
            _ => None,
        }
    }

    pub fn as_bool(&self) -> (r: Option<bool>)
        ensures
            r == (match self.data {
                Data::Bool(b) => Some(b),
                _ => None,
            }),
    {
        match &self.data {
            Data::Bool(b) => Some(*b),
            _ => None,
        }
    }

    pub fn as_list(&self) -> (r: Option<&[Value]>)
        ensures
            match self.data {
                Data::List(items) => r is Some && r->0@ == items@,
                _ => r is None,
            },
    {
        match &self.data {
            Data::List(items) => Some(items.as_slice()),
            _ => None,
        }
    }

    /// The entries of a map value, in increasing order of their keys.
    pub fn as_map(&self) -> (r: Option<&[(String, Value)]>)
        ensures
            match self.data {
                Data::MapOf(rows) => r is Some && r->0@ == rows@,
                _ => r is None,
            },
    {
        match &self.data {
            Data::MapOf(rows) => Some(rows.as_slice()),
            _ => None,
        }
    }
}

/// A prefix of a sequence of values that holds a conditional value makes
/// the whole sequence hold one.
pub proof fn lemma_values_conditional_prefix(s: Seq<Value>, n: int)
    requires
        0 <= n <= s.len(),
        values_conditional(s.take(n)),
    ensures
        values_conditional(s),
    decreases s.len(),
{
    if n < s.len() {
        assert(s.subrange(0, s.len() - 1).take(n) =~= s.take(n));
        lemma_values_conditional_prefix(s.subrange(0, s.len() - 1), n);
    } else {
        assert(s.take(n) =~= s);
    }
}

pub proof fn lemma_rows_conditional_prefix(s: Seq<(String, Value)>, n: int)
    requires
        0 <= n <= s.len(),
        rows_conditional(s.take(n)),
    ensures
        rows_conditional(s),
    decreases s.len(),
{
    if n < s.len() {
        assert(s.subrange(0, s.len() - 1).take(n) =~= s.take(n));
        lemma_rows_conditional_prefix(s.subrange(0, s.len() - 1), n);
    } else {
        assert(s.take(n) =~= s);
    }
}

} // verus!
