//! The byte format in which evaluated values are stored.
//!
//! The format is length-prefixed bytes: not readable by eye, but reading it
//! takes nothing more than one pass. Decoding gives `None` for anything it
//! cannot read; the store then treats the value as absent and computes it
//! again, so a format of another version, a truncated value and a value
//! changed from outside all cost speed and nothing else.

use vstd::prelude::*;
use vstd::bytes::{
    lemma_auto_spec_u32_to_from_le_bytes, lemma_auto_spec_u64_to_from_le_bytes,
    spec_u32_from_le_bytes, spec_u32_to_le_bytes, spec_u64_from_le_bytes, spec_u64_to_le_bytes,
    u32_from_le_bytes, u32_to_le_bytes, u64_from_le_bytes, u64_to_le_bytes,
};
use vstd::string::StringSliceAdditionalSpecFns;
use vstd::utf8::{decode_utf8, encode_utf8, encode_utf8_decode_utf8, encode_utf8_valid_utf8, valid_utf8};
use crate::schema::{merge_text, Merge};
use crate::text::{owned, str_eq};
use crate::value::{
    CfgKey, Data, FileId, MatchArm, Ns, Origin, PathBase, PathValue, Pattern, Pred, Prov, Site, Span,
    Type, Value,
};
use crate::strs::{insert_row, less_chars, names_of, rows_view, seq_less, strictly_sorted};
use crate::document::{strings_view, CfgRef, Document, Entry, Table};

verus! {

/// The version of the format; raised whenever the format changes.
pub const VERSION: u8 = 1;

/// The tag byte of a type.
pub open spec fn type_tag(t: Type) -> u8 {
    match t {
        Type::Str => 0,
        Type::Int => 1,
        Type::Bool => 2,
        Type::Path => 3,
        Type::DepRef => 4,
        Type::TargetRef => 5,
        Type::AbiLabel => 6,
        Type::Val => 7,
        Type::Unknown => 8,
        Type::List(_) => 9,
        Type::SetOf(_) => 10,
        Type::MapOf(_) => 11,
        Type::Cfg(_) => 12,
        Type::Word => 13,
    }
}

/// The bytes of a type: its tag, then the bytes of its element type if it
/// has one.
pub open spec fn type_bytes(t: Type) -> Seq<u8>
    decreases t,
{
    match t {
        Type::List(e) => seq![9u8] + type_bytes(*e),
        Type::SetOf(e) => seq![10u8] + type_bytes(*e),
        Type::MapOf(e) => seq![11u8] + type_bytes(*e),
        Type::Cfg(e) => seq![12u8] + type_bytes(*e),
        _ => seq![type_tag(t)],
    }
}

/// The type with no element type that a tag stands for.
pub open spec fn leaf_type(tag: u8) -> Option<Type> {
    if tag == 0 {
        Some(Type::Str)
    } else if tag == 1 {
        Some(Type::Int)
    } else if tag == 2 {
        Some(Type::Bool)
    } else if tag == 3 {
        Some(Type::Path)
    } else if tag == 4 {
        Some(Type::DepRef)
    } else if tag == 5 {
        Some(Type::TargetRef)
    } else if tag == 6 {
        Some(Type::AbiLabel)
    } else if tag == 7 {
        Some(Type::Val)
    } else if tag == 8 {
        Some(Type::Unknown)
    } else if tag == 13 {
        Some(Type::Word)
    } else {
        None
    }
}

/// The type with element type `e` that a tag stands for.
pub open spec fn wrap_type(tag: u8, e: Type) -> Option<Type> {
    if tag == 9 {
        Some(Type::List(Box::new(e)))
    } else if tag == 10 {
        Some(Type::SetOf(Box::new(e)))
    } else if tag == 11 {
        Some(Type::MapOf(Box::new(e)))
    } else if tag == 12 {
        Some(Type::Cfg(Box::new(e)))
    } else {
        None
    }
}

/// The type that `b` starts with, and how many bytes it takes.
pub open spec fn parse_type(b: Seq<u8>) -> Option<(Type, nat)>
    decreases b.len(),
{
    if b.len() == 0 {
        None
    } else if leaf_type(b[0]) is Some {
        Some((leaf_type(b[0]).unwrap(), 1))
    } else if 9 <= b[0] <= 12 {
        match parse_type(b.drop_first()) {
            Some((e, n)) => Some((wrap_type(b[0], e).unwrap(), n + 1)),
            None => None,
        }
    } else {
        None
    }
}

/// A type reads back as it was written, whatever follows it.
pub proof fn law_a_type_reads_back(t: Type, rest: Seq<u8>)
    ensures
        parse_type(type_bytes(t) + rest) == Some((t, type_bytes(t).len())),
    decreases t,
{
    let b = type_bytes(t) + rest;
    match t {
        Type::List(e) => {
            law_a_type_reads_back(*e, rest);
            assert(b.drop_first() =~= type_bytes(*e) + rest);
        },
        Type::SetOf(e) => {
            law_a_type_reads_back(*e, rest);
            assert(b.drop_first() =~= type_bytes(*e) + rest);
        },
        Type::MapOf(e) => {
            law_a_type_reads_back(*e, rest);
            assert(b.drop_first() =~= type_bytes(*e) + rest);
        },
        Type::Cfg(e) => {
            law_a_type_reads_back(*e, rest);
            assert(b.drop_first() =~= type_bytes(*e) + rest);
        },
        _ => {},
    }
}

/// The little-endian bytes of a `u32`.
pub open spec fn u32_bytes(x: u32) -> Seq<u8> {
    spec_u32_to_le_bytes(x)
}

/// The little-endian bytes of a `u64`.
pub open spec fn u64_bytes(x: u64) -> Seq<u8> {
    spec_u64_to_le_bytes(x)
}

/// The little-endian bytes of an `i64`, in two's complement.
pub open spec fn i64_bytes(x: i64) -> Seq<u8> {
    spec_u64_to_le_bytes(x as u64)
}

/// The byte of a `bool`.
pub open spec fn bool_byte(b: bool) -> u8 {
    if b {
        1
    } else {
        0
    }
}

/// A length as the format writes it: cut to 32 bits.
pub open spec fn len_u32(n: nat) -> u32 {
    (n as usize) as u32
}

/// The bytes of a length.
pub open spec fn len_bytes(n: nat) -> Seq<u8> {
    u32_bytes(len_u32(n))
}

/// Whether a length fits in the 32 bits the format gives it.
pub open spec fn fits(n: nat) -> bool {
    n <= u32::MAX
}

/// The bytes of a string: its length in UTF-8 bytes, then those bytes.
pub open spec fn str_bytes(s: Seq<char>) -> Seq<u8> {
    len_bytes(encode_utf8(s).len()) + encode_utf8(s)
}

/// Whether a string's UTF-8 length fits in the format.
pub open spec fn str_fits(s: Seq<char>) -> bool {
    fits(encode_utf8(s).len())
}

/// The bytes of a span.
pub open spec fn span_bytes(s: Span) -> Seq<u8> {
    u32_bytes(s.start) + u32_bytes(s.end)
}

/// The bytes of a site: the file's identity, then the span.
pub open spec fn site_bytes(s: Site) -> Seq<u8> {
    u64_bytes(s.file.0) + span_bytes(s.span)
}

/// The bytes of a site that may be missing.
pub open spec fn opt_site_bytes(s: Option<Site>) -> Seq<u8> {
    match s {
        None => seq![0u8],
        Some(site) => seq![1u8] + site_bytes(site),
    }
}

/// The bytes of a sequence of items, each written by `f`, in order.
pub open spec fn list_bytes<A>(s: Seq<A>, f: spec_fn(A) -> Seq<u8>) -> Seq<u8>
    decreases s.len(),
{
    if s.len() == 0 {
        Seq::empty()
    } else {
        list_bytes(s.drop_last(), f) + f(s.last())
    }
}

/// One more item adds its bytes at the end.
pub proof fn lemma_list_step<A>(s: Seq<A>, f: spec_fn(A) -> Seq<u8>, k: int)
    requires
        0 <= k < s.len(),
    ensures
        list_bytes(s.take(k + 1), f) == list_bytes(s.take(k), f) + f(s[k]),
{
    assert(s.take(k + 1).drop_last() =~= s.take(k));
}

/// A single item's bytes.
pub proof fn lemma_list_one<A>(x: A, f: spec_fn(A) -> Seq<u8>)
    ensures
        list_bytes(seq![x], f) == f(x),
{
    assert(seq![x].drop_last() =~= Seq::<A>::empty());
    assert(list_bytes(Seq::<A>::empty(), f) =~= Seq::<u8>::empty());
    assert(list_bytes(seq![x], f) =~= f(x));
}

/// The bytes of a sequence are those of a prefix followed by those of the
/// rest.
pub proof fn lemma_list_split<A>(s: Seq<A>, f: spec_fn(A) -> Seq<u8>, k: int)
    requires
        0 <= k <= s.len(),
    ensures
        list_bytes(s, f) == list_bytes(s.take(k), f) + list_bytes(s.skip(k), f),
    decreases s.len(),
{
    if k == s.len() {
        assert(s.take(k) =~= s);
        assert(s.skip(k) =~= Seq::<A>::empty());
        assert(list_bytes(s, f) + Seq::<u8>::empty() =~= list_bytes(s, f));
    } else {
        lemma_list_split(s.drop_last(), f, k);
        assert(s.drop_last().take(k) =~= s.take(k));
        assert(s.skip(k).drop_last() =~= s.drop_last().skip(k));
        assert(s.skip(k).last() == s.last());
        assert(list_bytes(s, f) =~= list_bytes(s.take(k), f) + list_bytes(s.skip(k), f));
    }
}

/// Items of at least one byte each make at least as many bytes as items.
pub proof fn lemma_list_len<A>(s: Seq<A>, f: spec_fn(A) -> Seq<u8>)
    requires
        forall|x: A| #[trigger] f(x).len() >= 1,
    ensures
        list_bytes(s, f).len() >= s.len(),
    decreases s.len(),
{
    if s.len() > 0 {
        lemma_list_len(s.drop_last(), f);
        assert(f(s.last()).len() >= 1);
    }
}

/// Two sequences whose items have the same bytes, one by one, have the
/// same bytes.
pub proof fn lemma_list_same<A, B>(
    s: Seq<A>,
    f: spec_fn(A) -> Seq<u8>,
    t: Seq<B>,
    g: spec_fn(B) -> Seq<u8>,
)
    requires
        s.len() == t.len(),
        forall|j: int| 0 <= j < s.len() ==> f(s[j]) == g(t[j]),
    ensures
        list_bytes(s, f) == list_bytes(t, g),
    decreases s.len(),
{
    if s.len() > 0 {
        lemma_list_same(s.drop_last(), f, t.drop_last(), g);
        assert(f(s.last()) == g(t.last()));
    }
}

/// The writer of one string, as a function.
pub open spec fn str_item() -> spec_fn(Seq<char>) -> Seq<u8> {
    |x: Seq<char>| str_bytes(x)
}

/// The writer of one span, as a function.
pub open spec fn span_item() -> spec_fn(Span) -> Seq<u8> {
    |x: Span| span_bytes(x)
}

/// The bytes of a list of strings: the count, then each string.
pub open spec fn names_bytes(s: Seq<Seq<char>>) -> Seq<u8> {
    len_bytes(s.len()) + list_bytes(s, str_item())
}

/// Whether every string of a list, and the list's length, fit.
pub open spec fn names_fit(s: Seq<Seq<char>>) -> bool {
    fits(s.len()) && forall|i: int| 0 <= i < s.len() ==> str_fits(#[trigger] s[i])
}

/// The bytes of a list of spans.
pub open spec fn spans_bytes(s: Seq<Span>) -> Seq<u8> {
    len_bytes(s.len()) + list_bytes(s, span_item())
}

/// Prefixes: what follows a prefix is a prefix of what follows.
pub proof fn lemma_prefix_cat(x: Seq<u8>, y: Seq<u8>, r: Seq<u8>)
    requires
        (x + y).is_prefix_of(r),
    ensures
        x.is_prefix_of(r),
        y.is_prefix_of(r.skip(x.len() as int)),
{
    assert(x =~= (x + y).subrange(0, x.len() as int));
    assert(y =~= (x + y).subrange(x.len() as int, (x + y).len() as int));
    assert(x =~= r.subrange(0, x.len() as int));
    assert(y =~= r.skip(x.len() as int).subrange(0, y.len() as int));
}

/// A prefix of a prefix is a prefix.
pub proof fn lemma_prefix_of_prefix(x: Seq<u8>, y: Seq<u8>, r: Seq<u8>)
    requires
        x.is_prefix_of(y),
        y.is_prefix_of(r),
    ensures
        x.is_prefix_of(r),
{
    assert(x =~= r.subrange(0, x.len() as int));
}

/// Appends bytes one by one.
fn push_bytes(out: &mut Vec<u8>, b: &[u8])
    ensures
        final(out)@ == old(out)@ + b@,
{
    let ghost start = out@;
    let mut i: usize = 0;
    while i < b.len()
        invariant
            i <= b@.len(),
            out@ == start + b@.take(i as int),
        decreases b.len() - i,
    {
        out.push(b[i]);
        i += 1;
        assert(out@ =~= start + b@.take(i as int));
    }
    assert(b@.take(b@.len() as int) =~= b@);
}

/// Writes values in the format.
pub struct W(pub Vec<u8>);

impl W {
    pub fn u8(&mut self, v: u8)
        ensures
            final(self).0@ == old(self).0@.push(v),
    {
        self.0.push(v);
    }

    pub fn u32(&mut self, v: u32)
        ensures
            final(self).0@ == old(self).0@ + u32_bytes(v),
    {
        let b = u32_to_le_bytes(v);
        push_bytes(&mut self.0, b.as_slice());
    }

    pub fn u64(&mut self, v: u64)
        ensures
            final(self).0@ == old(self).0@ + u64_bytes(v),
    {
        let b = u64_to_le_bytes(v);
        push_bytes(&mut self.0, b.as_slice());
    }

    pub fn i64(&mut self, v: i64)
        ensures
            final(self).0@ == old(self).0@ + i64_bytes(v),
    {
        self.u64(v as u64);
    }

    pub fn bool(&mut self, v: bool)
        ensures
            final(self).0@ == old(self).0@.push(bool_byte(v)),
    {
        self.u8(if v { 1 } else { 0 });
    }

    /// Writes a length, cut to 32 bits.
    pub fn len(&mut self, v: usize)
        ensures
            final(self).0@ == old(self).0@ + len_bytes(v as nat),
    {
        self.u32(v as u32);
    }

    /// Writes a string: its length in bytes, then its UTF-8 bytes.
    pub fn str(&mut self, s: &str)
        ensures
            final(self).0@ == old(self).0@ + str_bytes(s@),
    {
        self.len(s.len());
        push_bytes(&mut self.0, s.as_bytes());
    }

    /// Writes a list of strings.
    pub fn strs(&mut self, v: &[String])
        ensures
            final(self).0@ == old(self).0@ + names_bytes(v@.map_values(|x: String| x@)),
    {
        let ghost names = v@.map_values(|x: String| x@);
        self.len(v.len());
        let ghost start = self.0@;
        let mut i: usize = 0;
        while i < v.len()
            invariant
                i <= v@.len(),
                names == v@.map_values(|x: String| x@),
                self.0@ == start + list_bytes(names.take(i as int), str_item()),
            decreases v.len() - i,
        {
            self.str(v[i].as_str());
            proof {
                lemma_list_step(names, str_item(), i as int);
            }
            i += 1;
        }
        assert(names.take(i as int) =~= names);
    }

    pub fn span(&mut self, s: Span)
        ensures
            final(self).0@ == old(self).0@ + span_bytes(s),
    {
        self.u32(s.start);
        self.u32(s.end);
        assert(self.0@ =~= old(self).0@ + span_bytes(s));
    }

    /// Writes a list of spans.
    pub fn spans(&mut self, v: &[Span])
        ensures
            final(self).0@ == old(self).0@ + spans_bytes(v@),
    {
        self.len(v.len());
        let ghost start = self.0@;
        let mut i: usize = 0;
        while i < v.len()
            invariant
                i <= v@.len(),
                self.0@ == start + list_bytes(v@.take(i as int), span_item()),
            decreases v.len() - i,
        {
            self.span(v[i]);
            proof {
                lemma_list_step(v@, span_item(), i as int);
            }
            i += 1;
        }
        assert(v@.take(i as int) =~= v@);
    }

    pub fn site(&mut self, s: Site)
        ensures
            final(self).0@ == old(self).0@ + site_bytes(s),
    {
        self.u64(s.file.0);
        self.span(s.span);
        assert(self.0@ =~= old(self).0@ + site_bytes(s));
    }

    pub fn opt_site(&mut self, s: Option<Site>)
        ensures
            final(self).0@ == old(self).0@ + opt_site_bytes(s),
    {
        match s {
            None => self.u8(0),
            Some(site) => {
                self.u8(1);
                self.site(site);
            },
        }
        assert(self.0@ =~= old(self).0@ + opt_site_bytes(s));
    }

    /// Writes a type.
    pub fn ty(&mut self, t: &Type)
        ensures
            final(self).0@ == old(self).0@ + type_bytes(*t),
        decreases t,
    {
        let ghost start = self.0@;
        match t {
            Type::Str => self.u8(0),
            Type::Int => self.u8(1),
            Type::Bool => self.u8(2),
            Type::Path => self.u8(3),
            Type::DepRef => self.u8(4),
            Type::TargetRef => self.u8(5),
            Type::AbiLabel => self.u8(6),
            Type::Val => self.u8(7),
            Type::Unknown => self.u8(8),
            Type::Word => self.u8(13),
            Type::List(e) => {
                self.u8(9);
                self.ty(e);
            },
            Type::SetOf(e) => {
                self.u8(10);
                self.ty(e);
            },
            Type::MapOf(e) => {
                self.u8(11);
                self.ty(e);
            },
            Type::Cfg(e) => {
                self.u8(12);
                self.ty(e);
            },
        }
        assert(self.0@ =~= start + type_bytes(*t));
    }
}

/// The string that the bytes `b` start with, as `R::str` reads it: a
/// 32-bit length, then that many bytes of valid UTF-8.
pub open spec fn str_at(b: Seq<u8>) -> Option<Seq<char>> {
    if b.len() < 4 {
        None
    } else {
        let n = spec_u32_from_le_bytes(b.take(4)) as int;
        if b.len() < 4 + n || !valid_utf8(b.subrange(4, 4 + n)) {
            None
        } else {
            Some(decode_utf8(b.subrange(4, 4 + n)))
        }
    }
}

/// How many bytes the string at the start of `b` takes.
pub open spec fn str_at_len(b: Seq<u8>) -> nat {
    (4 + spec_u32_from_le_bytes(b.take(4))) as nat
}

/// A string that fits reads back from its bytes, whatever follows them.
pub proof fn lemma_str_reads_back(s: Seq<char>, rest: Seq<u8>)
    requires
        str_fits(s),
        str_bytes(s).is_prefix_of(rest),
    ensures
        str_at(rest) == Some(s),
        str_at_len(rest) == str_bytes(s).len(),
{
    lemma_auto_spec_u32_to_from_le_bytes();
    let e = encode_utf8(s);
    assert(len_u32(e.len()) == e.len());
    assert(rest.take(4) =~= str_bytes(s).take(4));
    assert(str_bytes(s).take(4) =~= u32_bytes(len_u32(e.len())));
    assert(str_bytes(s) =~= rest.subrange(0, str_bytes(s).len() as int));
    assert(str_bytes(s).subrange(4, 4 + e.len() as int) =~= e);
    assert(rest.subrange(4, 4 + e.len() as int) =~= e);
    encode_utf8_valid_utf8(s);
    encode_utf8_decode_utf8(s);
}

/// Checks that bytes are UTF-8 and views them as a string, with std's
/// `str::from_utf8`. The contract claims what std documents: the bytes are
/// accepted exactly when they are valid UTF-8, and the string holds them
/// unchanged.
#[verifier::external_body]
fn utf8_str(b: &[u8]) -> (r: Option<&str>)
    ensures
        match r {
            Some(s) => valid_utf8(b@) && s.spec_bytes() == b@,
            None => !valid_utf8(b@),
        },
{
    std::str::from_utf8(b).ok()
}

/// Reads values in the format: the bytes and the position reached.
pub struct R<'a> {
    pub b: &'a [u8],
    pub i: usize,
}

impl<'a> R<'a> {
    /// The bytes not read yet.
    pub open spec fn rest(&self) -> Seq<u8> {
        self.b@.subrange(self.i as int, self.b@.len() as int)
    }

    /// Whether `next` is this reader after reading on: the same bytes, a
    /// position no earlier and still inside them.
    pub open spec fn moved_on(&self, next: R<'a>) -> bool {
        next.b == self.b && self.i <= next.i <= next.b@.len()
    }

    /// Takes the next `n` bytes; `None` when fewer are left.
    pub fn take(&mut self, n: usize) -> (r: Option<&'a [u8]>)
        requires
            old(self).i <= old(self).b@.len(),
        ensures
            old(self).moved_on(*final(self)),
            match r {
                Some(s) => n <= old(self).rest().len() && s@ == old(self).rest().take(n as int)
                    && final(self).i == old(self).i + n,
                None => n > old(self).rest().len() && final(self).i == old(self).i,
            },
    {
        if n <= self.b.len() - self.i {
            let out = vstd::slice::slice_subrange(self.b, self.i, self.i + n);
            assert(out@ =~= self.rest().take(n as int));
            self.i = self.i + n;
            Some(out)
        } else {
            None
        }
    }

    pub fn u8(&mut self) -> (r: Option<u8>)
        requires
            old(self).i <= old(self).b@.len(),
        ensures
            final(self).b == old(self).b,
            old(self).i <= final(self).i <= final(self).b@.len(),
            match r {
                Some(v) => old(self).i < old(self).b@.len() && v == old(self).b@[old(self).i as int]
                    && final(self).i == old(self).i + 1,
                None => old(self).i == old(self).b@.len(),
            },
    {
        if self.i < self.b.len() {
            let v = self.b[self.i];
            self.i = self.i + 1;
            Some(v)
        } else {
            None
        }
    }

    pub fn u32(&mut self) -> (r: Option<u32>)
        requires
            old(self).i <= old(self).b@.len(),
        ensures
            old(self).moved_on(*final(self)),
            match r {
                Some(v) => 4 <= old(self).rest().len() && v == spec_u32_from_le_bytes(
                    old(self).rest().take(4),
                ) && final(self).i == old(self).i + 4,
                None => old(self).rest().len() < 4 && final(self).i == old(self).i,
            },
    {
        match self.take(4) {
            Some(s) => Some(u32_from_le_bytes(s)),
            None => None,
        }
    }

    pub fn u64(&mut self) -> (r: Option<u64>)
        requires
            old(self).i <= old(self).b@.len(),
        ensures
            old(self).moved_on(*final(self)),
            match r {
                Some(v) => 8 <= old(self).rest().len() && v == spec_u64_from_le_bytes(
                    old(self).rest().take(8),
                ) && final(self).i == old(self).i + 8,
                None => old(self).rest().len() < 8 && final(self).i == old(self).i,
            },
    {
        match self.take(8) {
            Some(s) => Some(u64_from_le_bytes(s)),
            None => None,
        }
    }

    pub fn i64(&mut self) -> (r: Option<i64>)
        requires
            old(self).i <= old(self).b@.len(),
        ensures
            old(self).moved_on(*final(self)),
            match r {
                Some(v) => 8 <= old(self).rest().len() && v == spec_u64_from_le_bytes(
                    old(self).rest().take(8),
                ) as i64 && final(self).i == old(self).i + 8,
                None => old(self).rest().len() < 8 && final(self).i == old(self).i,
            },
    {
        match self.u64() {
            Some(v) => Some(v as i64),
            None => None,
        }
    }

    pub fn bool(&mut self) -> (r: Option<bool>)
        requires
            old(self).i <= old(self).b@.len(),
        ensures
            old(self).moved_on(*final(self)),
            match r {
                Some(v) => 1 <= old(self).rest().len() && v == (old(self).rest()[0] != 0)
                    && final(self).i == old(self).i + 1,
                None => old(self).rest().len() == 0 && final(self).i == old(self).i,
            },
    {
        match self.u8() {
            Some(v) => Some(v != 0),
            None => None,
        }
    }

    /// Reads a length. A length beyond the bytes that remain after it is
    /// refused here: what follows could not be read, and a broken input
    /// never makes a huge allocation.
    pub fn len(&mut self) -> (r: Option<usize>)
        requires
            old(self).i <= old(self).b@.len(),
        ensures
            old(self).moved_on(*final(self)),
            match r {
                Some(n) => 4 <= old(self).rest().len() && n == spec_u32_from_le_bytes(
                    old(self).rest().take(4),
                ) && n <= old(self).rest().len() - 4 && final(self).i == old(
                    self,
                ).i + 4,
                None => old(self).rest().len() < 4 || spec_u32_from_le_bytes(
                    old(self).rest().take(4),
                ) > old(self).rest().len() - 4,
            },
    {
        let n = match self.u32() {
            Some(n) => n as usize,
            None => {
                return None;
            },
        };
        let room = self.b.len() - self.i;
        if n > room {
            return None;
        }
        Some(n)
    }

    /// Reads a string: a length, then that many bytes of UTF-8.
    pub fn str(&mut self) -> (r: Option<String>)
        requires
            old(self).i <= old(self).b@.len(),
        ensures
            old(self).moved_on(*final(self)),
            r is Some <==> str_at(old(self).rest()) is Some,
            match r {
                Some(s) => s@ == str_at(old(self).rest())->0 && final(self).i == old(self).i
                    + str_at_len(old(self).rest()),
                None => true,
            },
    {
        let ghost rest = self.rest();
        let n = match self.u32() {
            Some(n) => n as usize,
            None => {
                return None;
            },
        };
        assert(self.rest() =~= rest.skip(4));
        let bytes = match self.take(n) {
            Some(b) => b,
            None => {
                return None;
            },
        };
        assert(bytes@ =~= rest.subrange(4, 4 + n));
        match utf8_str(bytes) {
            Some(t) => {
                proof {
                    encode_utf8_decode_utf8(t@);
                }
                Some(owned(t))
            },
            None => None,
        }
    }

    pub fn span(&mut self) -> (r: Option<Span>)
        requires
            old(self).i <= old(self).b@.len(),
        ensures
            old(self).moved_on(*final(self)),
            match r {
                Some(s) => 8 <= old(self).rest().len() && span_bytes(s) == old(self).rest().take(8)
                    && final(self).i == old(self).i + 8,
                None => old(self).rest().len() < 8,
            },
    {
        let ghost rest = self.rest();
        let start = match self.u32() {
            Some(v) => v,
            None => {
                return None;
            },
        };
        assert(self.rest() =~= rest.skip(4));
        let end = match self.u32() {
            Some(v) => v,
            None => {
                return None;
            },
        };
        proof {
            lemma_auto_spec_u32_to_from_le_bytes();
            assert(rest.take(4) =~= rest.take(8).take(4));
            assert(rest.skip(4).take(4) =~= rest.take(8).skip(4));
            assert(rest.take(8) =~= rest.take(4) + rest.skip(4).take(4));
        }
        Some(Span { start, end })
    }

    pub fn site(&mut self) -> (r: Option<Site>)
        requires
            old(self).i <= old(self).b@.len(),
        ensures
            old(self).moved_on(*final(self)),
            match r {
                Some(s) => 16 <= old(self).rest().len() && site_bytes(s) == old(self).rest().take(
                    16,
                ) && final(self).i == old(self).i + 16,
                None => old(self).rest().len() < 16,
            },
    {
        let ghost rest = self.rest();
        let file = match self.u64() {
            Some(v) => v,
            None => {
                return None;
            },
        };
        assert(self.rest() =~= rest.skip(8));
        let span = match self.span() {
            Some(v) => v,
            None => {
                return None;
            },
        };
        proof {
            lemma_auto_spec_u64_to_from_le_bytes();
            assert(rest.skip(8).take(8) =~= rest.take(16).skip(8));
            assert(rest.take(16) =~= rest.take(8) + rest.skip(8).take(8));
        }
        Some(Site { file: FileId(file), span })
    }

    pub fn opt_site(&mut self) -> (r: Option<Option<Site>>)
        requires
            old(self).i <= old(self).b@.len(),
        ensures
            old(self).moved_on(*final(self)),
            match r {
                Some(s) => opt_site_bytes(s).is_prefix_of(old(self).rest()) && final(self).i == old(
                    self,
                ).i + opt_site_bytes(s).len(),
                None => forall|s: Option<Site>| !#[trigger] opt_site_bytes(s).is_prefix_of(old(self).rest()),
            },
    {
        let ghost rest = self.rest();
        proof {
            lemma_auto_spec_u32_to_from_le_bytes();
            lemma_auto_spec_u64_to_from_le_bytes();
        }
        let tag = match self.u8() {
            Some(t) => t,
            None => {
                return None;
            },
        };
        assert(self.rest() =~= rest.skip(1));
        if tag == 0 {
            assert(opt_site_bytes(None).is_prefix_of(rest));
            Some(None)
        } else if tag == 1 {
            match self.site() {
                Some(site) => {
                    assert(opt_site_bytes(Some(site)) =~= rest.take(17));
                    Some(Some(site))
                },
                None => {
                    assert forall|s: Option<Site>| !#[trigger] opt_site_bytes(s).is_prefix_of(rest) by {
                        if s is Some {
                            assert(opt_site_bytes(s).len() == 17);
                        } else {
                            assert(rest[0] == 1);
                            if opt_site_bytes(s).is_prefix_of(rest) {
                                assert(opt_site_bytes(s)[0] == rest.subrange(0, 1)[0]);
                            }
                        }
                    }
                    None
                },
            }
        } else {
            assert forall|s: Option<Site>| !#[trigger] opt_site_bytes(s).is_prefix_of(rest) by {
                assert(opt_site_bytes(s)[0] == 0 || opt_site_bytes(s)[0] == 1);
            }
            None
        }
    }

    /// Reads a type; `None` when the bytes hold none.
    pub fn ty(&mut self) -> (r: Option<Type>)
        requires
            old(self).i <= old(self).b@.len(),
        ensures
            final(self).b == old(self).b,
            old(self).i <= final(self).i <= final(self).b@.len(),
            match r {
                Some(t) => parse_type(old(self).rest()) == Some(
                    (t, (final(self).i - old(self).i) as nat),
                ),
                None => parse_type(old(self).rest()) is None,
            },
        decreases old(self).b@.len() - old(self).i,
    {
        let ghost rest = self.rest();
        let ghost start = self.i;
        let tag = match self.u8() {
            Some(t) => t,
            None => {
                return None;
            },
        };
        assert(rest[0] == tag);
        assert(rest.drop_first() =~= self.rest());
        let leaf = match tag {
            0 => Some(Type::Str),
            1 => Some(Type::Int),
            2 => Some(Type::Bool),
            3 => Some(Type::Path),
            4 => Some(Type::DepRef),
            5 => Some(Type::TargetRef),
            6 => Some(Type::AbiLabel),
            7 => Some(Type::Val),
            8 => Some(Type::Unknown),
            13 => Some(Type::Word),
            _ => None,
        };
        if leaf.is_some() {
            return leaf;
        }
        assert(leaf_type(tag) is None);
        if tag < 9 || tag > 12 {
            return None;
        }
        let ghost mid = self.i;
        let e = match self.ty() {
            Some(e) => e,
            None => {
                return None;
            },
        };
        assert(parse_type(rest.drop_first()) == Some((e, (self.i - mid) as nat)));
        let boxed = Box::new(e);
        let r = match tag {
            9 => Type::List(boxed),
            10 => Type::SetOf(boxed),
            11 => Type::MapOf(boxed),
            _ => Type::Cfg(boxed),
        };
        assert(wrap_type(tag, e) == Some(r));
        assert(mid == start + 1);
        assert(rest.len() > 0 && rest[0] == tag);
        Some(r)
    }
}

/// The names of the merge rules that a stored origin may hold.
pub open spec fn known_rule(s: Seq<char>) -> bool {
    s == merge_text(Merge::Union) || s == merge_text(Merge::Append) || s == merge_text(
        Merge::ErrorOnConflict,
    ) || s == merge_text(Merge::MustEqual) || s == merge_text(Merge::Replace) || s == merge_text(Merge::Max)
}

/// Every merge rule's name is a known name: [`merge_rule`] gives it back
/// unchanged, so an origin that a merge wrote survives decoding.
pub proof fn law_merge_names_map_back(m: Merge)
    ensures
        known_rule(merge_text(m)),
        rule_ok(merge_text(m)),
{
}

/// Maps a stored merge rule's name back to a static name. A name that is
/// not a known rule becomes `"unknown"`; it is only shown, and happens only
/// when the format's version does not match.
pub fn merge_rule(s: &str) -> (r: &'static str)
    ensures
        r@ == if known_rule(s@) {
            s@
        } else {
            "unknown"@
        },
{
    let rules = [
        Merge::Union,
        Merge::Append,
        Merge::ErrorOnConflict,
        Merge::MustEqual,
        Merge::Replace,
        Merge::Max,
    ];
    let mut i: usize = 0;
    while i < 6
        invariant
            i <= 6,
            rules@ == seq![
                Merge::Union,
                Merge::Append,
                Merge::ErrorOnConflict,
                Merge::MustEqual,
                Merge::Replace,
                Merge::Max,
            ],
            forall|j: int| 0 <= j < i ==> merge_text(#[trigger] rules@[j]) != s@,
        decreases 6 - i,
    {
        let name = rules[i].name();
        if str_eq(name, s) {
            return name;
        }
        i = i + 1;
    }
    assert(!known_rule(s@)) by {
        assert(merge_text(rules@[0]) != s@);
        assert(merge_text(rules@[1]) != s@);
        assert(merge_text(rules@[2]) != s@);
        assert(merge_text(rules@[3]) != s@);
        assert(merge_text(rules@[4]) != s@);
        assert(merge_text(rules@[5]) != s@);
    }
    "unknown"
}

} // verus!

verus! {

/// The tag byte of a namespace.
pub open spec fn ns_tag(ns: Ns) -> u8 {
    match ns {
        Ns::Cfg => 0,
        Ns::Host => 1,
        Ns::Feature => 2,
        Ns::Tc => 3,
        Ns::Target => 4,
        Ns::Pkg => 5,
    }
}

/// The bytes of a configuration key: its namespace's tag, then its name.
pub open spec fn cfg_key_bytes(k: CfgKey) -> Seq<u8> {
    seq![ns_tag(k.ns)] + str_bytes(k.name@)
}

pub open spec fn cfg_key_fits(k: CfgKey) -> bool {
    str_fits(k.name@)
}

/// The bytes of a predicate: a tag, then its keys, strings and operands.
pub open spec fn pred_bytes(p: Pred) -> Seq<u8>
    decreases p,
{
    match p {
        Pred::Flag(k) => seq![0u8] + cfg_key_bytes(k),
        Pred::Eq(k, v) => seq![1u8] + cfg_key_bytes(k) + str_bytes(v@),
        Pred::Not(a) => seq![2u8] + pred_bytes(*a),
        Pred::And(a, b) => seq![3u8] + pred_bytes(*a) + pred_bytes(*b),
        Pred::Or(a, b) => seq![4u8] + pred_bytes(*a) + pred_bytes(*b),
    }
}

pub open spec fn pred_fits(p: Pred) -> bool
    decreases p,
{
    match p {
        Pred::Flag(k) => cfg_key_fits(k),
        Pred::Eq(k, v) => cfg_key_fits(k) && str_fits(v@),
        Pred::Not(a) => pred_fits(*a),
        Pred::And(a, b) => pred_fits(*a) && pred_fits(*b),
        Pred::Or(a, b) => pred_fits(*a) && pred_fits(*b),
    }
}

/// The merge rule names an origin may hold once read back: the known
/// rules, and `unknown` for any other.
pub open spec fn rule_ok(r: Seq<char>) -> bool {
    known_rule(r) || r == "unknown"@
}

/// The bytes of an origin: a tag, then its strings.
pub open spec fn origin_bytes(o: Origin) -> Seq<u8> {
    match o {
        Origin::Literal => seq![0u8],
        Origin::Call(f) => seq![1u8] + str_bytes(f@),
        Origin::MatchArm(p) => seq![2u8] + str_bytes(p@),
        Origin::WhenTrue(p) => seq![3u8] + str_bytes(p@),
        Origin::Propagated { from, prop } => seq![4u8] + str_bytes(from@) + str_bytes(prop@),
        Origin::Merged { prop, rule } => seq![5u8] + str_bytes(prop@) + str_bytes(rule@),
        Origin::Config => seq![6u8],
        Origin::Default => seq![7u8],
    }
}

pub open spec fn origin_fits(o: Origin) -> bool {
    match o {
        Origin::Call(f) => str_fits(f@),
        Origin::MatchArm(p) => str_fits(p@),
        Origin::WhenTrue(p) => str_fits(p@),
        Origin::Propagated { from, prop } => str_fits(from@) && str_fits(prop@),
        Origin::Merged { prop, rule } => str_fits(prop@) && str_fits(rule@) && rule_ok(rule@),
        _ => true,
    }
}

/// The bytes of one provenance step.
pub open spec fn step_bytes(st: (Origin, Option<Site>)) -> Seq<u8> {
    origin_bytes(st.0) + opt_site_bytes(st.1)
}

pub open spec fn step_item() -> spec_fn((Origin, Option<Site>)) -> Seq<u8> {
    |x: (Origin, Option<Site>)| step_bytes(x)
}

/// The bytes of a provenance chain: the number of steps, then each step,
/// nearest first.
pub open spec fn steps_bytes(s: Seq<(Origin, Option<Site>)>) -> Seq<u8> {
    len_bytes(s.len()) + list_bytes(s, step_item())
}

pub open spec fn steps_fit(s: Seq<(Origin, Option<Site>)>) -> bool {
    fits(s.len()) && forall|j: int| 0 <= j < s.len() ==> origin_fits(#[trigger] s[j].0)
}

/// A string read from bytes fits, and its bytes are those it was read from.
pub proof fn lemma_str_at_sound(b: Seq<u8>)
    requires
        str_at(b) is Some,
    ensures
        str_fits(str_at(b)->0),
        str_bytes(str_at(b)->0).is_prefix_of(b),
        str_bytes(str_at(b)->0).len() == str_at_len(b),
{
    lemma_auto_spec_u32_to_from_le_bytes();
    let n = spec_u32_from_le_bytes(b.take(4)) as int;
    let sub = b.subrange(4, 4 + n);
    vstd::utf8::decode_utf8_encode_utf8(sub);
    let s = decode_utf8(sub);
    assert(encode_utf8(s) == sub);
    assert(len_u32(sub.len()) == n);
    assert(str_bytes(s) =~= b.take(4) + sub);
    assert(str_bytes(s) =~= b.subrange(0, 4 + n));
}

/// An encoding that starts with a tag byte: the tag is the first byte.
pub proof fn lemma_tag(t: u8, x: Seq<u8>, r: Seq<u8>)
    requires
        (seq![t] + x).is_prefix_of(r),
    ensures
        r.len() >= 1,
        r[0] == t,
        x.is_prefix_of(r.skip(1)),
{
    lemma_prefix_cat(seq![t], x, r);
    assert(seq![t][0] == r.subrange(0, 1)[0]);
}

/// Two encodings of sites that may be missing, both at the start of the
/// same bytes, encode the same thing.
pub proof fn lemma_opt_site_unique(a: Option<Site>, b: Option<Site>, r: Seq<u8>)
    requires
        opt_site_bytes(a).is_prefix_of(r),
        opt_site_bytes(b).is_prefix_of(r),
    ensures
        a == b,
{
    lemma_auto_spec_u32_to_from_le_bytes();
    lemma_auto_spec_u64_to_from_le_bytes();
    assert(opt_site_bytes(a)[0] == r[0]);
    assert(opt_site_bytes(b)[0] == r[0]);
    if a is Some && b is Some {
        let sa = a->0;
        let sb = b->0;
        assert(opt_site_bytes(a) =~= r.take(17));
        assert(opt_site_bytes(b) =~= r.take(17));
        assert(opt_site_bytes(a).subrange(1, 9) =~= u64_bytes(sa.file.0));
        assert(opt_site_bytes(b).subrange(1, 9) =~= u64_bytes(sb.file.0));
        assert(u64_bytes(sa.file.0) =~= r.subrange(1, 9));
        assert(u64_bytes(sb.file.0) =~= r.subrange(1, 9));
        assert(opt_site_bytes(a).subrange(9, 13) =~= u32_bytes(sa.span.start));
        assert(opt_site_bytes(b).subrange(9, 13) =~= u32_bytes(sb.span.start));
        assert(opt_site_bytes(a).subrange(13, 17) =~= u32_bytes(sa.span.end));
        assert(opt_site_bytes(b).subrange(13, 17) =~= u32_bytes(sb.span.end));
        assert(u32_bytes(sa.span.start) =~= r.subrange(9, 13));
        assert(u32_bytes(sb.span.start) =~= r.subrange(9, 13));
        assert(u32_bytes(sa.span.end) =~= r.subrange(13, 17));
        assert(u32_bytes(sb.span.end) =~= r.subrange(13, 17));
    }
}

impl W {
    pub fn cfg_key(&mut self, k: &CfgKey)
        ensures
            final(self).0@ == old(self).0@ + cfg_key_bytes(*k),
    {
        self.u8(
            match k.ns {
                Ns::Cfg => 0,
                Ns::Host => 1,
                Ns::Feature => 2,
                Ns::Tc => 3,
                Ns::Target => 4,
                Ns::Pkg => 5,
            },
        );
        self.str(k.name.as_str());
        assert(self.0@ =~= old(self).0@ + cfg_key_bytes(*k));
    }

    pub fn pred(&mut self, p: &Pred)
        ensures
            final(self).0@ == old(self).0@ + pred_bytes(*p),
        decreases p,
    {
        let ghost start = self.0@;
        match p {
            Pred::Flag(k) => {
                self.u8(0);
                self.cfg_key(k);
            },
            Pred::Eq(k, v) => {
                self.u8(1);
                self.cfg_key(k);
                self.str(v.as_str());
            },
            Pred::Not(a) => {
                self.u8(2);
                self.pred(a);
            },
            Pred::And(a, b) => {
                self.u8(3);
                self.pred(a);
                self.pred(b);
            },
            Pred::Or(a, b) => {
                self.u8(4);
                self.pred(a);
                self.pred(b);
            },
        }
        assert(self.0@ =~= start + pred_bytes(*p));
    }

    pub fn origin(&mut self, o: &Origin)
        ensures
            final(self).0@ == old(self).0@ + origin_bytes(*o),
    {
        let ghost start = self.0@;
        match o {
            Origin::Literal => self.u8(0),
            Origin::Call(s) => {
                self.u8(1);
                self.str(s.as_str());
            },
            Origin::MatchArm(s) => {
                self.u8(2);
                self.str(s.as_str());
            },
            Origin::WhenTrue(s) => {
                self.u8(3);
                self.str(s.as_str());
            },
            Origin::Propagated { from, prop } => {
                self.u8(4);
                self.str(from.as_str());
                self.str(prop.as_str());
            },
            Origin::Merged { prop, rule } => {
                self.u8(5);
                self.str(prop.as_str());
                self.str(rule);
            },
            Origin::Config => self.u8(6),
            Origin::Default => self.u8(7),
        }
        assert(self.0@ =~= start + origin_bytes(*o));
    }

    /// Writes a provenance chain, nearest step first.
    pub fn prov(&mut self, p: &Prov)
        ensures
            final(self).0@ == old(self).0@ + steps_bytes(p.view()),
    {
        let ghost steps = p.view();
        let n = p.len();
        self.len(n);
        let ghost start = self.0@;
        let mut i: usize = 0;
        while i < n
            invariant
                n == steps.len(),
                steps == p.view(),
                i <= n,
                self.0@ == start + list_bytes(steps.take(i as int), step_item()),
            decreases n - i,
        {
            let st = p.step(i);
            self.origin(&st.0);
            self.opt_site(st.1);
            proof {
                lemma_list_step(steps, step_item(), i as int);
            }
            i += 1;
        }
        assert(steps.take(n as int) =~= steps);
    }
}

} // verus!

verus! {

/// Two pieces, one after the other at the start of `r`, make a prefix.
pub proof fn lemma_prefix_join(x: Seq<u8>, y: Seq<u8>, r: Seq<u8>)
    requires
        x.is_prefix_of(r),
        y.is_prefix_of(r.skip(x.len() as int)),
    ensures
        (x + y).is_prefix_of(r),
{
    assert(x + y =~= r.subrange(0, (x + y).len() as int));
}

impl<'a> R<'a> {
    /// Reads a configuration key.
    pub fn cfg_key(&mut self, Ghost(exp): Ghost<CfgKey>) -> (r: Option<CfgKey>)
        requires
            old(self).i <= old(self).b@.len(),
        ensures
            old(self).moved_on(*final(self)),
            r is Some ==> cfg_key_fits(r->0) && cfg_key_bytes(r->0).is_prefix_of(old(self).rest())
                && final(self).i == old(self).i + cfg_key_bytes(r->0).len(),
            cfg_key_fits(exp) && cfg_key_bytes(exp).is_prefix_of(old(self).rest()) ==> r is Some
                && cfg_key_bytes(r->0) == cfg_key_bytes(exp),
    {
        let ghost rest = self.rest();
        let ghost expecting = cfg_key_fits(exp) && cfg_key_bytes(exp).is_prefix_of(rest);
        proof {
            if expecting {
                lemma_tag(ns_tag(exp.ns), str_bytes(exp.name@), rest);
            }
        }
        let tag = match self.u8() {
            Some(t) => t,
            None => {
                return None;
            },
        };
        assert(self.rest() =~= rest.skip(1));
        let ns = match tag {
            0 => Ns::Cfg,
            1 => Ns::Host,
            2 => Ns::Feature,
            3 => Ns::Tc,
            4 => Ns::Target,
            5 => Ns::Pkg,
            _ => {
                return None;
            },
        };
        assert(ns_tag(ns) == tag);
        proof {
            if expecting {
                lemma_str_reads_back(exp.name@, rest.skip(1));
            }
        }
        let name = match self.str() {
            Some(s) => s,
            None => {
                return None;
            },
        };
        let k = CfgKey { ns, name };
        proof {
            lemma_str_at_sound(rest.skip(1));
            assert(seq![tag].is_prefix_of(rest));
            lemma_prefix_join(seq![tag], str_bytes(k.name@), rest);
        }
        Some(k)
    }

    /// Reads a predicate.
    pub fn pred(&mut self, Ghost(exp): Ghost<Pred>) -> (r: Option<Pred>)
        requires
            old(self).i <= old(self).b@.len(),
        ensures
            old(self).moved_on(*final(self)),
            r is Some ==> pred_fits(r->0) && pred_bytes(r->0).is_prefix_of(old(self).rest())
                && final(self).i == old(self).i + pred_bytes(r->0).len(),
            pred_fits(exp) && pred_bytes(exp).is_prefix_of(old(self).rest()) ==> r is Some
                && pred_bytes(r->0) == pred_bytes(exp),
        decreases old(self).b@.len() - old(self).i,
    {
        let ghost rest = self.rest();
        let ghost expecting = pred_fits(exp) && pred_bytes(exp).is_prefix_of(rest);
        let ghost (e_tag, e_body) = match exp {
            Pred::Flag(k) => (0u8, cfg_key_bytes(k)),
            Pred::Eq(k, v) => (1u8, cfg_key_bytes(k) + str_bytes(v@)),
            Pred::Not(a) => (2u8, pred_bytes(*a)),
            Pred::And(a, b) => (3u8, pred_bytes(*a) + pred_bytes(*b)),
            Pred::Or(a, b) => (4u8, pred_bytes(*a) + pred_bytes(*b)),
        };
        proof {
            assert(pred_bytes(exp) =~= seq![e_tag] + e_body);
            if expecting {
                lemma_tag(e_tag, e_body, rest);
            }
        }
        let tag = match self.u8() {
            Some(t) => t,
            None => {
                return None;
            },
        };
        let ghost rest1 = self.rest();
        assert(rest1 =~= rest.skip(1));
        assert(seq![tag].is_prefix_of(rest));
        if tag == 0 || tag == 1 {
            let ghost ek = match exp {
                Pred::Flag(k) => k,
                Pred::Eq(k, _) => k,
                _ => vstd::pervasive::arbitrary(),
            };
            proof {
                if expecting {
                    if tag == 1 {
                        lemma_prefix_cat(cfg_key_bytes(ek), str_bytes(exp->Eq_1@), rest1);
                    }
                }
            }
            let k = match self.cfg_key(Ghost(ek)) {
                Some(k) => k,
                None => {
                    return None;
                },
            };
            if tag == 0 {
                let p = Pred::Flag(k);
                proof {
                    lemma_prefix_join(seq![tag], cfg_key_bytes(k), rest);
                    assert(pred_bytes(p) =~= seq![tag] + cfg_key_bytes(k));
                }
                return Some(p);
            }
            let ghost rest2 = self.rest();
            assert(rest2 =~= rest1.skip(cfg_key_bytes(k).len() as int));
            proof {
                if expecting {
                    lemma_prefix_cat(cfg_key_bytes(ek), str_bytes(exp->Eq_1@), rest1);
                    lemma_str_reads_back(exp->Eq_1@, rest2);
                }
            }
            let v = match self.str() {
                Some(v) => v,
                None => {
                    return None;
                },
            };
            let p = Pred::Eq(k, v);
            proof {
                lemma_str_at_sound(rest2);
                lemma_prefix_join(cfg_key_bytes(k), str_bytes(v@), rest1);
                lemma_prefix_join(seq![tag], cfg_key_bytes(k) + str_bytes(v@), rest);
                assert(pred_bytes(p) =~= seq![tag] + (cfg_key_bytes(k) + str_bytes(v@)));
                if expecting {
                    assert(pred_bytes(exp) =~= seq![1u8] + (cfg_key_bytes(ek) + str_bytes(exp->Eq_1@)));
                }
            }
            return Some(p);
        }
        if tag == 2 {
            let ghost ea = match exp {
                Pred::Not(a) => *a,
                _ => exp,
            };
            let a = match self.pred(Ghost(ea)) {
                Some(a) => a,
                None => {
                    return None;
                },
            };
            let p = Pred::Not(Box::new(a));
            proof {
                lemma_prefix_join(seq![tag], pred_bytes(a), rest);
                assert(pred_bytes(p) =~= seq![tag] + pred_bytes(a));
            }
            return Some(p);
        }
        if tag != 3 && tag != 4 {
            return None;
        }
        let ghost (ea, eb) = match exp {
            Pred::And(a, b) => (*a, *b),
            Pred::Or(a, b) => (*a, *b),
            _ => (exp, exp),
        };
        proof {
            if expecting {
                lemma_prefix_cat(pred_bytes(ea), pred_bytes(eb), rest1);
            }
        }
        let a = match self.pred(Ghost(ea)) {
            Some(a) => a,
            None => {
                return None;
            },
        };
        let ghost rest2 = self.rest();
        assert(rest2 =~= rest1.skip(pred_bytes(a).len() as int));
        let b = match self.pred(Ghost(eb)) {
            Some(b) => b,
            None => {
                return None;
            },
        };
        let p = if tag == 3 {
            Pred::And(Box::new(a), Box::new(b))
        } else {
            Pred::Or(Box::new(a), Box::new(b))
        };
        proof {
            lemma_prefix_join(pred_bytes(a), pred_bytes(b), rest1);
            lemma_prefix_join(seq![tag], pred_bytes(a) + pred_bytes(b), rest);
            assert(pred_bytes(p) =~= seq![tag] + (pred_bytes(a) + pred_bytes(b)));
            if expecting {
                assert(pred_bytes(exp) =~= seq![tag] + (pred_bytes(ea) + pred_bytes(eb)));
            }
        }
        Some(p)
    }
}

} // verus!

verus! {

/// The name given to a merge rule that is not known fits in the format.
pub proof fn lemma_unknown_fits()
    ensures
        str_fits("unknown"@),
{
    reveal_strlit("unknown");
    assert(vstd::utf8::is_ascii_chars("unknown"@));
    vstd::utf8::is_ascii_chars_encode_utf8("unknown"@);
}

impl<'a> R<'a> {
    /// Reads an origin. A merge rule that is not known reads as `unknown`.
    pub fn origin(&mut self, Ghost(exp): Ghost<Origin>) -> (r: Option<Origin>)
        requires
            old(self).i <= old(self).b@.len(),
        ensures
            old(self).moved_on(*final(self)),
            r is Some ==> origin_fits(r->0),
            origin_fits(exp) && origin_bytes(exp).is_prefix_of(old(self).rest()) ==> r is Some
                && origin_bytes(r->0) == origin_bytes(exp) && final(self).i == old(self).i
                + origin_bytes(exp).len(),
    {
        let ghost rest = self.rest();
        let ghost expecting = origin_fits(exp) && origin_bytes(exp).is_prefix_of(rest);
        let ghost (e_tag, s1, s2) = match exp {
            Origin::Literal => (0u8, Seq::<char>::empty(), Seq::<char>::empty()),
            Origin::Call(f) => (1u8, f@, Seq::<char>::empty()),
            Origin::MatchArm(p) => (2u8, p@, Seq::<char>::empty()),
            Origin::WhenTrue(p) => (3u8, p@, Seq::<char>::empty()),
            Origin::Propagated { from, prop } => (4u8, from@, prop@),
            Origin::Merged { prop, rule } => (5u8, prop@, rule@),
            Origin::Config => (6u8, Seq::<char>::empty(), Seq::<char>::empty()),
            Origin::Default => (7u8, Seq::<char>::empty(), Seq::<char>::empty()),
        };
        let ghost body = if e_tag == 0 || e_tag >= 6 {
            Seq::<u8>::empty()
        } else if e_tag <= 3 {
            str_bytes(s1)
        } else {
            str_bytes(s1) + str_bytes(s2)
        };
        proof {
            assert(origin_bytes(exp) =~= seq![e_tag] + body);
            if expecting {
                lemma_tag(e_tag, body, rest);
                if e_tag == 5 {
                    lemma_unknown_fits();
                }
            }
        }
        let tag = match self.u8() {
            Some(t) => t,
            None => {
                return None;
            },
        };
        let ghost rest1 = self.rest();
        assert(rest1 =~= rest.skip(1));
        if tag == 0 {
            return Some(Origin::Literal);
        } else if tag == 6 {
            return Some(Origin::Config);
        } else if tag == 7 {
            return Some(Origin::Default);
        } else if tag > 7 {
            return None;
        }
        proof {
            if expecting {
                if e_tag >= 4 {
                    lemma_prefix_cat(str_bytes(s1), str_bytes(s2), rest1);
                }
                lemma_str_reads_back(s1, rest1);
            }
        }
        let first = match self.str() {
            Some(s) => s,
            None => {
                return None;
            },
        };
        proof {
            lemma_str_at_sound(rest1);
        }
        if tag == 1 {
            return Some(Origin::Call(first));
        } else if tag == 2 {
            return Some(Origin::MatchArm(first));
        } else if tag == 3 {
            return Some(Origin::WhenTrue(first));
        }
        let ghost rest2 = self.rest();
        assert(rest2 =~= rest1.skip(str_bytes(first@).len() as int));
        proof {
            if expecting {
                lemma_str_reads_back(s2, rest2);
            }
        }
        let second = match self.str() {
            Some(s) => s,
            None => {
                return None;
            },
        };
        proof {
            lemma_str_at_sound(rest2);
        }
        if tag == 4 {
            Some(Origin::Propagated { from: first, prop: second })
        } else {
            let rule = merge_rule(second.as_str());
            proof {
                lemma_unknown_fits();
            }
            Some(Origin::Merged { prop: first, rule })
        }
    }

    /// Reads a provenance chain.
    pub fn prov(&mut self, Ghost(exp): Ghost<Prov>) -> (r: Option<Prov>)
        requires
            old(self).i <= old(self).b@.len(),
        ensures
            old(self).moved_on(*final(self)),
            r is Some ==> steps_fit(r->0.view()),
            steps_fit(exp.view()) && steps_bytes(exp.view()).is_prefix_of(old(self).rest()) ==> r is Some
                && steps_bytes(r->0.view()) == steps_bytes(exp.view()) && final(self).i == old(self).i
                + steps_bytes(exp.view()).len(),
    {
        let ghost e = exp.view();
        let ghost rest = self.rest();
        let ghost i0 = self.i;
        let ghost expecting = steps_fit(e) && steps_bytes(e).is_prefix_of(rest);
        proof {
            lemma_auto_spec_u32_to_from_le_bytes();
            if expecting {
                lemma_prefix_cat(len_bytes(e.len()), list_bytes(e, step_item()), rest);
                assert(rest.take(4) =~= len_bytes(e.len()));
                assert(len_u32(e.len()) == e.len());
                assert forall|x: (Origin, Option<Site>)| #[trigger] step_item()(x).len() >= 1 by {
                    assert(origin_bytes(x.0).len() >= 1);
                }
                lemma_list_len(e, step_item());
            }
        }
        let n = match self.len() {
            Some(n) => n,
            None => {
                return None;
            },
        };
        assert(self.rest() =~= rest.skip(4));
        let mut out: Vec<(Origin, Option<Site>)> = Vec::new();
        let mut k: usize = 0;
        while k < n
            invariant
                self.b == old(self).b,
                i0 + 4 <= self.i <= self.b@.len(),
                rest == old(self).rest(),
                i0 == old(self).i,
                k <= n,
                n <= u32::MAX,
                out@.len() == k,
                forall|j: int| 0 <= j < k ==> origin_fits(#[trigger] out@[j].0),
                e == exp.view(),
                expecting == (steps_fit(e) && steps_bytes(e).is_prefix_of(rest)),
                expecting ==> n == e.len() && list_bytes(out@, step_item()) == list_bytes(
                    e.take(k as int),
                    step_item(),
                ) && self.i == i0 + 4 + list_bytes(e.take(k as int), step_item()).len(),
            decreases n - k,
        {
            let ghost here = self.rest();
            let ghost ek = if (k as int) < e.len() {
                e[k as int]
            } else {
                vstd::pervasive::arbitrary()
            };
            proof {
                if expecting {
                    lemma_auto_spec_u32_to_from_le_bytes();
                    assert(len_bytes(e.len()).len() == 4);
                    lemma_prefix_cat(len_bytes(e.len()), list_bytes(e, step_item()), rest);
                    lemma_list_split(e, step_item(), k as int);
                    lemma_list_split(e.skip(k as int), step_item(), 1);
                    assert(e.skip(k as int).take(1) =~= seq![ek]);
                    lemma_list_one(ek, step_item());
                    let pre = list_bytes(e.take(k as int), step_item());
                    lemma_prefix_cat(pre, list_bytes(e.skip(k as int), step_item()), rest.skip(4));
                    assert(here =~= rest.skip(4).skip(pre.len() as int));
                    lemma_prefix_cat(
                        step_bytes(ek),
                        list_bytes(e.skip(k as int).skip(1), step_item()),
                        here,
                    );
                    lemma_prefix_cat(origin_bytes(ek.0), opt_site_bytes(ek.1), here);
                    assert(ek == e[k as int]);
                    assert(origin_fits(ek.0));
                }
            }
            let o = match self.origin(Ghost(ek.0)) {
                Some(o) => o,
                None => {
                    return None;
                },
            };
            let ghost mid = self.rest();
            proof {
                if expecting {
                    assert(mid =~= here.skip(origin_bytes(ek.0).len() as int));
                    assert(opt_site_bytes(ek.1).is_prefix_of(mid));
                }
            }
            let site = match self.opt_site() {
                Some(s) => s,
                None => {
                    return None;
                },
            };
            proof {
                if expecting {
                    assert(mid =~= here.skip(origin_bytes(ek.0).len() as int));
                    lemma_opt_site_unique(site, ek.1, mid);
                    lemma_list_step(e, step_item(), k as int);
                    assert(out@.push((o, site)).drop_last() =~= out@);
                }
            }
            out.push((o, site));
            k += 1;
        }
        let p = Prov::from_steps(out);
        proof {
            if expecting {
                assert(e.take(n as int) =~= e);
                lemma_prefix_cat(len_bytes(e.len()), list_bytes(e, step_item()), rest);
            }
        }
        Some(p)
    }
}

} // verus!

verus! {

/// The tag byte of a path's base.
pub open spec fn base_tag(b: PathBase) -> u8 {
    match b {
        PathBase::Package => 0,
        PathBase::BuildDir => 1,
        PathBase::Sysroot => 2,
    }
}

/// The bytes of a `match` pattern.
pub open spec fn pattern_bytes(p: Pattern) -> Seq<u8> {
    match p {
        Pattern::Wildcard => seq![0u8],
        Pattern::Value(s) => seq![1u8] + str_bytes(s@),
    }
}

pub open spec fn pattern_fits(p: Pattern) -> bool {
    match p {
        Pattern::Wildcard => true,
        Pattern::Value(s) => str_fits(s@),
    }
}

/// The bytes of a value: its type, what it holds, and its provenance.
pub open spec fn value_bytes(v: Value) -> Seq<u8>
    decreases v, 2nat,
{
    type_bytes(v.ty) + data_bytes(v.data) + steps_bytes(v.prov.view())
}

/// The bytes of what a value holds: a tag, then the contents.
pub open spec fn data_bytes(d: Data) -> Seq<u8>
    decreases d, 1nat,
{
    match d {
        Data::Str(s) => seq![0u8] + str_bytes(s@),
        Data::Int(i) => seq![1u8] + i64_bytes(i),
        Data::Bool(b) => seq![2u8, bool_byte(b)],
        Data::Path(p) => seq![3u8, base_tag(p.base)] + str_bytes(p.rel@),
        Data::Glob(s) => seq![4u8] + str_bytes(s@),
        Data::Dep(s) => seq![5u8] + str_bytes(s@),
        Data::Target(s) => seq![6u8] + str_bytes(s@),
        Data::List(items) => seq![7u8] + len_bytes(items@.len()) + values_list(items@),
        Data::MapOf(rows) => seq![8u8] + len_bytes(rows@.len()) + rows_list(rows@),
        Data::Match { scrutinee, arms } => seq![9u8] + cfg_key_bytes(scrutinee) + len_bytes(
            arms@.len(),
        ) + arms_list(arms@),
        Data::When { pred, inner } => seq![10u8] + pred_bytes(pred) + value_bytes(*inner),
        Data::Error => seq![11u8],
        Data::PkgRef(s) => seq![12u8] + str_bytes(s@),
    }
}

/// The bytes of values one after another.
pub open spec fn values_list(s: Seq<Value>) -> Seq<u8>
    decreases s, 0nat,
{
    if s.len() == 0 {
        Seq::empty()
    } else {
        values_list(s.subrange(0, s.len() - 1)) + value_bytes(s[s.len() - 1])
    }
}

/// The bytes of map entries one after another: each key, then its value.
pub open spec fn rows_list(s: Seq<(String, Value)>) -> Seq<u8>
    decreases s, 0nat,
{
    if s.len() == 0 {
        Seq::empty()
    } else {
        rows_list(s.subrange(0, s.len() - 1)) + str_bytes(s[s.len() - 1].0@) + value_bytes(
            s[s.len() - 1].1,
        )
    }
}

/// The bytes of `match` arms one after another: pattern, site, value.
pub open spec fn arms_list(s: Seq<MatchArm>) -> Seq<u8>
    decreases s, 0nat,
{
    if s.len() == 0 {
        Seq::empty()
    } else {
        arms_list(s.subrange(0, s.len() - 1)) + pattern_bytes(s[s.len() - 1].pattern) + site_bytes(
            s[s.len() - 1].site,
        ) + value_bytes(s[s.len() - 1].value)
    }
}

/// Whether a value can be written in the format and read back: every
/// string and list fits in the 32-bit lengths, map keys strictly increase,
/// and merge rules are known ones or `unknown`.
pub open spec fn value_fits(v: Value) -> bool
    decreases v, 2nat,
{
    data_fits(v.data) && steps_fit(v.prov.view())
}

pub open spec fn data_fits(d: Data) -> bool
    decreases d, 1nat,
{
    match d {
        Data::Str(s) => str_fits(s@),
        Data::Path(p) => str_fits(p.rel@),
        Data::Glob(s) => str_fits(s@),
        Data::Dep(s) => str_fits(s@),
        Data::Target(s) => str_fits(s@),
        Data::PkgRef(s) => str_fits(s@),
        Data::List(items) => fits(items@.len()) && values_fit(items@),
        Data::MapOf(rows) => fits(rows@.len()) && strictly_sorted(names_of(rows_view(rows@)))
            && rows_fit(rows@),
        Data::Match { scrutinee, arms } => cfg_key_fits(scrutinee) && fits(arms@.len()) && arms_fit(
            arms@,
        ),
        Data::When { pred, inner } => pred_fits(pred) && value_fits(*inner),
        _ => true,
    }
}

pub open spec fn values_fit(s: Seq<Value>) -> bool
    decreases s, 0nat,
{
    if s.len() == 0 {
        true
    } else {
        values_fit(s.subrange(0, s.len() - 1)) && value_fits(s[s.len() - 1])
    }
}

pub open spec fn rows_fit(s: Seq<(String, Value)>) -> bool
    decreases s, 0nat,
{
    if s.len() == 0 {
        true
    } else {
        rows_fit(s.subrange(0, s.len() - 1)) && str_fits(s[s.len() - 1].0@) && value_fits(
            s[s.len() - 1].1,
        )
    }
}

pub open spec fn arms_fit(s: Seq<MatchArm>) -> bool
    decreases s, 0nat,
{
    if s.len() == 0 {
        true
    } else {
        arms_fit(s.subrange(0, s.len() - 1)) && pattern_fits(s[s.len() - 1].pattern) && value_fits(
            s[s.len() - 1].value,
        )
    }
}

/// The writers of one value, entry and arm, as functions.
pub open spec fn value_item() -> spec_fn(Value) -> Seq<u8> {
    |v: Value| value_bytes(v)
}

pub open spec fn row_item() -> spec_fn((String, Value)) -> Seq<u8> {
    |r: (String, Value)| str_bytes(r.0@) + value_bytes(r.1)
}

pub open spec fn arm_item() -> spec_fn(MatchArm) -> Seq<u8> {
    |a: MatchArm| pattern_bytes(a.pattern) + site_bytes(a.site) + value_bytes(a.value)
}

/// The three lists are the general list of their items.
pub proof fn lemma_lists(v: Seq<Value>, r: Seq<(String, Value)>, a: Seq<MatchArm>)
    ensures
        values_list(v) == list_bytes(v, value_item()),
        rows_list(r) == list_bytes(r, row_item()),
        arms_list(a) == list_bytes(a, arm_item()),
    decreases v.len() + r.len() + a.len(),
{
    if v.len() > 0 {
        lemma_lists(v.drop_last(), r, a);
        assert(v.drop_last() =~= v.subrange(0, v.len() - 1));
    }
    if r.len() > 0 {
        lemma_lists(v, r.drop_last(), a);
        assert(r.drop_last() =~= r.subrange(0, r.len() - 1));
        assert(rows_list(r) =~= list_bytes(r, row_item()));
    }
    if a.len() > 0 {
        lemma_lists(v, r, a.drop_last());
        assert(a.drop_last() =~= a.subrange(0, a.len() - 1));
        assert(arms_list(a) =~= list_bytes(a, arm_item()));
    }
}

/// A sequence of items fits when each item does, and conversely.
pub proof fn lemma_values_fit(s: Seq<Value>)
    ensures
        values_fit(s) <==> forall|j: int| 0 <= j < s.len() ==> value_fits(#[trigger] s[j]),
    decreases s.len(),
{
    if s.len() > 0 {
        let p = s.subrange(0, s.len() - 1);
        lemma_values_fit(p);
        if forall|j: int| 0 <= j < s.len() ==> value_fits(#[trigger] s[j]) {
            assert forall|j: int| 0 <= j < p.len() implies value_fits(#[trigger] p[j]) by {
                assert(p[j] == s[j]);
            }
        }
        if values_fit(s) {
            assert forall|j: int| 0 <= j < s.len() implies value_fits(#[trigger] s[j]) by {
                if j < p.len() {
                    assert(p[j] == s[j]);
                }
            }
        }
    }
}

pub proof fn lemma_rows_fit(s: Seq<(String, Value)>)
    ensures
        rows_fit(s) <==> forall|j: int|
            0 <= j < s.len() ==> str_fits((#[trigger] s[j]).0@) && value_fits(s[j].1),
    decreases s.len(),
{
    if s.len() > 0 {
        let p = s.subrange(0, s.len() - 1);
        lemma_rows_fit(p);
        if forall|j: int| 0 <= j < s.len() ==> str_fits((#[trigger] s[j]).0@) && value_fits(s[j].1) {
            assert forall|j: int| 0 <= j < p.len() implies str_fits((#[trigger] p[j]).0@) && value_fits(
                p[j].1,
            ) by {
                assert(p[j] == s[j]);
            }
        }
        if rows_fit(s) {
            assert forall|j: int| 0 <= j < s.len() implies str_fits((#[trigger] s[j]).0@) && value_fits(
                s[j].1,
            ) by {
                if j < p.len() {
                    assert(p[j] == s[j]);
                }
            }
        }
    }
}

pub proof fn lemma_arms_fit(s: Seq<MatchArm>)
    ensures
        arms_fit(s) <==> forall|j: int|
            0 <= j < s.len() ==> pattern_fits(#[trigger] s[j].pattern) && value_fits(s[j].value),
    decreases s.len(),
{
    if s.len() > 0 {
        let p = s.subrange(0, s.len() - 1);
        lemma_arms_fit(p);
        if forall|j: int|
            0 <= j < s.len() ==> pattern_fits(#[trigger] s[j].pattern) && value_fits(s[j].value) {
            assert forall|j: int| 0 <= j < p.len() implies pattern_fits(#[trigger] p[j].pattern)
                && value_fits(p[j].value) by {
                assert(p[j] == s[j]);
            }
        }
        if arms_fit(s) {
            assert forall|j: int| 0 <= j < s.len() implies pattern_fits(#[trigger] s[j].pattern)
                && value_fits(s[j].value) by {
                if j < p.len() {
                    assert(p[j] == s[j]);
                }
            }
        }
    }
}

} // verus!

verus! {

impl W {
    pub fn pattern(&mut self, p: &Pattern)
        ensures
            final(self).0@ == old(self).0@ + pattern_bytes(*p),
    {
        match p {
            Pattern::Wildcard => self.u8(0),
            Pattern::Value(s) => {
                self.u8(1);
                self.str(s.as_str());
            },
        }
        assert(self.0@ =~= old(self).0@ + pattern_bytes(*p));
    }

    /// Writes a value: its type, what it holds, and its provenance.
    pub fn value(&mut self, v: &Value)
        ensures
            final(self).0@ == old(self).0@ + value_bytes(*v),
        decreases v, 1nat,
    {
        let ghost start = self.0@;
        self.ty(&v.ty);
        self.data(&v.data);
        self.prov(&v.prov);
        assert(self.0@ =~= start + value_bytes(*v));
    }

    /// Writes what a value holds.
    pub fn data(&mut self, d: &Data)
        ensures
            final(self).0@ == old(self).0@ + data_bytes(*d),
        decreases d, 0nat,
    {
        let ghost start = self.0@;
        match d {
            Data::Str(s) => {
                self.u8(0);
                self.str(s.as_str());
            },
            Data::Int(i) => {
                self.u8(1);
                self.i64(*i);
            },
            Data::Bool(b) => {
                self.u8(2);
                self.bool(*b);
            },
            Data::Path(p) => {
                self.u8(3);
                self.u8(
                    match p.base {
                        PathBase::Package => 0,
                        PathBase::BuildDir => 1,
                        PathBase::Sysroot => 2,
                    },
                );
                self.str(p.rel.as_str());
            },
            Data::Glob(s) => {
                self.u8(4);
                self.str(s.as_str());
            },
            Data::Dep(s) => {
                self.u8(5);
                self.str(s.as_str());
            },
            Data::Target(s) => {
                self.u8(6);
                self.str(s.as_str());
            },
            Data::List(items) => {
                self.u8(7);
                self.len(items.len());
                let ghost mid = self.0@;
                let mut i: usize = 0;
                while i < items.len()
                    invariant
                        i <= items@.len(),
                        *d == Data::List(*items),
                        self.0@ == mid + values_list(items@.take(i as int)),
                    decreases items.len() - i,
                {
                    proof {
                        assert(decreases_to!(*d => d->List_0));
                        vstd::std_specs::vec::axiom_vec_index_decreases(*items, i as int);
                    }
                    self.value(&items[i]);
                    assert(items@.take(i + 1).subrange(0, i as int) =~= items@.take(i as int));
                    i += 1;
                }
                assert(items@.take(i as int) =~= items@);
            },
            Data::MapOf(rows) => {
                self.u8(8);
                self.len(rows.len());
                let ghost mid = self.0@;
                let mut i: usize = 0;
                while i < rows.len()
                    invariant
                        i <= rows@.len(),
                        *d == Data::MapOf(*rows),
                        self.0@ == mid + rows_list(rows@.take(i as int)),
                    decreases rows.len() - i,
                {
                    proof {
                        assert(decreases_to!(*d => d->MapOf_0));
                        vstd::std_specs::vec::axiom_vec_index_decreases(*rows, i as int);
                        assert(decreases_to!(rows@[i as int] => rows@[i as int].1));
                    }
                    self.str(rows[i].0.as_str());
                    self.value(&rows[i].1);
                    assert(rows@.take(i + 1).subrange(0, i as int) =~= rows@.take(i as int));
                    i += 1;
                }
                assert(rows@.take(i as int) =~= rows@);
            },
            Data::Match { scrutinee, arms } => {
                self.u8(9);
                self.cfg_key(scrutinee);
                self.len(arms.len());
                let ghost mid = self.0@;
                let mut i: usize = 0;
                while i < arms.len()
                    invariant
                        i <= arms@.len(),
                        *d == (Data::Match { scrutinee: *scrutinee, arms: *arms }),
                        self.0@ == mid + arms_list(arms@.take(i as int)),
                    decreases arms.len() - i,
                {
                    proof {
                        assert(decreases_to!(*d => d->arms));
                        vstd::std_specs::vec::axiom_vec_index_decreases(*arms, i as int);
                        assert(decreases_to!(arms@[i as int] => arms@[i as int].value));
                    }
                    self.pattern(&arms[i].pattern);
                    self.site(arms[i].site);
                    self.value(&arms[i].value);
                    assert(arms@.take(i + 1).subrange(0, i as int) =~= arms@.take(i as int));
                    i += 1;
                }
                assert(arms@.take(i as int) =~= arms@);
            },
            Data::When { pred, inner } => {
                self.u8(10);
                self.pred(pred);
                self.value(inner);
            },
            Data::Error => self.u8(11),
            Data::PkgRef(s) => {
                self.u8(12);
                self.str(s.as_str());
            },
        }
        assert(self.0@ =~= start + data_bytes(*d));
    }
}

} // verus!

verus! {

/// A length at the start of `r`, followed by items that take at least a
/// byte each, reads back, and passes the check on lengths.
pub proof fn lemma_len_reads(n: nat, body: Seq<u8>, r: Seq<u8>, whole: nat)
    requires
        fits(n),
        (len_bytes(n) + body).is_prefix_of(r),
        body.len() >= n,
        r.len() <= whole,
    ensures
        r.len() >= 4,
        spec_u32_from_le_bytes(r.take(4)) == n,
        n <= r.len() - 4,
        body.is_prefix_of(r.skip(4)),
{
    lemma_auto_spec_u32_to_from_le_bytes();
    assert(len_u32(n) == n);
    lemma_prefix_cat(len_bytes(n), body, r);
    assert(r.take(4) =~= len_bytes(n));
}

/// The item at position `k` of an encoded list starts where the items
/// before it end.
pub proof fn lemma_item_at<A>(e: Seq<A>, f: spec_fn(A) -> Seq<u8>, k: int, r: Seq<u8>)
    requires
        0 <= k < e.len(),
        list_bytes(e, f).is_prefix_of(r),
    ensures
        f(e[k]).is_prefix_of(r.skip(list_bytes(e.take(k), f).len() as int)),
{
    lemma_list_split(e, f, k);
    lemma_list_split(e.skip(k), f, 1);
    assert(e.skip(k).take(1) =~= seq![e[k]]);
    lemma_list_one(e[k], f);
    lemma_prefix_cat(list_bytes(e.take(k), f), list_bytes(e.skip(k), f), r);
    lemma_prefix_cat(
        f(e[k]),
        list_bytes(e.skip(k).skip(1), f),
        r.skip(list_bytes(e.take(k), f).len() as int),
    );
}

/// Every value, entry and arm takes at least one byte.
pub proof fn lemma_items_nonempty()
    ensures
        forall|v: Value| #[trigger] value_item()(v).len() >= 1,
        forall|x: (String, Value)| #[trigger] row_item()(x).len() >= 1,
        forall|a: MatchArm| #[trigger] arm_item()(a).len() >= 1,
{
    assert forall|v: Value| #[trigger] value_item()(v).len() >= 1 by {
        assert(type_bytes(v.ty).len() >= 1);
    }
    assert forall|x: (String, Value)| #[trigger] row_item()(x).len() >= 1 by {
        lemma_auto_spec_u32_to_from_le_bytes();
        assert(str_bytes(x.0@).len() >= 4);
    }
    assert forall|a: MatchArm| #[trigger] arm_item()(a).len() >= 1 by {
        assert(pattern_bytes(a.pattern).len() >= 1);
    }
}

/// An entry's bytes, from the entry seen with its key as characters.
pub open spec fn vrow_item() -> spec_fn((Seq<char>, Value)) -> Seq<u8> {
    |r: (Seq<char>, Value)| str_bytes(r.0) + value_bytes(r.1)
}

/// Entries have the bytes of their views.
pub proof fn lemma_rows_by_view(s: Seq<(String, Value)>)
    ensures
        list_bytes(s, row_item()) == list_bytes(rows_view(s), vrow_item()),
{
    lemma_list_same(s, row_item(), rows_view(s), vrow_item());
}

/// An `i64` reads back from its bytes.
pub proof fn lemma_i64_reads_back(x: i64)
    ensures
        spec_u64_from_le_bytes(i64_bytes(x)) as i64 == x,
{
    lemma_auto_spec_u64_to_from_le_bytes();
    assert((x as u64) as i64 == x) by (bit_vector);
}

/// In the entries of a map being read back in order, every key read so far
/// comes before the next one.
pub proof fn lemma_row_sorted_before(
    e: Seq<(String, Value)>,
    k: int,
    before: Seq<(String, Value)>,
    key: Seq<char>,
)
    requires
        0 <= k < e.len(),
        strictly_sorted(names_of(rows_view(e))),
        names_of(rows_view(before)) == names_of(rows_view(e.take(k))),
        key == e[k].0@,
    ensures
        forall|j: int| 0 <= j < before.len() ==> seq_less(#[trigger] before[j].0@, key),
{
    assert(names_of(rows_view(before)).len() == before.len());
    assert(names_of(rows_view(e.take(k))).len() == k);
    assert forall|j: int| 0 <= j < before.len() implies seq_less(#[trigger] before[j].0@, key) by {
        assert(names_of(rows_view(before))[j] == before[j].0@);
        assert(names_of(rows_view(e.take(k)))[j] == e[j].0@);
        assert(names_of(rows_view(e))[j] == e[j].0@);
        assert(names_of(rows_view(e))[k] == e[k].0@);
    }
}

/// One more entry read back in order extends what was read by the entry
/// expected next.
pub proof fn lemma_row_step(
    e: Seq<(String, Value)>,
    k: int,
    before: Seq<(String, Value)>,
    after: Seq<(String, Value)>,
    key: Seq<char>,
    v: Value,
)
    requires
        0 <= k < e.len(),
        names_of(rows_view(before)) == names_of(rows_view(e.take(k))),
        list_bytes(rows_view(before), vrow_item()) == list_bytes(e.take(k), row_item()),
        key == e[k].0@,
        value_bytes(v) == value_bytes(e[k].1),
        rows_view(after) == rows_view(before).push((key, v)),
        list_bytes(e.take(k + 1), row_item()) == list_bytes(e.take(k), row_item()) + row_item()(
            e[k],
        ),
    ensures
        names_of(rows_view(after)) == names_of(rows_view(e.take(k + 1))),
        list_bytes(rows_view(after), vrow_item()) == list_bytes(e.take(k + 1), row_item()),
        after.len() == before.len() + 1,
{
    assert(rows_view(after).drop_last() =~= rows_view(before));
    assert(rows_view(e.take(k + 1)) =~= rows_view(e.take(k)).push((e[k].0@, e[k].1)));
    assert(names_of(rows_view(after)) =~= names_of(rows_view(before)).push(key));
    assert(names_of(rows_view(e.take(k + 1))) =~= names_of(rows_view(e.take(k))).push(e[k].0@));
    assert(names_of(rows_view(after)) =~= names_of(rows_view(e.take(k + 1))));
    assert(after.len() == rows_view(after).len());
    assert(before.len() == rows_view(before).len());
}

impl<'a> R<'a> {
    /// Reads a `match` pattern.
    pub fn pattern(&mut self, Ghost(exp): Ghost<Pattern>) -> (r: Option<Pattern>)
        requires
            old(self).i <= old(self).b@.len(),
        ensures
            old(self).moved_on(*final(self)),
            pattern_fits(exp) && pattern_bytes(exp).is_prefix_of(old(self).rest()) ==> r is Some
                && pattern_bytes(r->0) == pattern_bytes(exp) && final(self).i == old(self).i
                + pattern_bytes(exp).len(),
    {
        let ghost rest = self.rest();
        let ghost expecting = pattern_fits(exp) && pattern_bytes(exp).is_prefix_of(rest);
        let ghost (e_tag, e_body) = match exp {
            Pattern::Wildcard => (0u8, Seq::<u8>::empty()),
            Pattern::Value(s) => (1u8, str_bytes(s@)),
        };
        proof {
            assert(pattern_bytes(exp) =~= seq![e_tag] + e_body);
            if expecting {
                lemma_tag(e_tag, e_body, rest);
            }
        }
        let tag = match self.u8() {
            Some(t) => t,
            None => {
                return None;
            },
        };
        assert(self.rest() =~= rest.skip(1));
        if tag == 0 {
            return Some(Pattern::Wildcard);
        }
        if tag != 1 {
            return None;
        }
        proof {
            if expecting {
                lemma_str_reads_back(exp->Value_0@, rest.skip(1));
            }
        }
        let s = match self.str() {
            Some(s) => s,
            None => {
                return None;
            },
        };
        Some(Pattern::Value(s))
    }

    /// Reads the values of a list: their number, then each value.
    pub fn values(&mut self, Ghost(e): Ghost<Seq<Value>>) -> (r: Option<Vec<Value>>)
        requires
            old(self).i <= old(self).b@.len(),
        ensures
            old(self).moved_on(*final(self)),
            fits(e.len()) && values_fit(e) && (len_bytes(e.len()) + values_list(e)).is_prefix_of(
                old(self).rest(),
            ) ==> r is Some && r->0@.len() == e.len() && values_list(r->0@) == values_list(e)
                && final(self).i == old(self).i + (len_bytes(e.len()) + values_list(e)).len(),
        decreases old(self).b@.len() - old(self).i, 0nat,
    {
        let ghost rest = self.rest();
        let ghost i0 = self.i;
        let ghost expecting = fits(e.len()) && values_fit(e) && (len_bytes(e.len()) + values_list(
            e,
        )).is_prefix_of(rest);
        proof {
            lemma_lists(e, Seq::empty(), Seq::empty());
            lemma_items_nonempty();
            lemma_values_fit(e);
            if expecting {
                lemma_list_len(e, value_item());
                lemma_len_reads(e.len(), values_list(e), rest, self.b@.len() as nat);
            }
        }
        let n = match self.len() {
            Some(n) => n,
            None => {
                return None;
            },
        };
        assert(self.rest() =~= rest.skip(4));
        let mut out: Vec<Value> = Vec::new();
        let mut k: usize = 0;
        while k < n
            invariant
                self.b == old(self).b,
                i0 == old(self).i,
                rest == old(self).rest(),
                i0 + 4 <= self.i <= self.b@.len(),
                k <= n,
                out@.len() == k,
                expecting == (fits(e.len()) && values_fit(e) && (len_bytes(e.len()) + values_list(
                    e,
                )).is_prefix_of(rest)),
                expecting ==> n == e.len() && (forall|j: int|
                    0 <= j < e.len() ==> value_fits(#[trigger] e[j])) && list_bytes(
                    e,
                    value_item(),
                ).is_prefix_of(rest.skip(4)) && list_bytes(out@, value_item()) == list_bytes(
                    e.take(k as int),
                    value_item(),
                ) && self.i == i0 + 4 + list_bytes(e.take(k as int), value_item()).len(),
            decreases n - k,
        {
            let ghost ek = if (k as int) < e.len() {
                e[k as int]
            } else {
                vstd::pervasive::arbitrary()
            };
            proof {
                if expecting {
                    lemma_item_at(e, value_item(), k as int, rest.skip(4));
                    assert(self.rest() =~= rest.skip(4).skip(
                        list_bytes(e.take(k as int), value_item()).len() as int,
                    ));
                    assert(value_fits(ek));
                }
            }
            let v = match self.value(Ghost(ek)) {
                Some(v) => v,
                None => {
                    return None;
                },
            };
            proof {
                if expecting {
                    lemma_list_step(e, value_item(), k as int);
                    assert(out@.push(v).drop_last() =~= out@);
                }
            }
            out.push(v);
            k += 1;
        }
        proof {
            lemma_auto_spec_u32_to_from_le_bytes();
            lemma_lists(out@, Seq::empty(), Seq::empty());
            lemma_lists(e, Seq::empty(), Seq::empty());
            if expecting {
                assert(e.take(n as int) =~= e);
            }
        }
        Some(out)
    }

    /// Reads the entries of a map: their number, then each key and value.
    /// Entries are kept in increasing order of key, one per key, a later
    /// entry replacing an earlier one with the same key, as a `BTreeMap`
    /// fills.
    #[verifier::rlimit(60)]
    pub fn rows(&mut self, Ghost(e): Ghost<Seq<(String, Value)>>) -> (r: Option<
        Vec<(String, Value)>,
    >)
        requires
            old(self).i <= old(self).b@.len(),
        ensures
            old(self).moved_on(*final(self)),
            r is Some ==> strictly_sorted(names_of(rows_view(r->0@))),
            fits(e.len()) && rows_fit(e) && strictly_sorted(names_of(rows_view(e))) && (len_bytes(
                e.len(),
            ) + rows_list(e)).is_prefix_of(old(self).rest()) ==> r is Some && r->0@.len()
                == e.len() && rows_list(r->0@) == rows_list(e) && final(self).i == old(self).i + (
            len_bytes(e.len()) + rows_list(e)).len(),
        decreases old(self).b@.len() - old(self).i, 0nat,
    {
        let ghost rest = self.rest();
        let ghost i0 = self.i;
        let ghost expecting = fits(e.len()) && rows_fit(e) && strictly_sorted(names_of(rows_view(e)))
            && (len_bytes(e.len()) + rows_list(e)).is_prefix_of(rest);
        proof {
            lemma_lists(Seq::empty(), e, Seq::empty());
            lemma_items_nonempty();
            lemma_rows_fit(e);
            if expecting {
                lemma_list_len(e, row_item());
                lemma_len_reads(e.len(), rows_list(e), rest, self.b@.len() as nat);
            }
        }
        let n = match self.len() {
            Some(n) => n,
            None => {
                return None;
            },
        };
        assert(self.rest() =~= rest.skip(4));
        let mut out: Vec<(String, Value)> = Vec::new();
        assert(names_of(rows_view(out@)) =~= Seq::<Seq<char>>::empty());
        let mut k: usize = 0;
        while k < n
            invariant
                self.b == old(self).b,
                i0 == old(self).i,
                rest == old(self).rest(),
                i0 + 4 <= self.i <= self.b@.len(),
                k <= n,
                strictly_sorted(names_of(rows_view(out@))),
                expecting == (fits(e.len()) && rows_fit(e) && strictly_sorted(
                    names_of(rows_view(e)),
                ) && (len_bytes(e.len()) + rows_list(e)).is_prefix_of(rest)),
                expecting ==> n == e.len() && out@.len() == k && (forall|j: int|
                    0 <= j < e.len() ==> str_fits((#[trigger] e[j]).0@) && value_fits(e[j].1))
                    && strictly_sorted(names_of(rows_view(e))) && list_bytes(
                    e,
                    row_item(),
                ).is_prefix_of(rest.skip(4)) && names_of(rows_view(out@)) == names_of(
                    rows_view(e.take(k as int)),
                ) && list_bytes(rows_view(out@), vrow_item()) == list_bytes(
                    e.take(k as int),
                    row_item(),
                ) && self.i == i0 + 4 + list_bytes(e.take(k as int), row_item()).len(),
            decreases n - k,
        {
            let ghost ek = if (k as int) < e.len() {
                e[k as int]
            } else {
                vstd::pervasive::arbitrary()
            };
            let ghost here = self.rest();
            proof {
                if expecting {
                    lemma_item_at(e, row_item(), k as int, rest.skip(4));
                    assert(here =~= rest.skip(4).skip(
                        list_bytes(e.take(k as int), row_item()).len() as int,
                    ));
                    assert(str_fits(ek.0@) && value_fits(ek.1));
                    lemma_prefix_cat(str_bytes(ek.0@), value_bytes(ek.1), here);
                    lemma_str_reads_back(ek.0@, here);
                }
            }
            let key = match self.str() {
                Some(s) => s,
                None => {
                    return None;
                },
            };
            proof {
                if expecting {
                    assert(self.rest() =~= here.skip(str_bytes(ek.0@).len() as int));
                }
            }
            let v = match self.value(Ghost(ek.1)) {
                Some(v) => v,
                None => {
                    return None;
                },
            };
            let ghost before = out@;
            proof {
                if expecting {
                    lemma_row_sorted_before(e, k as int, before, key@);
                }
            }
            insert_row(&mut out, key, v);
            proof {
                if expecting {
                    lemma_list_step(e, row_item(), k as int);
                    lemma_row_step(e, k as int, before, out@, key@, v);
                }
            }
            k += 1;
        }
        proof {
            lemma_auto_spec_u32_to_from_le_bytes();
            lemma_lists(Seq::empty(), out@, Seq::empty());
            lemma_lists(Seq::empty(), e, Seq::empty());
            lemma_rows_by_view(out@);
            if expecting {
                assert(e.take(n as int) =~= e);
                assert(out@.len() == rows_view(out@).len());
            }
        }
        Some(out)
    }

    /// Reads the arms of a `match`: their number, then each pattern, site
    /// and value.
    pub fn arms(&mut self, Ghost(e): Ghost<Seq<MatchArm>>) -> (r: Option<Vec<MatchArm>>)
        requires
            old(self).i <= old(self).b@.len(),
        ensures
            old(self).moved_on(*final(self)),
            fits(e.len()) && arms_fit(e) && (len_bytes(e.len()) + arms_list(e)).is_prefix_of(
                old(self).rest(),
            ) ==> r is Some && r->0@.len() == e.len() && arms_list(r->0@) == arms_list(e)
                && final(self).i == old(self).i + (len_bytes(e.len()) + arms_list(e)).len(),
        decreases old(self).b@.len() - old(self).i, 0nat,
    {
        let ghost rest = self.rest();
        let ghost i0 = self.i;
        let ghost expecting = fits(e.len()) && arms_fit(e) && (len_bytes(e.len()) + arms_list(
            e,
        )).is_prefix_of(rest);
        proof {
            lemma_lists(Seq::empty(), Seq::empty(), e);
            lemma_items_nonempty();
            lemma_arms_fit(e);
            if expecting {
                lemma_list_len(e, arm_item());
                lemma_len_reads(e.len(), arms_list(e), rest, self.b@.len() as nat);
            }
        }
        let n = match self.len() {
            Some(n) => n,
            None => {
                return None;
            },
        };
        assert(self.rest() =~= rest.skip(4));
        let mut out: Vec<MatchArm> = Vec::new();
        let mut k: usize = 0;
        while k < n
            invariant
                self.b == old(self).b,
                i0 == old(self).i,
                rest == old(self).rest(),
                i0 + 4 <= self.i <= self.b@.len(),
                k <= n,
                out@.len() == k,
                expecting == (fits(e.len()) && arms_fit(e) && (len_bytes(e.len()) + arms_list(
                    e,
                )).is_prefix_of(rest)),
                expecting ==> n == e.len() && (forall|j: int|
                    0 <= j < e.len() ==> pattern_fits((#[trigger] e[j]).pattern) && value_fits(
                        e[j].value,
                    )) && list_bytes(e, arm_item()).is_prefix_of(rest.skip(4)) && list_bytes(
                    out@,
                    arm_item(),
                ) == list_bytes(e.take(k as int), arm_item()) && self.i == i0 + 4 + list_bytes(
                    e.take(k as int),
                    arm_item(),
                ).len(),
            decreases n - k,
        {
            let ghost ek = if (k as int) < e.len() {
                e[k as int]
            } else {
                vstd::pervasive::arbitrary()
            };
            let ghost here = self.rest();
            proof {
                lemma_auto_spec_u32_to_from_le_bytes();
                lemma_auto_spec_u64_to_from_le_bytes();
                if expecting {
                    lemma_item_at(e, arm_item(), k as int, rest.skip(4));
                    assert(here =~= rest.skip(4).skip(
                        list_bytes(e.take(k as int), arm_item()).len() as int,
                    ));
                    assert(pattern_fits(ek.pattern) && value_fits(ek.value));
                    lemma_prefix_cat(
                        pattern_bytes(ek.pattern) + site_bytes(ek.site),
                        value_bytes(ek.value),
                        here,
                    );
                    lemma_prefix_cat(pattern_bytes(ek.pattern), site_bytes(ek.site), here);
                }
            }
            let pattern = match self.pattern(Ghost(ek.pattern)) {
                Some(p) => p,
                None => {
                    return None;
                },
            };
            let ghost at_site = self.rest();
            proof {
                if expecting {
                    assert(at_site =~= here.skip(pattern_bytes(ek.pattern).len() as int));
                    assert(site_bytes(ek.site).len() == 16);
                }
            }
            let site = match self.site() {
                Some(s) => s,
                None => {
                    return None;
                },
            };
            proof {
                if expecting {
                    assert(site_bytes(ek.site) =~= at_site.take(16));
                    assert(self.rest() =~= here.skip(
                        (pattern_bytes(ek.pattern) + site_bytes(ek.site)).len() as int,
                    ));
                }
            }
            let value = match self.value(Ghost(ek.value)) {
                Some(v) => v,
                None => {
                    return None;
                },
            };
            let arm = MatchArm { pattern, value, site };
            proof {
                if expecting {
                    lemma_list_step(e, arm_item(), k as int);
                    assert(out@.push(arm).drop_last() =~= out@);
                }
            }
            out.push(arm);
            k += 1;
        }
        proof {
            lemma_auto_spec_u32_to_from_le_bytes();
            lemma_lists(Seq::empty(), Seq::empty(), out@);
            lemma_lists(Seq::empty(), Seq::empty(), e);
            if expecting {
                assert(e.take(n as int) =~= e);
            }
        }
        Some(out)
    }

    /// Reads a value: its type, what it holds, and its provenance.
    pub fn value(&mut self, Ghost(exp): Ghost<Value>) -> (r: Option<Value>)
        requires
            old(self).i <= old(self).b@.len(),
        ensures
            old(self).moved_on(*final(self)),
            value_fits(exp) && value_bytes(exp).is_prefix_of(old(self).rest()) ==> r is Some
                && value_bytes(r->0) == value_bytes(exp) && final(self).i == old(self).i
                + value_bytes(exp).len(),
        decreases old(self).b@.len() - old(self).i, 2nat,
    {
        let ghost rest = self.rest();
        let ghost expecting = value_fits(exp) && value_bytes(exp).is_prefix_of(rest);
        let ghost tb = type_bytes(exp.ty);
        let ghost db = data_bytes(exp.data);
        let ghost sb = steps_bytes(exp.prov.view());
        proof {
            if expecting {
                let tail = rest.skip(value_bytes(exp).len() as int);
                assert(value_bytes(exp) =~= tb + (db + sb));
                assert(value_bytes(exp) =~= rest.subrange(0, value_bytes(exp).len() as int));
                assert(rest =~= value_bytes(exp) + tail);
                assert(rest =~= tb + ((db + sb) + tail));
                law_a_type_reads_back(exp.ty, (db + sb) + tail);
                lemma_prefix_cat(tb, db + sb, rest);
            }
        }
        let ty = match self.ty() {
            Some(t) => t,
            None => {
                return None;
            },
        };
        let ghost r1 = self.rest();
        proof {
            if expecting {
                assert(r1 =~= rest.skip(tb.len() as int));
                lemma_prefix_cat(db, sb, r1);
            }
        }
        let data = match self.data(Ghost(exp.data)) {
            Some(d) => d,
            None => {
                return None;
            },
        };
        let ghost r2 = self.rest();
        proof {
            if expecting {
                assert(r2 =~= r1.skip(db.len() as int));
            }
        }
        let prov = match self.prov(Ghost(exp.prov)) {
            Some(p) => p,
            None => {
                return None;
            },
        };
        Some(Value { ty, data, prov })
    }

    /// Reads what a value holds.
    pub fn data(&mut self, Ghost(exp): Ghost<Data>) -> (r: Option<Data>)
        requires
            old(self).i <= old(self).b@.len(),
        ensures
            old(self).moved_on(*final(self)),
            data_fits(exp) && data_bytes(exp).is_prefix_of(old(self).rest()) ==> r is Some
                && data_bytes(r->0) == data_bytes(exp) && final(self).i == old(self).i
                + data_bytes(exp).len(),
        decreases old(self).b@.len() - old(self).i, 1nat,
    {
        let ghost rest = self.rest();
        let ghost expecting = data_fits(exp) && data_bytes(exp).is_prefix_of(rest);
        let ghost (e_tag, e_body) = match exp {
            Data::Str(s) => (0u8, str_bytes(s@)),
            Data::Int(i) => (1u8, i64_bytes(i)),
            Data::Bool(b) => (2u8, seq![bool_byte(b)]),
            Data::Path(p) => (3u8, seq![base_tag(p.base)] + str_bytes(p.rel@)),
            Data::Glob(s) => (4u8, str_bytes(s@)),
            Data::Dep(s) => (5u8, str_bytes(s@)),
            Data::Target(s) => (6u8, str_bytes(s@)),
            Data::List(items) => (7u8, len_bytes(items@.len()) + values_list(items@)),
            Data::MapOf(rows) => (8u8, len_bytes(rows@.len()) + rows_list(rows@)),
            Data::Match { scrutinee, arms } => (
                9u8,
                cfg_key_bytes(scrutinee) + (len_bytes(arms@.len()) + arms_list(arms@)),
            ),
            Data::When { pred, inner } => (10u8, pred_bytes(pred) + value_bytes(*inner)),
            Data::Error => (11u8, Seq::<u8>::empty()),
            Data::PkgRef(s) => (12u8, str_bytes(s@)),
        };
        proof {
            assert(data_bytes(exp) =~= seq![e_tag] + e_body);
            if expecting {
                lemma_tag(e_tag, e_body, rest);
            }
        }
        let tag = match self.u8() {
            Some(t) => t,
            None => {
                return None;
            },
        };
        let ghost r1 = self.rest();
        assert(r1 =~= rest.skip(1));
        if tag == 0 || tag == 4 || tag == 5 || tag == 6 || tag == 12 {
            let ghost es = match exp {
                Data::Str(s) => s@,
                Data::Glob(s) => s@,
                Data::Dep(s) => s@,
                Data::Target(s) => s@,
                Data::PkgRef(s) => s@,
                _ => Seq::<char>::empty(),
            };
            proof {
                if expecting {
                    lemma_str_reads_back(es, r1);
                }
            }
            let s = match self.str() {
                Some(s) => s,
                None => {
                    return None;
                },
            };
            return Some(
                if tag == 0 {
                    Data::Str(s)
                } else if tag == 4 {
                    Data::Glob(s)
                } else if tag == 5 {
                    Data::Dep(s)
                } else if tag == 6 {
                    Data::Target(s)
                } else {
                    Data::PkgRef(s)
                },
            );
        } else if tag == 1 {
            proof {
                lemma_auto_spec_u64_to_from_le_bytes();
                if expecting {
                    lemma_i64_reads_back(exp->Int_0);
                    assert(r1.take(8) =~= i64_bytes(exp->Int_0));
                }
            }
            let v = match self.i64() {
                Some(v) => v,
                None => {
                    return None;
                },
            };
            return Some(Data::Int(v));
        } else if tag == 2 {
            let v = match self.bool() {
                Some(v) => v,
                None => {
                    return None;
                },
            };
            proof {
                if expecting {
                    assert(r1[0] == bool_byte(exp->Bool_0));
                }
            }
            return Some(Data::Bool(v));
        } else if tag == 3 {
            let ghost ep = match exp {
                Data::Path(p) => p,
                _ => vstd::pervasive::arbitrary(),
            };
            proof {
                if expecting {
                    lemma_tag(base_tag(ep.base), str_bytes(ep.rel@), r1);
                }
            }
            let base = match self.u8() {
                Some(0) => PathBase::Package,
                Some(1) => PathBase::BuildDir,
                Some(2) => PathBase::Sysroot,
                _ => {
                    return None;
                },
            };
            let ghost r2 = self.rest();
            proof {
                assert(r2 =~= r1.skip(1));
                if expecting {
                    lemma_str_reads_back(ep.rel@, r2);
                }
            }
            let rel = match self.str() {
                Some(s) => s,
                None => {
                    return None;
                },
            };
            return Some(Data::Path(PathValue { base, rel }));
        } else if tag == 7 {
            let ghost ei = match exp {
                Data::List(items) => items@,
                _ => Seq::<Value>::empty(),
            };
            let items = match self.values(Ghost(ei)) {
                Some(v) => v,
                None => {
                    return None;
                },
            };
            return Some(Data::List(items));
        } else if tag == 8 {
            let ghost er = match exp {
                Data::MapOf(rows) => rows@,
                _ => Seq::<(String, Value)>::empty(),
            };
            let rows = match self.rows(Ghost(er)) {
                Some(v) => v,
                None => {
                    return None;
                },
            };
            return Some(Data::MapOf(rows));
        } else if tag == 9 {
            let ghost (ek, ea) = match exp {
                Data::Match { scrutinee, arms } => (scrutinee, arms@),
                _ => (vstd::pervasive::arbitrary(), Seq::<MatchArm>::empty()),
            };
            proof {
                if expecting {
                    lemma_prefix_cat(cfg_key_bytes(ek), len_bytes(ea.len()) + arms_list(ea), r1);
                }
            }
            let scrutinee = match self.cfg_key(Ghost(ek)) {
                Some(k) => k,
                None => {
                    return None;
                },
            };
            let ghost r2 = self.rest();
            proof {
                if expecting {
                    assert(r2 =~= r1.skip(cfg_key_bytes(ek).len() as int));
                }
            }
            let arms = match self.arms(Ghost(ea)) {
                Some(a) => a,
                None => {
                    return None;
                },
            };
            let d = Data::Match { scrutinee, arms };
            proof {
                if expecting {
                    assert(data_bytes(d) =~= seq![9u8] + (cfg_key_bytes(scrutinee) + (len_bytes(
                        arms@.len(),
                    ) + arms_list(arms@))));
                }
            }
            return Some(d);
        } else if tag == 10 {
            let ghost (ep, ev) = match exp {
                Data::When { pred, inner } => (pred, *inner),
                _ => (vstd::pervasive::arbitrary(), vstd::pervasive::arbitrary()),
            };
            proof {
                if expecting {
                    lemma_prefix_cat(pred_bytes(ep), value_bytes(ev), r1);
                }
            }
            let pred = match self.pred(Ghost(ep)) {
                Some(p) => p,
                None => {
                    return None;
                },
            };
            let ghost r2 = self.rest();
            proof {
                if expecting {
                    assert(r2 =~= r1.skip(pred_bytes(ep).len() as int));
                }
            }
            let inner = match self.value(Ghost(ev)) {
                Some(v) => v,
                None => {
                    return None;
                },
            };
            let d = Data::When { pred, inner: Box::new(inner) };
            proof {
                if expecting {
                    assert(data_bytes(d) =~= seq![10u8] + (pred_bytes(pred) + value_bytes(inner)));
                }
            }
            return Some(d);
        } else if tag == 11 {
            return Some(Data::Error);
        }
        None
    }
}

} // verus!

verus! {

/// The bytes of a configuration reference: the key, then its site.
pub open spec fn cfg_ref_bytes(c: CfgRef) -> Seq<u8> {
    cfg_key_bytes(c.key) + site_bytes(c.site)
}

pub open spec fn cfg_ref_item() -> spec_fn(CfgRef) -> Seq<u8> {
    |c: CfgRef| cfg_ref_bytes(c)
}

/// The bytes of an entry: the key's segments and their spans, the site,
/// then the value.
pub open spec fn entry_bytes(e: Entry) -> Seq<u8> {
    names_bytes(strings_view(e.key@)) + spans_bytes(e.key_spans@) + site_bytes(e.site) + value_bytes(
        e.value,
    )
}

pub open spec fn entry_item() -> spec_fn(Entry) -> Seq<u8> {
    |e: Entry| entry_bytes(e)
}

/// The bytes of a table: the path's segments and their spans, whether it
/// is an array table, the site, then the entries.
pub open spec fn table_bytes(t: Table) -> Seq<u8> {
    names_bytes(strings_view(t.path@)) + spans_bytes(t.path_spans@) + seq![bool_byte(t.array)]
        + site_bytes(t.site) + len_bytes(t.entries@.len()) + list_bytes(t.entries@, entry_item())
}

pub open spec fn table_item() -> spec_fn(Table) -> Seq<u8> {
    |t: Table| table_bytes(t)
}

/// The bytes of a document: the format's version, the file's identity,
/// the configuration references, then the tables.
pub open spec fn document_bytes(d: Document) -> Seq<u8> {
    seq![VERSION] + u64_bytes(d.file.0) + len_bytes(d.cfg_refs@.len()) + list_bytes(
        d.cfg_refs@,
        cfg_ref_item(),
    ) + len_bytes(d.tables@.len()) + list_bytes(d.tables@, table_item())
}

pub open spec fn entry_fits(e: Entry) -> bool {
    names_fit(strings_view(e.key@)) && fits(e.key_spans@.len()) && value_fits(e.value)
}

pub open spec fn table_fits(t: Table) -> bool {
    names_fit(strings_view(t.path@)) && fits(t.path_spans@.len()) && fits(t.entries@.len())
        && forall|j: int| 0 <= j < t.entries@.len() ==> entry_fits(#[trigger] t.entries@[j])
}

/// Whether a document can be written in the format and read back: every
/// length fits in 32 bits, map keys strictly increase, and merge rules
/// are known ones or `unknown`.
pub open spec fn document_fits(d: Document) -> bool {
    &&& fits(d.cfg_refs@.len())
    &&& forall|j: int| 0 <= j < d.cfg_refs@.len() ==> cfg_key_fits(#[trigger] d.cfg_refs@[j].key)
    &&& fits(d.tables@.len())
    &&& forall|j: int| 0 <= j < d.tables@.len() ==> table_fits(#[trigger] d.tables@[j])
}

/// Two encodings of spans at the start of the same bytes are of the same
/// span.
pub proof fn lemma_span_unique(a: Span, b: Span, r: Seq<u8>)
    requires
        span_bytes(a).is_prefix_of(r),
        span_bytes(b).is_prefix_of(r),
    ensures
        a == b,
{
    lemma_auto_spec_u32_to_from_le_bytes();
    assert(span_bytes(a) =~= r.take(8));
    assert(span_bytes(b) =~= r.take(8));
    assert(span_bytes(a).subrange(0, 4) =~= u32_bytes(a.start));
    assert(span_bytes(b).subrange(0, 4) =~= u32_bytes(b.start));
    assert(span_bytes(a).subrange(4, 8) =~= u32_bytes(a.end));
    assert(span_bytes(b).subrange(4, 8) =~= u32_bytes(b.end));
}

impl W {
    pub fn cfg_ref(&mut self, c: &CfgRef)
        ensures
            final(self).0@ == old(self).0@ + cfg_ref_bytes(*c),
    {
        self.cfg_key(&c.key);
        self.site(c.site);
        assert(self.0@ =~= old(self).0@ + cfg_ref_bytes(*c));
    }

    pub fn entry(&mut self, e: &Entry)
        ensures
            final(self).0@ == old(self).0@ + entry_bytes(*e),
    {
        self.strs(e.key.as_slice());
        self.spans(e.key_spans.as_slice());
        self.site(e.site);
        self.value(&e.value);
        assert(self.0@ =~= old(self).0@ + entry_bytes(*e));
    }

    pub fn table(&mut self, t: &Table)
        ensures
            final(self).0@ == old(self).0@ + table_bytes(*t),
    {
        let ghost start = self.0@;
        self.strs(t.path.as_slice());
        self.spans(t.path_spans.as_slice());
        self.bool(t.array);
        self.site(t.site);
        self.len(t.entries.len());
        let ghost mid = self.0@;
        let mut i: usize = 0;
        while i < t.entries.len()
            invariant
                i <= t.entries@.len(),
                self.0@ == mid + list_bytes(t.entries@.take(i as int), entry_item()),
            decreases t.entries.len() - i,
        {
            self.entry(&t.entries[i]);
            proof {
                lemma_list_step(t.entries@, entry_item(), i as int);
            }
            i += 1;
        }
        assert(t.entries@.take(i as int) =~= t.entries@);
        assert(self.0@ =~= start + table_bytes(*t));
    }
}

/// Writes a document in the format.
pub fn encode_document(doc: &Document) -> (r: Vec<u8>)
    ensures
        r@ == document_bytes(*doc),
{
    let mut w = W(Vec::new());
    w.u8(VERSION);
    w.u64(doc.file.0);
    w.len(doc.cfg_refs.len());
    let ghost mid = w.0@;
    let mut i: usize = 0;
    while i < doc.cfg_refs.len()
        invariant
            i <= doc.cfg_refs@.len(),
            w.0@ == mid + list_bytes(doc.cfg_refs@.take(i as int), cfg_ref_item()),
        decreases doc.cfg_refs.len() - i,
    {
        w.cfg_ref(&doc.cfg_refs[i]);
        proof {
            lemma_list_step(doc.cfg_refs@, cfg_ref_item(), i as int);
        }
        i += 1;
    }
    assert(doc.cfg_refs@.take(i as int) =~= doc.cfg_refs@);
    w.len(doc.tables.len());
    let ghost mid2 = w.0@;
    let mut j: usize = 0;
    while j < doc.tables.len()
        invariant
            j <= doc.tables@.len(),
            w.0@ == mid2 + list_bytes(doc.tables@.take(j as int), table_item()),
        decreases doc.tables.len() - j,
    {
        w.table(&doc.tables[j]);
        proof {
            lemma_list_step(doc.tables@, table_item(), j as int);
        }
        j += 1;
    }
    assert(doc.tables@.take(j as int) =~= doc.tables@);
    assert(w.0@ =~= document_bytes(*doc));
    w.0
}

} // verus!

verus! {

impl<'a> R<'a> {
    /// Reads a list of strings.
    pub fn strs(&mut self, Ghost(e): Ghost<Seq<Seq<char>>>) -> (r: Option<Vec<String>>)
        requires
            old(self).i <= old(self).b@.len(),
        ensures
            old(self).moved_on(*final(self)),
            names_fit(e) && names_bytes(e).is_prefix_of(old(self).rest()) ==> r is Some
                && strings_view(r->0@) == e && final(self).i == old(self).i + names_bytes(e).len(),
    {
        let ghost rest = self.rest();
        let ghost i0 = self.i;
        let ghost expecting = names_fit(e) && names_bytes(e).is_prefix_of(rest);
        proof {
            lemma_auto_spec_u32_to_from_le_bytes();
            if expecting {
                assert forall|x: Seq<char>| #[trigger] str_item()(x).len() >= 1 by {
                    assert(str_bytes(x).len() >= 4);
                }
                lemma_list_len(e, str_item());
                lemma_len_reads(e.len(), list_bytes(e, str_item()), rest, self.b@.len() as nat);
            }
        }
        let n = match self.len() {
            Some(n) => n,
            None => {
                return None;
            },
        };
        assert(self.rest() =~= rest.skip(4));
        let mut out: Vec<String> = Vec::new();
        let mut k: usize = 0;
        while k < n
            invariant
                self.b == old(self).b,
                i0 == old(self).i,
                rest == old(self).rest(),
                i0 + 4 <= self.i <= self.b@.len(),
                k <= n,
                out@.len() == k,
                expecting == (names_fit(e) && names_bytes(e).is_prefix_of(rest)),
                expecting ==> n == e.len() && names_fit(e) && list_bytes(e, str_item()).is_prefix_of(
                    rest.skip(4),
                ) && strings_view(out@) == e.take(k as int) && self.i == i0 + 4 + list_bytes(
                    e.take(k as int),
                    str_item(),
                ).len(),
            decreases n - k,
        {
            proof {
                if expecting {
                    lemma_item_at(e, str_item(), k as int, rest.skip(4));
                    assert(self.rest() =~= rest.skip(4).skip(
                        list_bytes(e.take(k as int), str_item()).len() as int,
                    ));
                    assert(str_fits(e[k as int]));
                    lemma_str_reads_back(e[k as int], self.rest());
                }
            }
            let s = match self.str() {
                Some(s) => s,
                None => {
                    return None;
                },
            };
            proof {
                if expecting {
                    lemma_list_step(e, str_item(), k as int);
                    assert(strings_view(out@.push(s)) =~= e.take(k + 1));
                }
            }
            out.push(s);
            k += 1;
        }
        proof {
            if expecting {
                assert(e.take(n as int) =~= e);
            }
        }
        Some(out)
    }

    /// Reads a list of spans.
    pub fn spans(&mut self, Ghost(e): Ghost<Seq<Span>>) -> (r: Option<Vec<Span>>)
        requires
            old(self).i <= old(self).b@.len(),
        ensures
            old(self).moved_on(*final(self)),
            fits(e.len()) && spans_bytes(e).is_prefix_of(old(self).rest()) ==> r is Some && r->0@
                == e && final(self).i == old(self).i + spans_bytes(e).len(),
    {
        let ghost rest = self.rest();
        let ghost i0 = self.i;
        let ghost expecting = fits(e.len()) && spans_bytes(e).is_prefix_of(rest);
        proof {
            lemma_auto_spec_u32_to_from_le_bytes();
            if expecting {
                assert forall|x: Span| #[trigger] span_item()(x).len() >= 1 by {
                    assert(span_bytes(x).len() == 8);
                }
                lemma_list_len(e, span_item());
                lemma_len_reads(e.len(), list_bytes(e, span_item()), rest, self.b@.len() as nat);
            }
        }
        let n = match self.len() {
            Some(n) => n,
            None => {
                return None;
            },
        };
        assert(self.rest() =~= rest.skip(4));
        let mut out: Vec<Span> = Vec::new();
        let mut k: usize = 0;
        while k < n
            invariant
                self.b == old(self).b,
                i0 == old(self).i,
                rest == old(self).rest(),
                i0 + 4 <= self.i <= self.b@.len(),
                k <= n,
                out@.len() == k,
                expecting == (fits(e.len()) && spans_bytes(e).is_prefix_of(rest)),
                expecting ==> n == e.len() && list_bytes(e, span_item()).is_prefix_of(rest.skip(4))
                    && out@ == e.take(k as int) && self.i == i0 + 4 + list_bytes(
                    e.take(k as int),
                    span_item(),
                ).len(),
            decreases n - k,
        {
            proof {
                lemma_auto_spec_u32_to_from_le_bytes();
                if expecting {
                    lemma_item_at(e, span_item(), k as int, rest.skip(4));
                    assert(self.rest() =~= rest.skip(4).skip(
                        list_bytes(e.take(k as int), span_item()).len() as int,
                    ));
                    assert(span_bytes(e[k as int]).len() == 8);
                }
            }
            let ghost here = self.rest();
            let s = match self.span() {
                Some(s) => s,
                None => {
                    return None;
                },
            };
            proof {
                if expecting {
                    assert(span_bytes(s) =~= here.subrange(0, 8));
                    lemma_span_unique(s, e[k as int], here);
                    lemma_list_step(e, span_item(), k as int);
                    assert(out@.push(s) =~= e.take(k + 1));
                }
            }
            out.push(s);
            k += 1;
        }
        proof {
            if expecting {
                assert(e.take(n as int) =~= e);
            }
        }
        Some(out)
    }

    /// Reads the configuration references of a document.
    pub fn cfg_refs(&mut self, Ghost(e): Ghost<Seq<CfgRef>>) -> (r: Option<Vec<CfgRef>>)
        requires
            old(self).i <= old(self).b@.len(),
        ensures
            old(self).moved_on(*final(self)),
            fits(e.len()) && (forall|j: int| 0 <= j < e.len() ==> cfg_key_fits(#[trigger] e[j].key))
                && (len_bytes(e.len()) + list_bytes(e, cfg_ref_item())).is_prefix_of(
                old(self).rest(),
            ) ==> r is Some && r->0@.len() == e.len() && list_bytes(r->0@, cfg_ref_item())
                == list_bytes(e, cfg_ref_item()) && final(self).i == old(self).i + (len_bytes(
                e.len(),
            ) + list_bytes(e, cfg_ref_item())).len(),
    {
        let ghost rest = self.rest();
        let ghost i0 = self.i;
        let ghost expecting = fits(e.len()) && (forall|j: int|
            0 <= j < e.len() ==> cfg_key_fits(#[trigger] e[j].key)) && (len_bytes(e.len())
            + list_bytes(e, cfg_ref_item())).is_prefix_of(rest);
        proof {
            lemma_auto_spec_u32_to_from_le_bytes();
            if expecting {
                assert forall|x: CfgRef| #[trigger] cfg_ref_item()(x).len() >= 1 by {
                    assert(cfg_key_bytes(x.key).len() >= 1);
                }
                lemma_list_len(e, cfg_ref_item());
                lemma_len_reads(e.len(), list_bytes(e, cfg_ref_item()), rest, self.b@.len() as nat);
            }
        }
        let n = match self.len() {
            Some(n) => n,
            None => {
                return None;
            },
        };
        assert(self.rest() =~= rest.skip(4));
        let mut out: Vec<CfgRef> = Vec::new();
        let mut k: usize = 0;
        while k < n
            invariant
                self.b == old(self).b,
                i0 == old(self).i,
                rest == old(self).rest(),
                i0 + 4 <= self.i <= self.b@.len(),
                k <= n,
                out@.len() == k,
                expecting == (fits(e.len()) && (forall|j: int|
                    0 <= j < e.len() ==> cfg_key_fits(#[trigger] e[j].key)) && (len_bytes(e.len())
                    + list_bytes(e, cfg_ref_item())).is_prefix_of(rest)),
                expecting ==> n == e.len() && (forall|j: int|
                    0 <= j < e.len() ==> cfg_key_fits(#[trigger] e[j].key)) && list_bytes(
                    e,
                    cfg_ref_item(),
                ).is_prefix_of(rest.skip(4)) && list_bytes(out@, cfg_ref_item()) == list_bytes(
                    e.take(k as int),
                    cfg_ref_item(),
                ) && self.i == i0 + 4 + list_bytes(e.take(k as int), cfg_ref_item()).len(),
            decreases n - k,
        {
            let ghost ek = if (k as int) < e.len() {
                e[k as int]
            } else {
                vstd::pervasive::arbitrary()
            };
            let ghost here = self.rest();
            proof {
                lemma_auto_spec_u32_to_from_le_bytes();
                lemma_auto_spec_u64_to_from_le_bytes();
                if expecting {
                    lemma_item_at(e, cfg_ref_item(), k as int, rest.skip(4));
                    assert(here =~= rest.skip(4).skip(
                        list_bytes(e.take(k as int), cfg_ref_item()).len() as int,
                    ));
                    assert(cfg_key_fits(ek.key));
                    lemma_prefix_cat(cfg_key_bytes(ek.key), site_bytes(ek.site), here);
                }
            }
            let key = match self.cfg_key(Ghost(ek.key)) {
                Some(k) => k,
                None => {
                    return None;
                },
            };
            let ghost mid = self.rest();
            proof {
                if expecting {
                    assert(mid =~= here.skip(cfg_key_bytes(ek.key).len() as int));
                    assert(site_bytes(ek.site).len() == 16);
                }
            }
            let site = match self.site() {
                Some(s) => s,
                None => {
                    return None;
                },
            };
            let c = CfgRef { key, site };
            proof {
                if expecting {
                    assert(site_bytes(ek.site) =~= mid.take(16));
                    lemma_list_step(e, cfg_ref_item(), k as int);
                    assert(out@.push(c).drop_last() =~= out@);
                }
            }
            out.push(c);
            k += 1;
        }
        proof {
            if expecting {
                assert(e.take(n as int) =~= e);
            }
        }
        Some(out)
    }

    /// Reads one entry of a table.
    pub fn entry(&mut self, Ghost(e): Ghost<Entry>) -> (r: Option<Entry>)
        requires
            old(self).i <= old(self).b@.len(),
        ensures
            old(self).moved_on(*final(self)),
            entry_fits(e) && entry_bytes(e).is_prefix_of(old(self).rest()) ==> r is Some
                && entry_bytes(r->0) == entry_bytes(e) && final(self).i == old(self).i
                + entry_bytes(e).len(),
    {
        let ghost rest = self.rest();
        let ghost expecting = entry_fits(e) && entry_bytes(e).is_prefix_of(rest);
        let ghost kb = names_bytes(strings_view(e.key@));
        let ghost sb = spans_bytes(e.key_spans@);
        let ghost tb = site_bytes(e.site);
        let ghost vb = value_bytes(e.value);
        proof {
            lemma_auto_spec_u32_to_from_le_bytes();
            lemma_auto_spec_u64_to_from_le_bytes();
            if expecting {
                assert(entry_bytes(e) =~= kb + (sb + (tb + vb)));
                lemma_prefix_cat(kb, sb + (tb + vb), rest);
            }
        }
        let key = match self.strs(Ghost(strings_view(e.key@))) {
            Some(k) => k,
            None => {
                return None;
            },
        };
        let ghost r1 = self.rest();
        proof {
            if expecting {
                assert(r1 =~= rest.skip(kb.len() as int));
                lemma_prefix_cat(sb, tb + vb, r1);
            }
        }
        let key_spans = match self.spans(Ghost(e.key_spans@)) {
            Some(s) => s,
            None => {
                return None;
            },
        };
        let ghost r2 = self.rest();
        proof {
            if expecting {
                assert(r2 =~= r1.skip(sb.len() as int));
                lemma_prefix_cat(tb, vb, r2);
                assert(tb.len() == 16);
            }
        }
        let site = match self.site() {
            Some(s) => s,
            None => {
                return None;
            },
        };
        let ghost r3 = self.rest();
        proof {
            if expecting {
                assert(tb =~= r2.take(16));
                assert(r3 =~= r2.skip(16));
            }
        }
        let value = match self.value(Ghost(e.value)) {
            Some(v) => v,
            None => {
                return None;
            },
        };
        let out = Entry { key, key_spans, site, value };
        proof {
            if expecting {
                assert(entry_bytes(out) =~= entry_bytes(e));
            }
        }
        Some(out)
    }

    /// Reads one table.
    pub fn table(&mut self, Ghost(t): Ghost<Table>) -> (r: Option<Table>)
        requires
            old(self).i <= old(self).b@.len(),
        ensures
            old(self).moved_on(*final(self)),
            table_fits(t) && table_bytes(t).is_prefix_of(old(self).rest()) ==> r is Some
                && table_bytes(r->0) == table_bytes(t) && final(self).i == old(self).i
                + table_bytes(t).len(),
    {
        let ghost rest = self.rest();
        let ghost expecting = table_fits(t) && table_bytes(t).is_prefix_of(rest);
        let ghost e = t.entries@;
        let ghost pb = names_bytes(strings_view(t.path@));
        let ghost sb = spans_bytes(t.path_spans@);
        let ghost ab = seq![bool_byte(t.array)];
        let ghost tb = site_bytes(t.site);
        let ghost eb = len_bytes(e.len()) + list_bytes(e, entry_item());
        proof {
            lemma_auto_spec_u32_to_from_le_bytes();
            lemma_auto_spec_u64_to_from_le_bytes();
            if expecting {
                assert(table_bytes(t) =~= pb + (sb + (ab + (tb + eb))));
                lemma_prefix_cat(pb, sb + (ab + (tb + eb)), rest);
            }
        }
        let path = match self.strs(Ghost(strings_view(t.path@))) {
            Some(p) => p,
            None => {
                return None;
            },
        };
        let ghost r1 = self.rest();
        proof {
            if expecting {
                assert(r1 =~= rest.skip(pb.len() as int));
                lemma_prefix_cat(sb, ab + (tb + eb), r1);
            }
        }
        let path_spans = match self.spans(Ghost(t.path_spans@)) {
            Some(s) => s,
            None => {
                return None;
            },
        };
        let ghost r2 = self.rest();
        proof {
            if expecting {
                assert(r2 =~= r1.skip(sb.len() as int));
                lemma_tag(bool_byte(t.array), tb + eb, r2);
            }
        }
        let array = match self.bool() {
            Some(a) => a,
            None => {
                return None;
            },
        };
        let ghost r3 = self.rest();
        proof {
            if expecting {
                assert(r3 =~= r2.skip(1));
                lemma_prefix_cat(tb, eb, r3);
                assert(tb.len() == 16);
            }
        }
        let site = match self.site() {
            Some(s) => s,
            None => {
                return None;
            },
        };
        let ghost r4 = self.rest();
        let ghost i4 = self.i;
        proof {
            if expecting {
                assert(table_bytes(t).len() == pb.len() + sb.len() + 1 + 16 + 4 + list_bytes(
                    e,
                    entry_item(),
                ).len());
                assert(tb =~= r3.take(16));
                assert(r4 =~= r3.skip(16));
                assert forall|x: Entry| #[trigger] entry_item()(x).len() >= 1 by {
                    assert(names_bytes(strings_view(x.key@)).len() >= 4);
                }
                lemma_list_len(e, entry_item());
                lemma_len_reads(e.len(), list_bytes(e, entry_item()), r4, self.b@.len() as nat);
            }
        }
        let n = match self.len() {
            Some(n) => n,
            None => {
                return None;
            },
        };
        assert(self.rest() =~= r4.skip(4));
        let mut entries: Vec<Entry> = Vec::new();
        let mut k: usize = 0;
        while k < n
            invariant
                self.b == old(self).b,
                old(self).i <= i4,
                i4 + 4 <= self.i <= self.b@.len(),
                r4 == self.b@.subrange(i4 as int, self.b@.len() as int),
                rest == old(self).rest(),
                e == t.entries@,
                expecting == (table_fits(t) && table_bytes(t).is_prefix_of(rest)),
                k <= n,
                entries@.len() == k,
                expecting ==> n == e.len() && (forall|j: int|
                    0 <= j < e.len() ==> entry_fits(#[trigger] e[j])) && list_bytes(
                    e,
                    entry_item(),
                ).is_prefix_of(r4.skip(4)) && list_bytes(entries@, entry_item()) == list_bytes(
                    e.take(k as int),
                    entry_item(),
                ) && self.i == i4 + 4 + list_bytes(e.take(k as int), entry_item()).len()
                    && i4 + 4 + list_bytes(e, entry_item()).len() == old(self).i + table_bytes(
                    t,
                ).len(),
            decreases n - k,
        {
            let ghost ek = if (k as int) < e.len() {
                e[k as int]
            } else {
                vstd::pervasive::arbitrary()
            };
            proof {
                if expecting {
                    lemma_item_at(e, entry_item(), k as int, r4.skip(4));
                    assert(self.rest() =~= r4.skip(4).skip(
                        list_bytes(e.take(k as int), entry_item()).len() as int,
                    ));
                    assert(entry_fits(ek));
                }
            }
            let entry = match self.entry(Ghost(ek)) {
                Some(x) => x,
                None => {
                    return None;
                },
            };
            proof {
                if expecting {
                    lemma_list_step(e, entry_item(), k as int);
                    assert(entries@.push(entry).drop_last() =~= entries@);
                }
            }
            entries.push(entry);
            k += 1;
        }
        let out = Table { path, path_spans, array, site, entries };
        proof {
            if expecting {
                assert(e.take(n as int) =~= e);
                assert(table_bytes(out) =~= table_bytes(t));
            }
        }
        Some(out)
    }
}

} // verus!

verus! {

impl<'a> R<'a> {
    /// Reads the tables of a document.
    #[verifier::rlimit(100)]
    pub fn tables(&mut self, Ghost(e): Ghost<Seq<Table>>) -> (r: Option<Vec<Table>>)
        requires
            old(self).i <= old(self).b@.len(),
        ensures
            old(self).moved_on(*final(self)),
            fits(e.len()) && (forall|j: int| 0 <= j < e.len() ==> table_fits(#[trigger] e[j])) && (
            len_bytes(e.len()) + list_bytes(e, table_item())).is_prefix_of(old(self).rest())
                ==> r is Some && r->0@.len() == e.len() && list_bytes(r->0@, table_item())
                == list_bytes(e, table_item()) && final(self).i == old(self).i + (len_bytes(
                e.len(),
            ) + list_bytes(e, table_item())).len(),
    {
        let ghost rest = self.rest();
        let ghost i0 = self.i;
        let ghost expecting = fits(e.len()) && (forall|j: int|
            0 <= j < e.len() ==> table_fits(#[trigger] e[j])) && (len_bytes(e.len()) + list_bytes(
            e,
            table_item(),
        )).is_prefix_of(rest);
        proof {
            lemma_auto_spec_u32_to_from_le_bytes();
            if expecting {
                assert forall|x: Table| #[trigger] table_item()(x).len() >= 1 by {
                    assert(names_bytes(strings_view(x.path@)).len() >= 4);
                }
                lemma_list_len(e, table_item());
                lemma_len_reads(e.len(), list_bytes(e, table_item()), rest, self.b@.len() as nat);
            }
        }
        let n = match self.len() {
            Some(n) => n,
            None => {
                return None;
            },
        };
        assert(self.rest() =~= rest.skip(4));
        let mut out: Vec<Table> = Vec::new();
        let mut k: usize = 0;
        while k < n
            invariant
                self.b == old(self).b,
                i0 == old(self).i,
                rest == old(self).rest(),
                i0 + 4 <= self.i <= self.b@.len(),
                k <= n,
                out@.len() == k,
                expecting == (fits(e.len()) && (forall|j: int|
                    0 <= j < e.len() ==> table_fits(#[trigger] e[j])) && (len_bytes(e.len())
                    + list_bytes(e, table_item())).is_prefix_of(rest)),
                expecting ==> n == e.len() && (forall|j: int|
                    0 <= j < e.len() ==> table_fits(#[trigger] e[j])) && list_bytes(
                    e,
                    table_item(),
                ).is_prefix_of(rest.skip(4)) && list_bytes(out@, table_item()) == list_bytes(
                    e.take(k as int),
                    table_item(),
                ) && self.i == i0 + 4 + list_bytes(e.take(k as int), table_item()).len(),
            decreases n - k,
        {
            let ghost ek = if (k as int) < e.len() {
                e[k as int]
            } else {
                vstd::pervasive::arbitrary()
            };
            proof {
                if expecting {
                    lemma_item_at(e, table_item(), k as int, rest.skip(4));
                    assert(self.rest() =~= rest.skip(4).skip(
                        list_bytes(e.take(k as int), table_item()).len() as int,
                    ));
                    assert(table_fits(ek));
                }
            }
            let t = match self.table(Ghost(ek)) {
                Some(t) => t,
                None => {
                    return None;
                },
            };
            proof {
                if expecting {
                    lemma_list_step(e, table_item(), k as int);
                    assert(out@.push(t).drop_last() =~= out@);
                }
            }
            out.push(t);
            k += 1;
        }
        proof {
            if expecting {
                assert(e.take(n as int) =~= e);
            }
        }
        Some(out)
    }
}

/// Reads a document back from its bytes. `None` for anything that is not
/// a document written in this version of the format: another version, a
/// truncated value, bytes left over, or bytes changed from outside; the
/// store then treats the value as absent and computes it again.
///
/// What `encode_document` wrote reads back as a document with the same
/// bytes: the same file, configuration references, tables, entries and
/// values, strings compared by their characters.
#[verifier::rlimit(60)]
pub fn decode_document(bytes: &[u8]) -> (r: Option<Document>)
    ensures
        forall|d: Document|
            document_fits(d) && bytes@ == #[trigger] document_bytes(d) ==> r is Some
                && document_bytes(r->0) == bytes@,
        bytes@.len() == 0 || bytes@[0] != VERSION ==> r is None,
        r matches Some(d) ==> document_bytes(d) == bytes@,
{
    let ghost found = exists|d: Document| document_fits(d) && bytes@ == document_bytes(d);
    let ghost exp = choose|d: Document| document_fits(d) && bytes@ == document_bytes(d);
    let mut r = R { b: bytes, i: 0 };
    let ghost rest = r.rest();
    assert(rest =~= bytes@);
    let ghost cb = len_bytes(exp.cfg_refs@.len()) + list_bytes(exp.cfg_refs@, cfg_ref_item());
    let ghost tb = len_bytes(exp.tables@.len()) + list_bytes(exp.tables@, table_item());
    proof {
        lemma_auto_spec_u64_to_from_le_bytes();
        if found {
            assert(document_bytes(exp) =~= seq![VERSION] + (u64_bytes(exp.file.0) + (cb + tb)));
            assert((seq![VERSION] + (u64_bytes(exp.file.0) + (cb + tb))).is_prefix_of(rest));
            lemma_tag(VERSION, u64_bytes(exp.file.0) + (cb + tb), rest);
        }
    }
    let version = match r.u8() {
        Some(v) => v,
        None => {
            return None;
        },
    };
    if version != VERSION {
        return None;
    }
    let ghost r1 = r.rest();
    proof {
        if found {
            assert(r1 =~= rest.skip(1));
            lemma_prefix_cat(u64_bytes(exp.file.0), cb + tb, r1);
            assert(u64_bytes(exp.file.0) =~= r1.take(8));
        }
    }
    let file = match r.u64() {
        Some(v) => FileId(v),
        None => {
            return None;
        },
    };
    let ghost r2 = r.rest();
    proof {
        if found {
            assert(r2 =~= r1.skip(8));
            lemma_prefix_cat(cb, tb, r2);
        }
    }
    let cfg_refs = match r.cfg_refs(Ghost(exp.cfg_refs@)) {
        Some(c) => c,
        None => {
            return None;
        },
    };
    let ghost r3 = r.rest();
    proof {
        if found {
            assert(r3 =~= r2.skip(cb.len() as int));
        }
    }
    let tables = match r.tables(Ghost(exp.tables@)) {
        Some(t) => t,
        None => {
            return None;
        },
    };
    // Bytes left over mean the value is not in this format: what was read
    // so far is not used.
    if r.i != r.b.len() {
        return None;
    }
    let doc = Document { file, cfg_refs, tables };
    proof {
        if found {
            assert(document_bytes(doc) =~= document_bytes(exp));
        }
    }
    // The format has one encoding per document: bytes that decode but are
    // not that encoding were changed from outside.
    let again = encode_document(&doc);
    if !same_bytes(again.as_slice(), bytes) {
        return None;
    }
    Some(doc)
}

/// Whether two byte strings are equal.
pub fn same_bytes(a: &[u8], b: &[u8]) -> (r: bool)
    ensures
        r == (a@ == b@),
{
    if a.len() != b.len() {
        return false;
    }
    let mut i: usize = 0;
    while i < a.len()
        invariant
            i <= a@.len(),
            a@.len() == b@.len(),
            forall|j: int| 0 <= j < i ==> a@[j] == b@[j],
        decreases a.len() - i,
    {
        if a[i] != b[i] {
            return false;
        }
        i += 1;
    }
    assert(a@ =~= b@);
    true
}

} // verus!

verus! {

/// Documents with the same bytes are of the same file.
pub proof fn lemma_document_file(a: Document, b: Document)
    requires
        document_bytes(a) == document_bytes(b),
    ensures
        a.file == b.file,
{
    lemma_auto_spec_u64_to_from_le_bytes();
    assert(document_bytes(a).subrange(1, 9) =~= u64_bytes(a.file.0));
    assert(document_bytes(b).subrange(1, 9) =~= u64_bytes(b.file.0));
}

} // verus!
