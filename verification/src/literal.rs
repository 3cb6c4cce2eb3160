//! Reading literals of a manifest: integers in their notations, and the
//! element type of a list.

use vstd::prelude::*;
use crate::text::{chars_of, has_prefix, starts_with};
use crate::value::{type_concrete, Type, Value};

verus! {

// --- integers ------------------------------------------------------------------------

/// The value of a digit in a radix up to 36, as `char::to_digit` gives it.
pub open spec fn digit_in(c: char, radix: nat) -> Option<nat> {
    let v: int = if '0' <= c && c <= '9' {
        c as int - '0' as int
    } else if 'a' <= c && c <= 'z' {
        c as int - 'a' as int + 10
    } else if 'A' <= c && c <= 'Z' {
        c as int - 'A' as int + 10
    } else {
        36
    };
    if v < radix {
        Some(v as nat)
    } else {
        None
    }
}

/// The number a run of digits writes; nothing for an empty run or one with
/// a character that is no digit of the radix.
pub open spec fn magnitude(s: Seq<char>, radix: nat) -> Option<nat>
    decreases s.len(),
{
    if s.len() == 0 {
        None
    } else {
        match digit_in(s.last(), radix) {
            None => None,
            Some(d) => if s.len() == 1 {
                Some(d)
            } else {
                match magnitude(s.drop_last(), radix) {
                    Some(m) => Some(m * radix + d),
                    None => None,
                }
            },
        }
    }
}

/// What `i64::from_str_radix` reads: an optional sign, then digits, the
/// value within the range of `i64`.
pub open spec fn radix_value(s: Seq<char>, radix: nat) -> Option<int> {
    if s.len() > 0 && s[0] == '-' {
        match magnitude(s.drop_first(), radix) {
            Some(m) => if m <= 0x8000_0000_0000_0000 {
                Some(-m)
            } else {
                None
            },
            None => None,
        }
    } else {
        let digits = if s.len() > 0 && s[0] == '+' {
            s.drop_first()
        } else {
            s
        };
        match magnitude(digits, radix) {
            Some(m) => if m <= 0x7fff_ffff_ffff_ffff {
                Some(m as int)
            } else {
                None
            },
            None => None,
        }
    }
}

/// `s` without the `+` signs it starts with.
pub open spec fn drop_plus(s: Seq<char>) -> Seq<char>
    decreases s.len(),
{
    if s.len() > 0 && s[0] == '+' {
        drop_plus(s.drop_first())
    } else {
        s
    }
}

pub open spec fn not_underscore() -> spec_fn(char) -> bool {
    |c: char| c != '_'
}

/// The value an integer literal writes: underscores are separators, a `-`
/// makes it negative, and `0x`, `0o` and `0b` choose the radix.
pub open spec fn int_value(text: Seq<char>) -> Option<int> {
    let cleaned = text.filter(not_underscore());
    let negative = cleaned.len() > 0 && cleaned[0] == '-';
    let rest = if negative {
        cleaned.drop_first()
    } else {
        drop_plus(cleaned)
    };
    let v = if has_prefix(rest, "0x"@) || has_prefix(rest, "0X"@) {
        radix_value(rest.skip(2), 16)
    } else if has_prefix(rest, "0o"@) {
        radix_value(rest.skip(2), 8)
    } else if has_prefix(rest, "0b"@) {
        radix_value(rest.skip(2), 2)
    } else {
        radix_value(rest, 10)
    };
    match v {
        Some(x) => Some(if negative {
            -x
        } else {
            x
        }),
        None => None,
    }
}

/// A longer run of digits writes at least as much.
proof fn lemma_magnitude_grows(s: Seq<char>, radix: nat, k: int)
    requires
        1 <= k <= s.len(),
        radix >= 1,
        magnitude(s, radix) is Some,
    ensures
        magnitude(s.take(k), radix) is Some,
        magnitude(s.take(k), radix)->0 <= magnitude(s, radix)->0,
    decreases s.len(),
{
    if k == s.len() {
        assert(s.take(k) =~= s);
    } else {
        let d = s.drop_last();
        assert(d.take(k) =~= s.take(k));
        lemma_magnitude_grows(d, radix, k);
        let m = magnitude(d, radix)->0;
        assert(m * radix >= m) by (nonlinear_arith)
            requires
                radix >= 1,
        ;
    }
}

/// The value of a digit.
fn digit_value(c: char, radix: u32) -> (r: Option<u32>)
    requires
        radix <= 36,
    ensures
        match r {
            Some(v) => digit_in(c, radix as nat) == Some(v as nat),
            None => digit_in(c, radix as nat) is None,
        },
{
    let v: u32 = if '0' <= c && c <= '9' {
        (c as u32) - ('0' as u32)
    } else if 'a' <= c && c <= 'z' {
        (c as u32) - ('a' as u32) + 10
    } else if 'A' <= c && c <= 'Z' {
        (c as u32) - ('A' as u32) + 10
    } else {
        36
    };
    if v < radix {
        Some(v)
    } else {
        None
    }
}

/// Reads a run of digits, up to 2^63: the largest magnitude an `i64` takes.
fn read_magnitude(s: &[char], radix: u32) -> (r: Option<u64>)
    requires
        2 <= radix <= 36,
    ensures
        match r {
            Some(m) => magnitude(s@, radix as nat) == Some(m as nat) && m <= 0x8000_0000_0000_0000,
            None => magnitude(s@, radix as nat) is None || magnitude(s@, radix as nat)->0 > 0x8000_0000_0000_0000,
        },
{
    if s.len() == 0 {
        return None;
    }
    let mut acc: u64 = 0;
    let mut i: usize = 0;
    while i < s.len()
        invariant
            i <= s@.len(),
            s@.len() > 0,
            2 <= radix <= 36,
            acc <= 0x8000_0000_0000_0000,
            i == 0 ==> acc == 0,
            i > 0 ==> magnitude(s@.take(i as int), radix as nat) == Some(acc as nat),
        decreases s.len() - i,
    {
        let d = match digit_value(s[i], radix) {
            Some(d) => d,
            None => {
                proof {
                    assert(s@.take(i + 1).last() == s@[i as int]);
                    assert(magnitude(s@.take(i + 1), radix as nat) is None);
                    if magnitude(s@, radix as nat) is Some {
                        lemma_magnitude_grows(s@, radix as nat, i + 1);
                    }
                }
                return None;
            },
        };
        proof {
            assert(s@.take(i + 1).last() == s@[i as int]);
            assert(s@.take(i + 1).drop_last() =~= s@.take(i as int));
        }
        assert((acc as u128) * (radix as u128) <= 0x8000_0000_0000_0000u128 * 36) by (nonlinear_arith)
            requires
                acc <= 0x8000_0000_0000_0000,
                radix <= 36,
        ;
        let wide: u128 = (acc as u128) * (radix as u128) + (d as u128);
        proof {
            if i == 0 {
                assert(s@.take(1).len() == 1);
                assert(magnitude(s@.take(i + 1), radix as nat) == Some(d as nat));
                assert(wide == d);
            } else {
                assert(magnitude(s@.take(i + 1), radix as nat) == Some((acc as nat) * (radix as nat) + d as nat));
            }
            assert(magnitude(s@.take(i + 1), radix as nat) == Some(wide as nat));
        }
        if wide > 0x8000_0000_0000_0000u128 {
            proof {
                if magnitude(s@, radix as nat) is Some {
                    lemma_magnitude_grows(s@, radix as nat, i + 1);
                }
            }
            return None;
        }
        acc = wide as u64;
        i += 1;
    }
    assert(s@.take(i as int) =~= s@);
    Some(acc)
}

/// What `i64::from_str_radix` gives.
fn parse_radix(s: &[char], radix: u32) -> (r: Option<i64>)
    requires
        2 <= radix <= 36,
    ensures
        match r {
            Some(v) => radix_value(s@, radix as nat) == Some(v as int),
            None => radix_value(s@, radix as nat) is None,
        },
{
    if s.len() > 0 && s[0] == '-' {
        let digits = vstd::slice::slice_subrange(s, 1, s.len());
        assert(digits@ =~= s@.drop_first());
        match read_magnitude(digits, radix) {
            Some(m) => {
                if m == 0x8000_0000_0000_0000u64 {
                    Some(i64::MIN)
                } else {
                    Some(-(m as i64))
                }
            },
            None => None,
        }
    } else {
        let digits = if s.len() > 0 && s[0] == '+' {
            vstd::slice::slice_subrange(s, 1, s.len())
        } else {
            s
        };
        assert(digits@ =~= (if s@.len() > 0 && s@[0] == '+' {
            s@.drop_first()
        } else {
            s@
        }));
        match read_magnitude(digits, radix) {
            Some(m) => {
                if m <= 0x7fff_ffff_ffff_ffffu64 {
                    Some(m as i64)
                } else {
                    None
                }
            },
            None => None,
        }
    }
}

/// Reads an integer literal: `1_000`, `-42`, `0x1F`, `0o17`, `0b1010`.
/// Nothing when it does not read as an `i64`, the negative of
/// `-9223372036854775808` (written `--9223372036854775808`) among them.
pub fn parse_int(text: &str) -> (r: Option<i64>)
    ensures
        match r {
            Some(v) => int_value(text@) == Some(v as int),
            None => !(int_value(text@) matches Some(x) && i64::MIN <= x <= i64::MAX),
        },
{
    let cs = chars_of(text);
    let mut cleaned: Vec<char> = Vec::new();
    let mut i: usize = 0;
    while i < cs.len()
        invariant
            i <= cs@.len(),
            cs@ == text@,
            cleaned@ == cs@.take(i as int).filter(not_underscore()),
        decreases cs.len() - i,
    {
        proof {
            reveal(Seq::filter);
            assert(cs@.take(i + 1).drop_last() =~= cs@.take(i as int));
        }
        if cs[i] != '_' {
            cleaned.push(cs[i]);
        }
        i += 1;
    }
    assert(cs@.take(i as int) =~= cs@);
    let negative = cleaned.len() > 0 && cleaned[0] == '-';
    let mut start: usize = 0;
    if negative {
        start = 1;
    } else {
        assert(cleaned@.skip(0) =~= cleaned@);
        while start < cleaned.len() && cleaned[start] == '+'
            invariant
                start <= cleaned@.len(),
                drop_plus(cleaned@) == drop_plus(cleaned@.skip(start as int)),
            decreases cleaned.len() - start,
        {
            assert(cleaned@.skip(start as int).drop_first() =~= cleaned@.skip(start + 1));
            start += 1;
        }
    }
    let rest = vstd::slice::slice_subrange(cleaned.as_slice(), start, cleaned.len());
    proof {
        if negative {
            assert(rest@ =~= cleaned@.drop_first());
        } else {
            assert(rest@ =~= cleaned@.skip(start as int));
            assert(drop_plus(rest@) == rest@);
        }
        reveal_strlit("0x");
        reveal_strlit("0X");
        reveal_strlit("0o");
        reveal_strlit("0b");
    }
    let radix: u32 = if starts_with(rest, "0x") || starts_with(rest, "0X") {
        16
    } else if starts_with(rest, "0o") {
        8
    } else if starts_with(rest, "0b") {
        2
    } else {
        10
    };
    let digits = if radix == 10 {
        rest
    } else {
        vstd::slice::slice_subrange(rest, 2, rest.len())
    };
    proof {
        if radix != 10 {
            assert(digits@ =~= rest@.skip(2));
        }
    }
    match parse_radix(digits, radix) {
        Some(v) => {
            if negative {
                if v == i64::MIN {
                    None
                } else {
                    Some(-v)
                }
            } else {
                Some(v)
            }
        },
        None => None,
    }
}

// --- list elements -------------------------------------------------------------------

/// Whether a type is known.
pub open spec fn is_known() -> spec_fn(Type) -> bool {
    |t: Type| t != Type::Unknown
}

/// The known element types of a list, in order.
pub open spec fn known_types(items: Seq<Value>) -> Seq<Type> {
    items.map_values(|v: Value| type_concrete(v.ty)).filter(is_known())
}

/// The type all the known element types of a list agree on; `Unknown`
/// when they do not agree or none is known. Type checking is then left to
/// the schema of where the list is assigned.
pub open spec fn unified(items: Seq<Value>) -> Type {
    let known = known_types(items);
    if known.len() == 0 || exists|i: int| 0 <= i < known.len() && #[trigger] known[i] != known[0] {
        Type::Unknown
    } else {
        known[0]
    }
}

/// The known types of a prefix come first among those of the whole.
proof fn lemma_known_prefix(items: Seq<Value>, k: int)
    requires
        0 <= k <= items.len(),
    ensures
        known_types(items.take(k)).len() <= known_types(items).len(),
        forall|i: int| 0 <= i < known_types(items.take(k)).len() ==> #[trigger] known_types(items.take(k))[i] == known_types(items)[i],
{
    let f = |v: Value| type_concrete(v.ty);
    assert(items =~= items.take(k) + items.skip(k));
    assert(items.map_values(f) =~= items.take(k).map_values(f) + items.skip(k).map_values(f));
    Seq::filter_distributes_over_add(items.take(k).map_values(f), items.skip(k).map_values(f), is_known());
}

/// The element type of a list literal.
pub fn unify_elems(items: &[Value]) -> (r: Type)
    ensures
        r == unified(items@),
{
    let mut ty: Option<Type> = None;
    let mut i: usize = 0;
    while i < items.len()
        invariant
            i <= items@.len(),
            match ty {
                None => known_types(items@.take(i as int)).len() == 0,
                Some(t) => known_types(items@.take(i as int)).len() > 0 && forall|j: int|
                    0 <= j < known_types(items@.take(i as int)).len() ==> #[trigger] known_types(items@.take(i as int))[j] == t,
            },
        decreases items.len() - i,
    {
        proof {
            reveal(Seq::filter);
            let m0 = items@.take(i as int).map_values(|v: Value| type_concrete(v.ty));
            let m1 = items@.take(i + 1).map_values(|v: Value| type_concrete(v.ty));
            assert(m1 =~= m0.push(type_concrete(items@[i as int].ty)));
            assert(m1.drop_last() =~= m0);
            assert(m1.last() == type_concrete(items@[i as int].ty));
            assert(known_types(items@.take(i + 1)) == if is_known()(m1.last()) {
                known_types(items@.take(i as int)).push(m1.last())
            } else {
                known_types(items@.take(i as int))
            });
        }
        let t = items[i].ty.concrete();
        if !t.same(&Type::Unknown) {
            match &ty {
                None => {
                    ty = Some(t.copy());
                },
                Some(prev) => {
                    if !prev.same(t) {
                        proof {
                            let k = known_types(items@.take(i + 1));
                            assert(k[k.len() - 1] == *t);
                            assert(k[0] == *prev);
                            lemma_known_prefix(items@, i + 1);
                            let whole = known_types(items@);
                            assert(whole[k.len() - 1] != whole[0]);
                        }
                        return Type::Unknown;
                    }
                },
            }
        }
        i += 1;
    }
    assert(items@.take(i as int) =~= items@);
    match ty {
        Some(t) => t,
        None => Type::Unknown,
    }
}

} // verus!
