//! Character-level helpers shared by the modules: reading a string as its
//! characters, building strings, decimal numbers, and splitting on a
//! separator. Every function here is stated over `Seq<char>`, the view of
//! `str` and `String`.

use vstd::prelude::*;
use vstd::string::*;

verus! {

/// The characters of a string slice, in order.
pub fn chars_of(s: &str) -> (v: Vec<char>)
    ensures
        v@ == s@,
{
    let n = s.unicode_len();
    let mut v: Vec<char> = Vec::new();
    let mut i: usize = 0;
    while i < n
        invariant
            n == s@.len(),
            i <= n,
            v@ == s@.take(i as int),
        decreases n - i,
    {
        v.push(s.get_char(i));
        i += 1;
        assert(v@ =~= s@.take(i as int));
    }
    assert(s@.take(n as int) =~= s@);
    v
}

/// Appends one character to a `String` with std's `String::push`.
/// The contract claims what std documents: the string grows by exactly
/// that character at its end.
#[verifier::external_body]
pub fn push_char(s: &mut String, c: char)
    ensures
        final(s)@ == old(s)@.push(c),
{
    s.push(c);
}

/// Appends a string slice.
pub fn push_str(s: &mut String, t: &str)
    ensures
        final(s)@ == old(s)@ + t@,
{
    s.append(t);
}

/// An owned copy of a string slice.
pub fn owned(s: &str) -> (r: String)
    ensures
        r@ == s@,
{
    s.to_owned()
}

/// A copy of a `String`, with the same characters.
pub fn copy_string(s: &String) -> (r: String)
    ensures
        r == *s,
        r@ == s@,
{
    s.clone()
}

/// Appends a sequence of characters.
pub fn push_chars(s: &mut String, cs: &[char])
    ensures
        final(s)@ == old(s)@ + cs@,
{
    let mut i: usize = 0;
    while i < cs.len()
        invariant
            i <= cs@.len(),
            s@ == old(s)@ + cs@.take(i as int),
        decreases cs.len() - i,
    {
        push_char(s, cs[i]);
        i += 1;
        assert(s@ =~= old(s)@ + cs@.take(i as int));
    }
    assert(cs@.take(cs@.len() as int) =~= cs@);
}

/// A `String` holding the given characters.
pub fn from_chars(cs: &[char]) -> (r: String)
    ensures
        r@ == cs@,
{
    let mut r = String::new();
    push_chars(&mut r, cs);
    assert(r@ =~= cs@);
    r
}

/// Whether two character slices are equal.
pub fn chars_eq(x: &[char], y: &[char]) -> (r: bool)
    ensures
        r == (x@ == y@),
{
    if x.len() != y.len() {
        return false;
    }
    let mut i: usize = 0;
    while i < x.len()
        invariant
            x@.len() == y@.len(),
            i <= x@.len(),
            x@.take(i as int) == y@.take(i as int),
        decreases x.len() - i,
    {
        if x[i] != y[i] {
            assert(x@[i as int] != y@[i as int]);
            return false;
        }
        assert(x@.take(i + 1) =~= x@.take(i as int).push(x@[i as int]));
        assert(y@.take(i + 1) =~= y@.take(i as int).push(y@[i as int]));
        i += 1;
    }
    assert(x@ =~= x@.take(x@.len() as int));
    assert(y@ =~= y@.take(y@.len() as int));
    true
}

/// Whether two string slices hold the same characters.
pub fn str_eq(a: &str, b: &str) -> (r: bool)
    ensures
        r == (a@ == b@),
{
    let x = chars_of(a);
    let y = chars_of(b);
    chars_eq(x.as_slice(), y.as_slice())
}

/// Whether `s` starts with `prefix`.
pub open spec fn has_prefix(s: Seq<char>, prefix: Seq<char>) -> bool {
    prefix.len() <= s.len() && s.take(prefix.len() as int) == prefix
}

/// Whether `s` starts with `prefix`.
pub fn starts_with(s: &[char], prefix: &str) -> (r: bool)
    ensures
        r == has_prefix(s@, prefix@),
{
    let p = chars_of(prefix);
    if p.len() > s.len() {
        return false;
    }
    let mut i: usize = 0;
    while i < p.len()
        invariant
            p@ == prefix@,
            p@.len() <= s@.len(),
            i <= p@.len(),
            s@.take(i as int) == p@.take(i as int),
        decreases p.len() - i,
    {
        if s[i] != p[i] {
            assert(s@.take(p@.len() as int)[i as int] != p@[i as int]);
            return false;
        }
        assert(s@.take(i + 1) =~= s@.take(i as int).push(s@[i as int]));
        assert(p@.take(i + 1) =~= p@.take(i as int).push(p@[i as int]));
        i += 1;
    }
    assert(p@ =~= p@.take(p@.len() as int));
    true
}

/// Whether `c` occurs in `s`.
pub fn contains_char(s: &[char], c: char) -> (r: bool)
    ensures
        r == s@.contains(c),
{
    let mut i: usize = 0;
    while i < s.len()
        invariant
            i <= s@.len(),
            forall|j: int| 0 <= j < i ==> s@[j] != c,
        decreases s.len() - i,
    {
        if s[i] == c {
            assert(s@[i as int] == c);
            return true;
        }
        i += 1;
    }
    false
}

/// The pieces of `s` between occurrences of `sep`, in order. An empty
/// string has one empty piece, as `str::split` gives.
pub open spec fn split_on(s: Seq<char>, sep: char) -> Seq<Seq<char>>
    decreases s.len(),
{
    if s.len() == 0 {
        seq![Seq::empty()]
    } else {
        let rest = split_on(s.drop_last(), sep);
        if s.last() == sep {
            rest.push(Seq::empty())
        } else {
            rest.update(rest.len() - 1, rest.last().push(s.last()))
        }
    }
}

pub proof fn lemma_split_on_nonempty(s: Seq<char>, sep: char)
    ensures
        split_on(s, sep).len() >= 1,
    decreases s.len(),
{
    if s.len() > 0 {
        lemma_split_on_nonempty(s.drop_last(), sep);
    }
}

/// The pieces of `s` split on `sep`, as `str::split` yields them.
pub fn split_chars(s: &[char], sep: char) -> (parts: Vec<Vec<char>>)
    ensures
        parts@.len() == split_on(s@, sep).len(),
        forall|i: int| 0 <= i < parts@.len() ==> #[trigger] parts@[i]@ == split_on(s@, sep)[i],
{
    let mut parts: Vec<Vec<char>> = Vec::new();
    let mut cur: Vec<char> = Vec::new();
    let mut i: usize = 0;
    proof {
        lemma_split_on_nonempty(s@.take(0), sep);
        assert(s@.take(0) =~= Seq::<char>::empty());
    }
    while i < s.len()
        invariant
            i <= s@.len(),
            parts@.len() + 1 == split_on(s@.take(i as int), sep).len(),
            forall|j: int|
                0 <= j < parts@.len() ==> #[trigger] parts@[j]@ == split_on(
                    s@.take(i as int),
                    sep,
                )[j],
            cur@ == split_on(s@.take(i as int), sep).last(),
        decreases s.len() - i,
    {
        let ghost before = s@.take(i as int);
        assert(s@.take(i + 1).drop_last() =~= before);
        assert(s@.take(i + 1).last() == s@[i as int]);
        if s[i] == sep {
            parts.push(cur);
            cur = Vec::new();
        } else {
            cur.push(s[i]);
        }
        i += 1;
    }
    assert(s@.take(s@.len() as int) =~= s@);
    parts.push(cur);
    parts
}

// --- decimal numbers --------------------------------------------------------

/// The character of a decimal digit.
pub open spec fn digit_char(d: nat) -> char {
    if d == 0 {
        '0'
    } else if d == 1 {
        '1'
    } else if d == 2 {
        '2'
    } else if d == 3 {
        '3'
    } else if d == 4 {
        '4'
    } else if d == 5 {
        '5'
    } else if d == 6 {
        '6'
    } else if d == 7 {
        '7'
    } else if d == 8 {
        '8'
    } else {
        '9'
    }
}

/// Whether `c` is an ASCII decimal digit.
pub open spec fn is_digit(c: char) -> bool {
    '0' <= c && c <= '9'
}

/// The value of a decimal digit character.
pub open spec fn digit_value(c: char) -> nat {
    ((c as int) - ('0' as int)) as nat
}

/// The decimal digits of `n`, most significant first, without leading zeros.
pub open spec fn decimal(n: nat) -> Seq<char>
    decreases n,
{
    if n < 10 {
        seq![digit_char(n)]
    } else {
        decimal(n / 10).push(digit_char(n % 10))
    }
}

/// Whether every character of `s` is a decimal digit.
pub open spec fn all_digits(s: Seq<char>) -> bool {
    forall|i: int| 0 <= i < s.len() ==> is_digit(#[trigger] s[i])
}

/// The number written by the decimal digits `s`.
pub open spec fn digits_value(s: Seq<char>) -> nat
    decreases s.len(),
{
    if s.len() == 0 {
        0
    } else {
        digits_value(s.drop_last()) * 10 + digit_value(s.last())
    }
}

/// What `u64::from_str` and `u128::from_str` accept: an optional `+`, then
/// one or more decimal digits whose value is at most `max`.
pub open spec fn parse_unsigned(s: Seq<char>, max: nat) -> Option<nat> {
    let body = if s.len() > 0 && s[0] == '+' {
        s.drop_first()
    } else {
        s
    };
    if body.len() > 0 && all_digits(body) && digits_value(body) <= max {
        Some(digits_value(body))
    } else {
        None
    }
}

pub proof fn lemma_digit_char(d: nat)
    requires
        d < 10,
    ensures
        is_digit(digit_char(d)),
        digit_value(digit_char(d)) == d,
        digit_char(d) != '+',
        digit_char(d) != '-',
        digit_char(d) != '\t',
        digit_char(d) != '\n',
        digit_char(d) != '\r',
        digit_char(d) != '#',
        digit_char(d) != ' ',
{
}

pub proof fn lemma_decimal(n: nat)
    ensures
        decimal(n).len() >= 1,
        all_digits(decimal(n)),
        digits_value(decimal(n)) == n,
        decimal(n)[0] != '+',
    decreases n,
{
    if n < 10 {
        lemma_digit_char(n);
        assert(decimal(n).drop_last() =~= Seq::<char>::empty());
        assert(digits_value(Seq::<char>::empty()) == 0);
        assert(digits_value(decimal(n)) == n);
    } else {
        lemma_decimal(n / 10);
        lemma_digit_char(n % 10);
        let d = decimal(n);
        assert(d.drop_last() =~= decimal(n / 10));
        assert((n / 10) * 10 + n % 10 == n) by (nonlinear_arith);
        assert(d.last() == digit_char(n % 10));
        assert(digits_value(d) == digits_value(d.drop_last()) * 10 + digit_value(d.last()));
        assert(digits_value(d.drop_last()) == n / 10);
        assert(digit_value(d.last()) == n % 10);
        assert(digits_value(d) == n);
        assert(all_digits(d)) by {
            assert forall|i: int| 0 <= i < d.len() implies is_digit(#[trigger] d[i]) by {
                if i < d.len() - 1 {
                    assert(d[i] == decimal(n / 10)[i]);
                }
            }
        }
    }
}

/// Parsing the decimal form of `n` gives back `n`.
pub proof fn lemma_parse_decimal(n: nat, max: nat)
    requires
        n <= max,
    ensures
        parse_unsigned(decimal(n), max) == Some(n),
{
    lemma_decimal(n);
}

proof fn lemma_digits_value_prefix(s: Seq<char>, k: int)
    requires
        0 <= k <= s.len(),
    ensures
        digits_value(s.take(k)) <= digits_value(s),
    decreases s.len(),
{
    if k < s.len() {
        assert(s.drop_last().take(k) =~= s.take(k));
        lemma_digits_value_prefix(s.drop_last(), k);
    } else {
        assert(s.take(k) =~= s);
    }
}

/// The character of digit `d`.
pub fn digit(d: u8) -> (c: char)
    requires
        d < 10,
    ensures
        c == digit_char(d as nat),
{
    match d {
        0 => '0',
        1 => '1',
        2 => '2',
        3 => '3',
        4 => '4',
        5 => '5',
        6 => '6',
        7 => '7',
        8 => '8',
        _ => '9',
    }
}

/// The decimal form of `n`, as `to_string` writes it.
pub fn decimal_chars(n: u128) -> (v: Vec<char>)
    ensures
        v@ == decimal(n as nat),
{
    let mut v: Vec<char> = Vec::new();
    let mut m: u128 = n;
    while m >= 10
        invariant
            decimal(n as nat) == decimal(m as nat) + v@,
        decreases m,
    {
        let d = (m % 10) as u8;
        let ghost old_v = v@;
        v.insert(0, digit(d));
        assert(v@ =~= seq![digit_char((m % 10) as nat)] + old_v);
        assert(decimal(m as nat) == decimal((m / 10) as nat).push(digit_char((m % 10) as nat)));
        assert(decimal(m as nat) + old_v =~= decimal((m / 10) as nat) + v@);
        m = m / 10;
    }
    let ghost old_v = v@;
    v.insert(0, digit(m as u8));
    assert(v@ =~= decimal(m as nat) + old_v);
    v
}

/// The decimal form of `n` as a `String`.
pub fn decimal_string(n: u128) -> (s: String)
    ensures
        s@ == decimal(n as nat),
{
    let v = decimal_chars(n);
    from_chars(v.as_slice())
}

/// Reads a decimal number as `u128::from_str` does, accepting values up to `max`.
pub fn parse_decimal(s: &[char], max: u128) -> (r: Option<u128>)
    ensures
        match r {
            Some(v) => parse_unsigned(s@, max as nat) == Some(v as nat),
            None => parse_unsigned(s@, max as nat) is None,
        },
{
    let start: usize = if s.len() > 0 && s[0] == '+' {
        1
    } else {
        0
    };
    let ghost body = if s@.len() > 0 && s@[0] == '+' {
        s@.drop_first()
    } else {
        s@
    };
    assert(body =~= s@.subrange(start as int, s@.len() as int));
    if start == s.len() {
        return None;
    }
    let mut acc: u128 = 0;
    let mut i: usize = start;
    while i < s.len()
        invariant
            start <= i <= s@.len(),
            body == s@.subrange(start as int, s@.len() as int),
            body == (if s@.len() > 0 && s@[0] == '+' { s@.drop_first() } else { s@ }),
            all_digits(s@.subrange(start as int, i as int)),
            acc as nat == digits_value(s@.subrange(start as int, i as int)),
            acc <= max,
        decreases s.len() - i,
    {
        let c = s[i];
        let ghost prefix = s@.subrange(start as int, i + 1);
        assert(prefix.drop_last() =~= s@.subrange(start as int, i as int));
        assert(prefix =~= body.take(i + 1 - start));
        assert(body[i - start] == c);
        assert(prefix.last() == c);
        if !('0' <= c && c <= '9') {
            assert(!is_digit(body[i - start]));
            assert(!all_digits(body));
            assert(body == (if s@.len() > 0 && s@[0] == '+' { s@.drop_first() } else { s@ }));
            assert(parse_unsigned(s@, max as nat) is None);
            return None;
        }
        let d: u128 = (c as u32 - '0' as u32) as u128;
        assert(d as nat == digit_value(c));
        if d > max || acc > (max - d) / 10 {
            assert(acc * 10 + d > max) by (nonlinear_arith)
                requires
                    d > max || acc > (max - d) / 10,
                    acc >= 0,
                    d <= 9,
            ;
            proof {
                if all_digits(body) {
                    lemma_digits_value_prefix(body, i + 1 - start);
                    assert(digits_value(prefix) == digits_value(prefix.drop_last()) * 10
                        + digit_value(prefix.last()));
                    assert(digits_value(prefix) > max);
                }
            }
            return None;
        }
        assert(acc * 10 + d <= max) by (nonlinear_arith)
            requires
                acc <= (max - d) / 10,
                d <= 9,
                d <= max,
        ;
        acc = acc * 10 + d;
        i += 1;
    }
    assert(s@.subrange(start as int, s@.len() as int) == body);
    Some(acc)
}

// --- cutting at a separator ------------------------------------------------

/// `s` cut at the first `sep`: the part before it and the part after it,
/// as `str::split_once` gives them.
pub open spec fn split_once(s: Seq<char>, sep: char) -> Option<(Seq<char>, Seq<char>)>
    decreases s.len(),
{
    if s.len() == 0 {
        None
    } else if s[0] == sep {
        Some((Seq::empty(), s.drop_first()))
    } else {
        match split_once(s.drop_first(), sep) {
            Some((a, b)) => Some((seq![s[0]] + a, b)),
            None => None,
        }
    }
}

pub proof fn lemma_split_once_at(s: Seq<char>, sep: char, i: int)
    requires
        0 <= i < s.len(),
        s[i] == sep,
        forall|j: int| 0 <= j < i ==> s[j] != sep,
    ensures
        split_once(s, sep) == Some((s.take(i), s.skip(i + 1))),
    decreases i,
{
    if i > 0 {
        lemma_split_once_at(s.drop_first(), sep, i - 1);
        assert(seq![s[0]] + s.drop_first().take(i - 1) =~= s.take(i));
        assert(s.drop_first().skip(i) =~= s.skip(i + 1));
    } else {
        assert(s.take(0) =~= Seq::<char>::empty());
        assert(s.skip(1) =~= s.drop_first());
    }
}

pub proof fn lemma_split_once_none(s: Seq<char>, sep: char)
    requires
        forall|j: int| 0 <= j < s.len() ==> s[j] != sep,
    ensures
        split_once(s, sep) is None,
    decreases s.len(),
{
    if s.len() > 0 {
        lemma_split_once_none(s.drop_first(), sep);
    }
}

/// A piece without the separator, the separator, and the rest cut apart.
pub proof fn lemma_split_once_join(a: Seq<char>, sep: char, b: Seq<char>)
    requires
        forall|j: int| 0 <= j < a.len() ==> a[j] != sep,
    ensures
        split_once(a + seq![sep] + b, sep) == Some((a, b)),
{
    let s = a + seq![sep] + b;
    assert(s[a.len() as int] == sep);
    lemma_split_once_at(s, sep, a.len() as int);
    assert(s.take(a.len() as int) =~= a);
    assert(s.skip(a.len() as int + 1) =~= b);
}

/// Cuts `s` at the first `sep`.
pub fn split_once_chars(s: &[char], sep: char) -> (r: Option<(Vec<char>, Vec<char>)>)
    ensures
        match r {
            Some((a, b)) => split_once(s@, sep) == Some((a@, b@)),
            None => split_once(s@, sep) is None,
        },
{
    let mut i: usize = 0;
    while i < s.len()
        invariant
            i <= s@.len(),
            forall|j: int| 0 <= j < i ==> s@[j] != sep,
        decreases s.len() - i,
    {
        if s[i] == sep {
            proof {
                lemma_split_once_at(s@, sep, i as int);
            }
            let a = vstd::slice::slice_to_vec(vstd::slice::slice_subrange(s, 0, i));
            let b = vstd::slice::slice_to_vec(vstd::slice::slice_subrange(s, i + 1, s.len()));
            assert(a@ =~= s@.take(i as int));
            assert(b@ =~= s@.skip(i + 1));
            return Some((a, b));
        }
        i = i + 1;
    }
    proof {
        lemma_split_once_none(s@, sep);
    }
    None
}

// --- white space -----------------------------------------------------------

/// Whether `c` is white space, as `char::is_whitespace` decides: the
/// characters with the Unicode `White_Space` property.
pub open spec fn is_space(c: char) -> bool {
    ||| '\t' <= c <= '\r'
    ||| c == ' '
    ||| c == '\u{85}'
    ||| c == '\u{a0}'
    ||| c == '\u{1680}'
    ||| '\u{2000}' <= c <= '\u{200a}'
    ||| c == '\u{2028}'
    ||| c == '\u{2029}'
    ||| c == '\u{202f}'
    ||| c == '\u{205f}'
    ||| c == '\u{3000}'
}

/// Whether `s` holds only white space, so that trimming leaves nothing.
pub open spec fn blank(s: Seq<char>) -> bool {
    forall|i: int| 0 <= i < s.len() ==> is_space(#[trigger] s[i])
}

pub fn is_space_char(c: char) -> (r: bool)
    ensures
        r == is_space(c),
{
    ('\t' <= c && c <= '\r') || c == ' ' || c == '\u{85}' || c == '\u{a0}' || c == '\u{1680}'
        || ('\u{2000}' <= c && c <= '\u{200a}') || c == '\u{2028}' || c == '\u{2029}' || c
        == '\u{202f}' || c == '\u{205f}' || c == '\u{3000}'
}

pub fn is_blank(s: &[char]) -> (r: bool)
    ensures
        r == blank(s@),
{
    let mut i: usize = 0;
    while i < s.len()
        invariant
            i <= s@.len(),
            forall|j: int| 0 <= j < i ==> is_space(#[trigger] s@[j]),
        decreases s.len() - i,
    {
        if !is_space_char(s[i]) {
            return false;
        }
        i = i + 1;
    }
    true
}

// --- lines -----------------------------------------------------------------

/// A line without the carriage return that ends it.
pub open spec fn strip_cr(l: Seq<char>) -> Seq<char> {
    if l.len() > 0 && l.last() == '\r' {
        l.drop_last()
    } else {
        l
    }
}

/// The lines of a text, as `str::lines` yields them: split at `\n`, with
/// a `\r` just before a `\n` removed, and no line after a final `\n`.
pub open spec fn lines_of(t: Seq<char>) -> Seq<Seq<char>> {
    let parts = split_on(t, '\n');
    let count: int = if t.len() == 0 {
        0
    } else if t.last() == '\n' {
        parts.len() - 1
    } else {
        parts.len() as int
    };
    Seq::new(
        count as nat,
        |i: int|
            if i < parts.len() - 1 {
                strip_cr(parts[i])
            } else {
                parts[i]
            },
    )
}

/// The lines of a text.
pub fn lines(text: &str) -> (r: Vec<Vec<char>>)
    ensures
        r@.len() == lines_of(text@).len(),
        forall|i: int| 0 <= i < r@.len() ==> #[trigger] r@[i]@ == lines_of(text@)[i],
{
    let cs = chars_of(text);
    let parts = split_chars(cs.as_slice(), '\n');
    proof {
        lemma_split_on_nonempty(text@, '\n');
    }
    let n = parts.len();
    let count: usize = if cs.len() == 0 {
        0
    } else if cs[cs.len() - 1] == '\n' {
        n - 1
    } else {
        n
    };
    let mut out: Vec<Vec<char>> = Vec::new();
    let mut i: usize = 0;
    while i < count
        invariant
            parts@.len() == split_on(text@, '\n').len(),
            forall|j: int| 0 <= j < parts@.len() ==> #[trigger] parts@[j]@ == split_on(text@, '\n')[j],
            n == parts@.len(),
            n >= 1,
            count == lines_of(text@).len(),
            count <= n,
            i <= count,
            out@.len() == i,
            forall|j: int| 0 <= j < i ==> #[trigger] out@[j]@ == lines_of(text@)[j],
        decreases count - i,
    {
        let p = &parts[i];
        let line = if i < n - 1 && p.len() > 0 && p[p.len() - 1] == '\r' {
            let v = vstd::slice::slice_to_vec(vstd::slice::slice_subrange(p.as_slice(), 0, p.len() - 1));
            assert(v@ =~= p@.drop_last());
            v
        } else {
            let v = vstd::slice::slice_to_vec(p.as_slice());
            v
        };
        out.push(line);
        i = i + 1;
    }
    out
}

/// Splitting at a separator that follows `a`: the pieces of `a`, then an
/// empty one.
pub proof fn lemma_split_on_push_sep(a: Seq<char>, sep: char)
    ensures
        split_on(a.push(sep), sep) == split_on(a, sep).push(Seq::empty()),
{
    assert(a.push(sep).drop_last() =~= a);
}

/// Appending text without the separator extends the last piece.
pub proof fn lemma_split_on_extend(a: Seq<char>, b: Seq<char>, sep: char)
    requires
        forall|j: int| 0 <= j < b.len() ==> b[j] != sep,
    ensures
        split_on(a + b, sep) == split_on(a, sep).update(
            split_on(a, sep).len() - 1,
            split_on(a, sep).last() + b,
        ),
    decreases b.len(),
{
    lemma_split_on_nonempty(a, sep);
    if b.len() == 0 {
        assert(a + b =~= a);
        assert(split_on(a, sep).last() + b =~= split_on(a, sep).last());
        assert(split_on(a, sep).update(split_on(a, sep).len() - 1, split_on(a, sep).last())
            =~= split_on(a, sep));
    } else {
        let b1 = b.drop_last();
        lemma_split_on_extend(a, b1, sep);
        assert((a + b).drop_last() =~= a + b1);
        assert((a + b).last() == b.last());
        lemma_split_on_nonempty(a + b1, sep);
        let r = split_on(a + b1, sep);
        assert(split_on(a + b, sep) == r.update(r.len() - 1, r.last().push(b.last())));
        assert(split_on(a, sep).last() + b1 + seq![b.last()] =~= split_on(a, sep).last() + b);
        assert(r.last().push(b.last()) =~= split_on(a, sep).last() + b);
        assert(split_on(a + b, sep) =~= split_on(a, sep).update(
            split_on(a, sep).len() - 1,
            split_on(a, sep).last() + b,
        ));
    }
}

} // verus!
