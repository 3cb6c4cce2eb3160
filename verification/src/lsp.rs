//! The parts of the language server that decide: where an editor's
//! position falls in a text, what a `file:` URI names, and what a message
//! header says. Reading and writing the streams stands around them.

use vstd::prelude::*;
use vstd::utf8::{decode_utf8, encode_scalar, encode_utf8, valid_utf8};
use vstd::string::StringSliceAdditionalSpecFns;
use crate::specialize::{first_index, lemma_first_index, lemma_first_index_prefix, lemma_first_index_step};
use crate::text::{chars_of, from_chars, has_prefix, is_space, is_space_char, parse_decimal, parse_unsigned, starts_with};

verus! {

/// The diagnostics the language server does not publish yet, each with the
/// reason. The aim is to empty it: a reader who does not know that the
/// server leaves one out would take a wrong manifest for a right one.
pub fn unsupported() -> (r: Vec<(&'static str, &'static str)>)
    ensures
        r@.len() == 8,
        r@[0].0 == "unreadable-build",
        r@[7].0 == "lockfile-drift",
{
    vec![
        ("unreadable-build", "the buffer overlay cannot reproduce an unreadable file on disk"),
        (
            "not-debuggable",
            "raised by `dowel debug` about the target it was asked for; the editor asks for none",
        ),
        (
            "missing-debug-stub",
            "triggered by `--target` under `dowel debug`; the editor has no `--target` and starts no debug session",
        ),
        ("missing-runner", "triggered by `--target`, which is not part of any manifest"),
        (
            "unsupported-target",
            "triggered by the requested triple; the editor has no `--target` and would show a permanent error the reader cannot clear",
        ),
        (
            "unfetchable-dependency",
            "the server never touches the network; fetching and its diagnostic belong to the CLI",
        ),
        (
            "unsatisfied-dependency",
            "resolving system packages runs pkg-config; the server starts no external processes",
        ),
        (
            "lockfile-drift",
            "reconciling the lock happens when the CLI resolves; the server starts no external processes",
        ),
    ]
}

// --- positions ---------------------------------------------------------------

/// Whether a character ends a line.
pub open spec fn is_newline() -> spec_fn(char) -> bool {
    |c: char| c == '\n'
}

/// The position of the first line end at or after `s`.
pub open spec fn next_newline(t: Seq<char>, s: int) -> Option<int> {
    match first_index(t.skip(s), is_newline()) {
        Some(j) => Some(s + j),
        None => None,
    }
}

/// Where line `line` starts, counting lines from 0: `None` when the text
/// has fewer line ends than that.
pub open spec fn line_start(t: Seq<char>, line: nat) -> Option<int>
    decreases line,
{
    if line == 0 {
        Some(0)
    } else {
        match line_start(t, (line - 1) as nat) {
            Some(s) => match next_newline(t, s) {
                Some(j) => Some(j + 1),
                None => None,
            },
            None => None,
        }
    }
}

/// How many UTF-16 units a character takes.
pub open spec fn utf16_width(c: char) -> int {
    if c as u32 >= 0x10000 {
        2
    } else {
        1
    }
}

/// How many characters of `line` come before the column `ch`, counted in
/// UTF-16 units from `units`: `None` when no character starts there.
pub open spec fn column_chars(line: Seq<char>, units: int, ch: int) -> Option<int>
    decreases line.len(),
{
    if units == ch {
        Some(0)
    } else if line.len() == 0 {
        None
    } else {
        match column_chars(line.drop_first(), units + utf16_width(line[0]), ch) {
            Some(k) => Some(k + 1),
            None => None,
        }
    }
}

/// The characters of the line that starts at `s`, without its line end.
pub open spec fn line_at(t: Seq<char>, s: int) -> Seq<char> {
    match next_newline(t, s) {
        Some(j) => t.subrange(s, j),
        None => t.skip(s),
    }
}

/// The byte offset of an editor's position: line `line` counted from 0 and
/// column `ch` in UTF-16 units. `None` when the line does not exist or no
/// character starts at that column; the end of a line is a position.
pub open spec fn offset_at(t: Seq<char>, line: nat, ch: int) -> Option<u32> {
    match line_start(t, line) {
        Some(s) => match column_chars(line_at(t, s), 0, ch) {
            Some(k) => Some(encode_utf8(t.take(s + k)).len() as u32),
            None => None,
        },
        None => None,
    }
}

/// Past a line that does not exist, no line exists.
pub proof fn lemma_no_line_after(t: Seq<char>, a: nat, b: nat)
    requires
        a <= b,
        line_start(t, a) is None,
    ensures
        line_start(t, b) is None,
    decreases b - a,
{
    if a < b {
        lemma_no_line_after(t, (a + 1) as nat, b);
    }
}

/// One more character adds its bytes at the end.
pub proof fn lemma_encode_push(s: Seq<char>, c: char)
    ensures
        encode_utf8(s.push(c)) == encode_utf8(s) + encode_scalar(c as u32),
    decreases s.len(),
{
    if s.len() == 0 {
        assert(s.push(c).drop_first() =~= Seq::<char>::empty());
        assert(encode_utf8(Seq::<char>::empty()) =~= Seq::<u8>::empty());
        assert(s.push(c)[0] == c);
        assert(encode_utf8(s.push(c)) =~= encode_scalar(c as u32));
    } else {
        lemma_encode_push(s.drop_first(), c);
        assert(s.push(c).drop_first() =~= s.drop_first().push(c));
        assert(s.push(c)[0] == s[0]);
        assert(encode_utf8(s.push(c)) =~= encode_utf8(s) + encode_scalar(c as u32));
    }
}

/// The first line end at or after `s`, described by what lies before it.
pub proof fn lemma_next_newline(t: Seq<char>, s: int)
    requires
        0 <= s <= t.len(),
    ensures
        match next_newline(t, s) {
            Some(j) => s <= j < t.len() && t[j] == '\n' && forall|k: int|
                s <= k < j ==> #[trigger] t[k] != '\n',
            None => forall|k: int| s <= k < t.len() ==> #[trigger] t[k] != '\n',
        },
{
    let r = t.skip(s);
    lemma_first_index(r, is_newline());
    match first_index(r, is_newline()) {
        Some(i) => {
            assert(r[i] == t[s + i]);
            assert forall|k: int| s <= k < s + i implies #[trigger] t[k] != '\n' by {
                assert(r[k - s] == t[k]);
            }
        },
        None => {
            assert forall|k: int| s <= k < t.len() implies #[trigger] t[k] != '\n' by {
                assert(r[k - s] == t[k]);
            }
        },
    }
}

/// The number of UTF-8 bytes of a character.
fn utf8_width(c: char) -> (r: u128)
    ensures
        r == encode_scalar(c as u32).len(),
        1 <= r <= 4,
{
    proof {
        vstd::utf8::char_is_scalar(c);
    }
    let v = c as u32;
    if v <= 0x7F {
        1
    } else if v <= 0x7FF {
        2
    } else if v <= 0xFFFF {
        3
    } else {
        4
    }
}

/// The byte offset of an editor's position in `text`, or `None` when it
/// falls outside the text. Positions come from outside, so one that does
/// not fall on a character is refused rather than rounded.
pub fn offset_of(text: &str, line: u32, character: u32) -> (r: Option<u32>)
    ensures
        r == offset_at(text@, line as nat, character as int),
{
    let t = chars_of(text);
    let ghost tv = t@;
    let n = t.len();
    let mut p: usize = 0;
    let mut bytes: u128 = 0;
    let mut l: u32 = 0;
    while l < line
        invariant
            tv == t@,
            tv == text@,
            n == tv.len(),
            l <= line,
            p <= n,
            line_start(tv, l as nat) == Some(p as int),
            bytes == encode_utf8(tv.take(p as int)).len(),
            bytes <= 4 * p,
        decreases line - l,
    {
        let ghost s = p as int;
        let mut j: usize = p;
        while j < n && t[j] != '\n'
            invariant
                tv == t@,
                n == tv.len(),
                p <= j <= n,
                s == p as int,
                forall|k: int| s <= k < j ==> #[trigger] tv[k] != '\n',
                bytes == encode_utf8(tv.take(j as int)).len(),
                bytes <= 4 * j,
            decreases n - j,
        {
            proof {
                lemma_encode_push(tv.take(j as int), tv[j as int]);
                assert(tv.take(j + 1) =~= tv.take(j as int).push(tv[j as int]));
            }
            bytes = bytes + utf8_width(t[j]);
            j += 1;
        }
        proof {
            lemma_next_newline(tv, s);
        }
        if j == n {
            proof {
                assert(next_newline(tv, s) is None);
                assert(line_start(tv, (l + 1) as nat) is None);
                lemma_no_line_after(tv, (l + 1) as nat, line as nat);
            }
            return None;
        }
        proof {
            assert(next_newline(tv, s) == Some(j as int));
            lemma_encode_push(tv.take(j as int), tv[j as int]);
            assert(tv.take(j + 1) =~= tv.take(j as int).push(tv[j as int]));
            assert(encode_scalar('\n' as u32).len() == 1);
        }
        bytes = bytes + 1;
        p = j + 1;
        l += 1;
    }
    // Walk the line, counting UTF-16 units, until the column is reached.
    let ghost s = p as int;
    proof {
        lemma_next_newline(tv, s);
    }
    let ghost end = match next_newline(tv, s) {
        Some(j) => j,
        None => n as int,
    };
    assert(line_at(tv, s) =~= tv.subrange(s, end));
    let mut units: u128 = 0;
    while p < n && t[p] != '\n'
        invariant
            tv == t@,
            tv == text@,
            n == tv.len(),
            0 <= s <= p <= end <= n,
            line_at(tv, s) == tv.subrange(s, end),
            line_start(tv, line as nat) == Some(s),
            end == (match next_newline(tv, s) {
                Some(j) => j,
                None => n as int,
            }),
            end < n ==> tv[end] == '\n',
            forall|k: int| s <= k < end ==> #[trigger] tv[k] != '\n',
            units <= 2 * (p - s),
            bytes == encode_utf8(tv.take(p as int)).len(),
            bytes <= 4 * p,
            column_chars(tv.subrange(s, end), 0, character as int) == match column_chars(
                tv.subrange(p as int, end),
                units as int,
                character as int,
            ) {
                Some(k) => Some(k + (p - s)),
                None => None,
            },
        decreases n - p,
    {
        proof {
            if p == end {
                assert(tv[p as int] == '\n');
            }
            assert(tv.subrange(p as int, end).drop_first() =~= tv.subrange(p + 1, end));
            assert(tv.subrange(p as int, end)[0] == tv[p as int]);
        }
        if units == character as u128 {
            return Some(bytes as u32);
        }
        let c = t[p];
        let w: u128 = if (c as u32) >= 0x10000 {
            2
        } else {
            1
        };
        proof {
            lemma_encode_push(tv.take(p as int), c);
            assert(tv.take(p + 1) =~= tv.take(p as int).push(c));
        }
        assert(units + w <= 2 * (p + 1 - s));
        units = units + w;
        bytes = bytes + utf8_width(c);
        p += 1;
    }
    proof {
        if p < end {
            assert(tv[p as int] != '\n');
        }
        assert(p == end);
        assert(tv.subrange(p as int, end) =~= Seq::<char>::empty());
    }
    if units == character as u128 {
        Some(bytes as u32)
    } else {
        None
    }
}

// --- URIs ------------------------------------------------------------------------

/// The value of a hexadecimal digit.
pub open spec fn hex_digit(b: u8) -> Option<u8> {
    if 0x30 <= b <= 0x39 {
        Some((b - 0x30) as u8)
    } else if 0x61 <= b <= 0x66 {
        Some((b - 0x57) as u8)
    } else if 0x41 <= b <= 0x46 {
        Some((b - 0x37) as u8)
    } else {
        None
    }
}

/// What `u8::from_str_radix` reads, in base 16, from the two bytes after a
/// `%`: hexadecimal digits, the first of which may be a `+` sign.
pub open spec fn hex_pair(a: u8, b: u8) -> Option<u8> {
    if a == 0x2b {
        hex_digit(b)
    } else {
        match (hex_digit(a), hex_digit(b)) {
            (Some(x), Some(y)) => Some((16 * x + y) as u8),
            _ => None,
        }
    }
}

/// The bytes of `b` from `i` on with each `%` and two hexadecimal digits
/// replaced by the byte they spell. A `%` not followed by two readable
/// digits stays as it is.
pub open spec fn percent_decoded(b: Seq<u8>, i: int) -> Seq<u8>
    decreases b.len() - i,
{
    if i < 0 || i >= b.len() {
        Seq::empty()
    } else if b[i] == 0x25 && i + 2 < b.len() && hex_pair(b[i + 1], b[i + 2]) is Some {
        seq![hex_pair(b[i + 1], b[i + 2])->0] + percent_decoded(b, i + 3)
    } else {
        seq![b[i]] + percent_decoded(b, i + 1)
    }
}

fn hex_value(b: u8) -> (r: Option<u8>)
    ensures
        r == hex_digit(b),
{
    if 0x30 <= b && b <= 0x39 {
        Some(b - 0x30)
    } else if 0x61 <= b && b <= 0x66 {
        Some(b - 0x57)
    } else if 0x41 <= b && b <= 0x46 {
        Some(b - 0x37)
    } else {
        None
    }
}

fn hex_byte(a: u8, b: u8) -> (r: Option<u8>)
    ensures
        r == hex_pair(a, b),
{
    if a == 0x2b {
        return hex_value(b);
    }
    match (hex_value(a), hex_value(b)) {
        (Some(x), Some(y)) => Some(16 * x + y),
        _ => None,
    }
}

/// Makes a string of bytes with std's `String::from_utf8_lossy`. The
/// contract claims what std documents for valid input: the string holds
/// those characters. Invalid sequences become U+FFFD there; which
/// characters come out then is not stated here.
#[verifier::external_body]
fn lossy_string(b: &[u8]) -> (r: String)
    ensures
        valid_utf8(b@) ==> r@ == decode_utf8(b@),
{
    String::from_utf8_lossy(b).into_owned()
}

/// Undoes the percent-encoding of a URI: each `%` and two hexadecimal
/// digits become the byte they spell; a sequence that cannot be read stays
/// as it is. Bytes that do not form UTF-8 are replaced, as
/// `String::from_utf8_lossy` does.
pub fn percent_decode(s: &str) -> (r: String)
    ensures
        valid_utf8(percent_decoded(s.spec_bytes(), 0)) ==> r@ == decode_utf8(
            percent_decoded(s.spec_bytes(), 0),
        ),
{
    let b = s.as_bytes();
    let ghost whole = percent_decoded(b@, 0);
    let mut out: Vec<u8> = Vec::new();
    let mut i: usize = 0;
    while i < b.len()
        invariant
            i <= b@.len(),
            whole == percent_decoded(b@, 0),
            out@ + percent_decoded(b@, i as int) == whole,
        decreases b.len() - i,
    {
        if b[i] == 0x25 && b.len() - i > 2 {
            match hex_byte(b[i + 1], b[i + 2]) {
                Some(v) => {
                    let ghost before = out@;
                    out.push(v);
                    assert(before + percent_decoded(b@, i as int) =~= out@ + percent_decoded(
                        b@,
                        i + 3,
                    ));
                    i += 3;
                    continue;
                },
                None => {},
            }
        }
        let ghost before = out@;
        out.push(b[i]);
        assert(before + percent_decoded(b@, i as int) =~= out@ + percent_decoded(b@, i + 1));
        i += 1;
    }
    assert(out@ =~= whole);
    lossy_string(out.as_slice())
}

/// The text of a URI without its `file://`, if it has one.
pub open spec fn uri_path_text(uri: Seq<char>) -> Seq<char> {
    if has_prefix(uri, "file://"@) {
        uri.skip(7)
    } else {
        uri
    }
}

/// The path a `file:` URI names, percent-decoded. Other forms are not
/// handled: what is not a `file:` URI is decoded as it stands, so that
/// its name at least stays.
pub fn path_of(uri: &str) -> (r: String)
    ensures
        valid_utf8(percent_decoded(encode_utf8(uri_path_text(uri@)), 0)) ==> r@ == decode_utf8(
            percent_decoded(encode_utf8(uri_path_text(uri@)), 0),
        ),
{
    let cs = chars_of(uri);
    proof {
        reveal_strlit("file://");
    }
    let rest = if starts_with(cs.as_slice(), "file://") {
        from_chars(vstd::slice::slice_subrange(cs.as_slice(), 7, cs.len()))
    } else {
        from_chars(cs.as_slice())
    };
    assert(rest@ == uri_path_text(uri@));
    percent_decode(rest.as_str())
}

// --- message headers ---------------------------------------------------------

/// `s` without the white space it starts with.
pub open spec fn trim_start(s: Seq<char>) -> Seq<char>
    decreases s.len(),
{
    if s.len() > 0 && is_space(s[0]) {
        trim_start(s.drop_first())
    } else {
        s
    }
}

/// `s` without the white space it ends with.
pub open spec fn trim_end(s: Seq<char>) -> Seq<char>
    decreases s.len(),
{
    if s.len() > 0 && is_space(s.last()) {
        trim_end(s.drop_last())
    } else {
        s
    }
}

/// `s` without white space at either end, as `str::trim` gives it.
pub open spec fn trimmed(s: Seq<char>) -> Seq<char> {
    trim_end(trim_start(s))
}

/// Trims white space from both ends.
pub fn trim(s: &[char]) -> (r: Vec<char>)
    ensures
        r@ == trimmed(s@),
{
    let mut a: usize = 0;
    assert(s@.skip(0) =~= s@);
    while a < s.len() && is_space_char(s[a])
        invariant
            a <= s@.len(),
            trim_start(s@) == trim_start(s@.skip(a as int)),
        decreases s.len() - a,
    {
        assert(s@.skip(a as int).drop_first() =~= s@.skip(a + 1));
        a += 1;
    }
    let ghost front = s@.skip(a as int);
    assert(trim_start(front) == front);
    let mut b: usize = s.len();
    assert(front.take(front.len() as int) =~= front);
    while b > a && is_space_char(s[b - 1])
        invariant
            a <= b <= s@.len(),
            front == s@.skip(a as int),
            trim_end(front) == trim_end(s@.subrange(a as int, b as int)),
        decreases b - a,
    {
        assert(s@.subrange(a as int, b as int).drop_last() =~= s@.subrange(a as int, b - 1));
        b -= 1;
    }
    let out = vstd::slice::slice_subrange(s, a, b);
    let r = vstd::slice::slice_to_vec(out);
    r
}

/// The body length that the header line `line` gives, `len` being the
/// length known before it.
pub open spec fn header_value(line: Seq<char>, len: Option<usize>) -> Option<usize> {
    if has_prefix(line, "Content-Length:"@) {
        match parse_unsigned(trimmed(line.skip(15)), usize::MAX as nat) {
            Some(v) => Some(v as usize),
            None => None,
        }
    } else {
        len
    }
}

/// The header that framing writes reads back as the length it announced.
pub proof fn law_a_frame_header_reads_back(n: nat, len: Option<usize>)
    requires
        n <= usize::MAX,
    ensures
        header_value(crate::rpc::header_text(n), len) == Some(n as usize),
{
    reveal_strlit("Content-Length: ");
    reveal_strlit("Content-Length:");
    let d = crate::text::decimal(n);
    crate::text::lemma_decimal(n);
    let line = crate::rpc::header_text(n);
    assert(line.take(15) =~= "Content-Length:"@);
    let tail = line.skip(15);
    assert(tail =~= seq![' '] + d);
    assert(tail.drop_first() =~= d);
    assert(crate::text::is_digit(d[0]));
    assert(trim_start(d) == d);
    assert(trim_start(tail) == d);
    assert(crate::text::is_digit(d.last()));
    assert(trim_end(d) == d);
    crate::text::lemma_parse_decimal(n, usize::MAX as nat);
}

/// The body length that a header line gives, starting from `len`, the
/// length known before it. A `Content-Length:` line sets it to the
/// number written after it, trimmed, or to nothing when that does not read
/// as a number that fits; any other header is passed over.
pub fn header_line(line: &str, len: Option<usize>) -> (r: Option<usize>)
    ensures
        r == header_value(line@, len),
{
    let cs = chars_of(line);
    proof {
        reveal_strlit("Content-Length:");
    }
    if !starts_with(cs.as_slice(), "Content-Length:") {
        return len;
    }
    let rest = vstd::slice::slice_subrange(cs.as_slice(), 15, cs.len());
    assert(rest@ =~= line@.skip(15));
    let v = trim(rest);
    match parse_decimal(v.as_slice(), usize::MAX as u128) {
        Some(n) => Some(n as usize),
        None => None,
    }
}

/// A header line read as bytes up to its `\n`: without the `\r` before
/// the `\n`, the rest taken as UTF-8 with what is not replaced.
pub fn ascii_line(bytes: &[u8]) -> (r: String)
    ensures
        valid_utf8(strip_cr_byte(bytes@)) ==> r@ == decode_utf8(strip_cr_byte(bytes@)),
{
    if bytes.len() > 0 && bytes[bytes.len() - 1] == 0x0d {
        lossy_string(vstd::slice::slice_subrange(bytes, 0, bytes.len() - 1))
    } else {
        lossy_string(bytes)
    }
}

/// Bytes without a final carriage return.
pub open spec fn strip_cr_byte(b: Seq<u8>) -> Seq<u8> {
    if b.len() > 0 && b.last() == 0x0d {
        b.drop_last()
    } else {
        b
    }
}

} // verus!
