//! Detecting changed input files.
//!
//! Without a file watcher, known inputs are checked with a `stat` scan, and
//! the content is hashed only when the `stat` result differs from last time.
//! An unchanged `(mtime, size, inode, ctime)` with changed content happens
//! only when the mtime is set back on purpose, or when a file is rewritten
//! to the same size within the mtime's granularity, which moves the ctime.
//! The other way round (a different `stat`, the same content) is common:
//! `touch`, a checkout, saving unchanged content. Hashing then avoids
//! recomputing for nothing.

use vstd::prelude::*;
use crate::text::{
    blank, decimal, decimal_string, from_chars, is_blank, lemma_decimal, lemma_digit_char,
    lemma_parse_decimal, lemma_split_on_extend, lemma_split_on_push_sep, lemma_split_once_join,
    lines, lines_of, owned, parse_decimal, parse_unsigned, push_str, split_on, split_once,
    split_once_chars, str_eq, strip_cr, all_digits, is_digit, copy_string, chars_of,
};
use crate::strs::{less_chars, lemma_less_irreflexive, lemma_less_total, lemma_less_transitive, seq_less, strictly_sorted};

verus! {

/// What `stat` tells about a file, compared without reading it.
#[derive(Clone, Copy, PartialEq, Eq, Structural, Default, Debug)]
pub struct InputKey {
    pub mtime_ns: u128,
    pub size: u64,
    pub inode: u64,
    pub ctime_ns: u128,
}

/// The outcome of checking an input.
#[derive(Clone, Copy, PartialEq, Eq, Structural, Debug)]
pub enum Change {
    /// The `stat` result matched; the content was not read.
    UnchangedByStat,
    /// The `stat` result differed but the content's fingerprint matched.
    UnchangedByContent,
    /// The content changed.
    Changed,
    /// Nothing was recorded, or the file could not be read.
    Unknown,
}

/// One recorded input: its path, its `stat` key and its content's
/// fingerprint.
pub type InputRow = (Seq<char>, InputKey, u64);

/// The records as a map from path, a later row replacing an earlier one.
pub open spec fn rows_map(s: Seq<InputRow>) -> Map<Seq<char>, (InputKey, u64)>
    decreases s.len(),
{
    if s.len() == 0 {
        Map::empty()
    } else {
        rows_map(s.drop_last()).insert(s.last().0, (s.last().1, s.last().2))
    }
}

pub open spec fn distinct_paths(s: Seq<InputRow>) -> bool {
    forall|i: int, j: int| 0 <= i < s.len() && 0 <= j < s.len() && i != j ==> s[i].0 != s[j].0
}

/// The first line of an encoded record set.
pub open spec fn header() -> Seq<char> {
    "# dowel input records"@
}

/// The line of one record: the four `stat` numbers, the fingerprint and
/// the path, separated by tabs. Tabs let a path hold spaces.
pub open spec fn row_line(r: InputRow) -> Seq<char> {
    decimal(r.1.mtime_ns as nat) + "\t"@ + decimal(r.1.size as nat) + "\t"@ + decimal(
        r.1.inode as nat,
    ) + "\t"@ + decimal(r.1.ctime_ns as nat) + "\t"@ + decimal(r.2 as nat) + "\t"@ + r.0
}

/// The text of a record set: the header, then one line per record.
pub open spec fn encode_rows(s: Seq<InputRow>) -> Seq<char>
    decreases s.len(),
{
    if s.len() == 0 {
        header() + "\n"@
    } else {
        encode_rows(s.drop_last()) + row_line(s.last()) + "\n"@
    }
}

/// The record that five number fields and a path make, when each number is
/// written as `from_str` accepts and fits its type.
pub open spec fn row_of_fields(
    m: Seq<char>,
    s: Seq<char>,
    i: Seq<char>,
    c: Seq<char>,
    f: Seq<char>,
    path: Seq<char>,
) -> Option<InputRow> {
    let mtime = parse_unsigned(m, u128::MAX as nat);
    let size = parse_unsigned(s, u64::MAX as nat);
    let inode = parse_unsigned(i, u64::MAX as nat);
    let ctime = parse_unsigned(c, u128::MAX as nat);
    let fp = parse_unsigned(f, u64::MAX as nat);
    if mtime is Some && size is Some && inode is Some && ctime is Some && fp is Some {
        Some(
            (
                path,
                InputKey {
                    mtime_ns: mtime.unwrap() as u128,
                    size: size.unwrap() as u64,
                    inode: inode.unwrap() as u64,
                    ctime_ns: ctime.unwrap() as u128,
                },
                fp.unwrap() as u64,
            ),
        )
    } else {
        None
    }
}

/// The six fields of a line, split at its first five tabs.
pub open spec fn fields_of(line: Seq<char>) -> Option<InputRow> {
    match split_once(line, '\t') {
        None => None,
        Some((m, r1)) => match split_once(r1, '\t') {
            None => None,
            Some((s, r2)) => match split_once(r2, '\t') {
                None => None,
                Some((i, r3)) => match split_once(r3, '\t') {
                    None => None,
                    Some((c, r4)) => match split_once(r4, '\t') {
                        None => None,
                        Some((f, path)) => row_of_fields(m, s, i, c, f, path),
                    },
                },
            },
        },
    }
}

/// The record that a line holds, if it holds one: not a comment, not
/// blank, six fields split at the first five tabs, and five numbers that
/// fit their types.
pub open spec fn parse_row(line: Seq<char>) -> Option<InputRow> {
    if (line.len() > 0 && line[0] == '#') || blank(line) {
        None
    } else {
        fields_of(line)
    }
}

/// The records read from lines, in order; lines that hold none are skipped.
pub open spec fn decode_lines(ls: Seq<Seq<char>>) -> Map<Seq<char>, (InputKey, u64)>
    decreases ls.len(),
{
    if ls.len() == 0 {
        Map::empty()
    } else {
        let m = decode_lines(ls.drop_last());
        match parse_row(ls.last()) {
            Some(r) => m.insert(r.0, (r.1, r.2)),
            None => m,
        }
    }
}

/// The records that a text holds.
pub open spec fn decoded(text: Seq<char>) -> Map<Seq<char>, (InputKey, u64)> {
    decode_lines(lines_of(text))
}

/// What checking gives when the `stat` result differed and reading the
/// content gave `content`.
pub open spec fn verdict(content: Option<u64>, recorded: u64) -> Change {
    match content {
        Some(fp) => if fp == recorded {
            Change::UnchangedByContent
        } else {
            Change::Changed
        },
        None => Change::Unknown,
    }
}

struct InputEntry {
    path: String,
    key: InputKey,
    fingerprint: u64,
}

spec fn entry_row(e: InputEntry) -> InputRow {
    (e.path@, e.key, e.fingerprint)
}

/// The known inputs and what was recorded of them.
pub struct Inputs {
    entries: Vec<InputEntry>,
}

proof fn lemma_rows_map_update(s: Seq<InputRow>, i: int, r: InputRow)
    requires
        distinct_paths(s),
        0 <= i < s.len(),
        s[i].0 == r.0,
    ensures
        distinct_paths(s.update(i, r)),
        rows_map(s.update(i, r)) == rows_map(s).insert(r.0, (r.1, r.2)),
    decreases s.len(),
{
    let t = s.update(i, r);
    assert(distinct_paths(t));
    if i == s.len() - 1 {
        assert(t.drop_last() =~= s.drop_last());
        assert(rows_map(s).insert(r.0, (r.1, r.2)) =~= rows_map(s.drop_last()).insert(
            r.0,
            (r.1, r.2),
        ));
    } else {
        lemma_rows_map_update(s.drop_last(), i, r);
        assert(t.drop_last() =~= s.drop_last().update(i, r));
        assert(s.last().0 != r.0);
        assert(rows_map(t) =~= rows_map(s).insert(r.0, (r.1, r.2)));
    }
}

proof fn lemma_rows_map_absent(s: Seq<InputRow>, p: Seq<char>)
    requires
        forall|i: int| 0 <= i < s.len() ==> s[i].0 != p,
    ensures
        !rows_map(s).contains_key(p),
    decreases s.len(),
{
    if s.len() > 0 {
        lemma_rows_map_absent(s.drop_last(), p);
    }
}

proof fn lemma_rows_map_len(s: Seq<InputRow>)
    requires
        distinct_paths(s),
    ensures
        rows_map(s).dom().finite(),
        rows_map(s).len() == s.len(),
    decreases s.len(),
{
    if s.len() > 0 {
        let t = s.drop_last();
        assert(distinct_paths(t));
        lemma_rows_map_len(t);
        lemma_rows_map_absent(t, s.last().0);
    }
}

/// The paths of the records, in order.
pub open spec fn paths_of(s: Seq<InputRow>) -> Seq<Seq<char>> {
    s.map_values(|r: InputRow| r.0)
}

/// Records in strictly increasing order of path hold each path once.
proof fn lemma_sorted_distinct(s: Seq<InputRow>)
    requires
        strictly_sorted(paths_of(s)),
    ensures
        distinct_paths(s),
{
    assert forall|i: int, j: int| 0 <= i < s.len() && 0 <= j < s.len() && i != j implies s[i].0 != s[j].0 by {
        assert(paths_of(s)[i] == s[i].0 && paths_of(s)[j] == s[j].0);
        if i < j {
            lemma_less_irreflexive(s[i].0);
        } else {
            lemma_less_irreflexive(s[j].0);
        }
    }
}

/// With distinct paths, the map that records give holds exactly each
/// record, wherever it stands.
proof fn lemma_rows_map_insert(s: Seq<InputRow>, pos: int, r: InputRow)
    requires
        distinct_paths(s),
        0 <= pos <= s.len(),
        forall|i: int| 0 <= i < s.len() ==> s[i].0 != r.0,
    ensures
        distinct_paths(s.insert(pos, r)),
        rows_map(s.insert(pos, r)) == rows_map(s).insert(r.0, (r.1, r.2)),
{
    let t = s.insert(pos, r);
    assert forall|i: int, j: int| 0 <= i < t.len() && 0 <= j < t.len() && i != j implies t[i].0 != t[j].0 by {
        if i != pos && j != pos {
            let a = if i < pos { i } else { i - 1 };
            let b = if j < pos { j } else { j - 1 };
            assert(t[i] == s[a] && t[j] == s[b]);
        } else if i == pos {
            let b = if j < pos { j } else { j - 1 };
            assert(t[j] == s[b]);
        } else {
            let a = if i < pos { i } else { i - 1 };
            assert(t[i] == s[a]);
        }
    }
    let m = rows_map(s).insert(r.0, (r.1, r.2));
    assert forall|k: Seq<char>| #[trigger] rows_map(t).contains_key(k) == m.contains_key(k) && (m.contains_key(k)
        ==> rows_map(t)[k] == m[k]) by {
        if k == r.0 {
            assert(t[pos] == r);
            lemma_rows_map_found(t, pos);
        } else if exists|j: int| 0 <= j < s.len() && s[j].0 == k {
            let j = choose|j: int| 0 <= j < s.len() && s[j].0 == k;
            lemma_rows_map_found(s, j);
            let jt = if j < pos { j } else { j + 1 };
            assert(t[jt] == s[j]);
            lemma_rows_map_found(t, jt);
        } else {
            lemma_rows_map_absent(s, k);
            assert forall|i: int| 0 <= i < t.len() implies t[i].0 != k by {
                if i < pos {
                    assert(t[i] == s[i]);
                } else if i > pos {
                    assert(t[i] == s[i - 1]);
                }
            }
            lemma_rows_map_absent(t, k);
        }
    }
    assert(rows_map(t) =~= m);
}

impl View for Inputs {
    type V = Map<Seq<char>, (InputKey, u64)>;

    closed spec fn view(&self) -> Map<Seq<char>, (InputKey, u64)> {
        rows_map(self.rows())
    }
}

impl Inputs {
    /// The records, in increasing order of path.
    pub closed spec fn rows(&self) -> Seq<InputRow> {
        self.entries@.map_values(|e: InputEntry| entry_row(e))
    }

    #[verifier::type_invariant]
    closed spec fn inv(self) -> bool {
        strictly_sorted(paths_of(self.rows()))
    }

    pub fn new() -> (r: Inputs)
        ensures
            r@ == Map::<Seq<char>, (InputKey, u64)>::empty(),
            r.rows().len() == 0,
    {
        let r = Inputs { entries: Vec::new() };
        assert(r.rows() =~= Seq::<InputRow>::empty());
        r
    }

    /// The number of recorded inputs.
    pub fn len(&self) -> (r: usize)
        ensures
            r == self@.len(),
    {
        proof {
            use_type_invariant(self);
            lemma_sorted_distinct(self.rows());
            lemma_rows_map_len(self.rows());
        }
        self.entries.len()
    }

    pub fn is_empty(&self) -> (r: bool)
        ensures
            r == (self@.len() == 0),
    {
        self.len() == 0
    }

    fn position(&self, path: &str) -> (r: Option<usize>)
        ensures
            match r {
                Some(i) => i < self.rows().len() && self.rows()[i as int].0 == path@,
                None => forall|i: int| 0 <= i < self.rows().len() ==> self.rows()[i].0 != path@,
            },
    {
        let mut i: usize = 0;
        while i < self.entries.len()
            invariant
                i <= self.entries@.len(),
                forall|j: int| 0 <= j < i ==> self.rows()[j].0 != path@,
            decreases self.entries@.len() - i,
        {
            if str_eq(self.entries[i].path.as_str(), path) {
                return Some(i);
            }
            i = i + 1;
        }
        None
    }

    /// Records an input with its content's fingerprint. `key` is what
    /// `stat` gave; an input that could not be `stat`ed is not recorded.
    pub fn record(&mut self, path: &str, key: Option<InputKey>, fingerprint: u64)
        ensures
            final(self)@ == match key {
                Some(k) => old(self)@.insert(path@, (k, fingerprint)),
                None => old(self)@,
            },
            old(self)@.dom().finite(),
            final(self)@.dom().finite(),
            final(self)@.len() == old(self)@.len() + if key is Some && !old(self)@.contains_key(path@) {
                1int
            } else {
                0int
            },
    {
        proof {
            use_type_invariant(&*self);
            lemma_sorted_distinct(self.rows());
            lemma_rows_map_len(self.rows());
        }
        let k = match key {
            Some(k) => k,
            None => {
                return;
            },
        };
        let ghost before = self.rows();
        let entry = InputEntry { path: owned(path), key: k, fingerprint };
        let found = self.position(path);
        let mut entries: Vec<InputEntry> = Vec::new();
        std::mem::swap(&mut entries, &mut self.entries);
        assert(entries@.map_values(|e: InputEntry| entry_row(e)) == before);
        match found {
            Some(i) => {
                proof {
                    lemma_rows_map_update(before, i as int, entry_row(entry));
                }
                entries.set(i, entry);
                assert(entries@.map_values(|e: InputEntry| entry_row(e)) =~= before.update(
                    i as int,
                    entry_row(entry),
                ));
                assert(paths_of(before.update(i as int, entry_row(entry))) =~= paths_of(before));
            },
            None => {
                let key_chars = chars_of(path);
                let mut p: usize = 0;
                while p < entries.len()
                    invariant
                        p <= entries@.len(),
                        entries@.map_values(|e: InputEntry| entry_row(e)) == before,
                        key_chars@ == path@,
                        forall|j: int| 0 <= j < p ==> seq_less(#[trigger] before[j].0, path@),
                    ensures
                        p <= entries@.len(),
                        entries@.map_values(|e: InputEntry| entry_row(e)) == before,
                        forall|j: int| 0 <= j < p ==> seq_less(#[trigger] before[j].0, path@),
                        p < entries@.len() ==> !seq_less(before[p as int].0, path@),
                    decreases entries.len() - p,
                {
                    let here = chars_of(entries[p].path.as_str());
                    assert(before[p as int] == entry_row(entries@[p as int]));
                    if !less_chars(here.as_slice(), key_chars.as_slice()) {
                        break;
                    }
                    p += 1;
                }
                let ghost pos = p as int;
                proof {
                    lemma_rows_map_insert(before, pos, entry_row(entry));
                }
                entries.insert(p, entry);
                let ghost after = before.insert(pos, entry_row(entry));
                assert(entries@.map_values(|e: InputEntry| entry_row(e)) =~= after);
                proof {
                    let ps = paths_of(before);
                    let n = paths_of(after);
                    if pos < before.len() {
                        lemma_less_total(before[pos].0, path@);
                        assert(before[pos].0 != path@);
                    }
                    assert forall|a: int, b: int| 0 <= a < b < n.len() implies seq_less(n[a], n[b]) by {
                        assert(ps.len() == before.len());
                        if b < pos {
                            assert(n[a] == ps[a] && n[b] == ps[b]);
                        } else if b == pos {
                            assert(n[a] == before[a].0);
                            assert(n[b] == path@);
                        } else if a == pos {
                            assert(n[a] == path@);
                            assert(n[b] == before[b - 1].0);
                            assert(ps[pos] == before[pos].0);
                            assert(ps[b - 1] == before[b - 1].0);
                            if b - 1 > pos {
                                lemma_less_transitive(path@, before[pos].0, before[b - 1].0);
                            }
                        } else if a < pos {
                            assert(n[a] == before[a].0);
                            assert(n[b] == before[b - 1].0);
                            assert(ps[pos] == before[pos].0);
                            assert(ps[b - 1] == before[b - 1].0);
                            lemma_less_transitive(before[a].0, path@, before[pos].0);
                            if b - 1 > pos {
                                lemma_less_transitive(before[a].0, before[pos].0, before[b - 1].0);
                            }
                        } else {
                            assert(n[a] == ps[a - 1]);
                            assert(n[b] == ps[b - 1]);
                        }
                    }
                }
            },
        }
        self.entries = entries;
        proof {
            use_type_invariant(&*self);
            lemma_sorted_distinct(self.rows());
            lemma_rows_map_len(self.rows());
        }
    }

    /// Compares the record of `path` with `now`, what `stat` gives now.
    /// When they match the content is not read; otherwise `content` reads
    /// it and gives its fingerprint. The cost of a scan is decided here.
    pub fn check<F: FnOnce() -> Option<u64>>(&self, path: &str, now: Option<InputKey>, content: F) -> (r: Change)
        requires
            content.requires(()),
        ensures
            !self@.contains_key(path@) || now is None ==> r == Change::Unknown,
            self@.contains_key(path@) && now == Some(self@[path@].0) ==> r == Change::UnchangedByStat,
            (self@.contains_key(path@) && now is Some && now.unwrap() != self@[path@].0) ==> exists|
                c: Option<u64>,
            |
                content.ensures((), c) && r == verdict(c, self@[path@].1),
    {
        proof {
            use_type_invariant(self);
            lemma_sorted_distinct(self.rows());
        }
        let ghost rows = self.rows();
        let i = match self.position(path) {
            Some(i) => i,
            None => {
                proof {
                    lemma_rows_map_absent(rows, path@);
                }
                return Change::Unknown;
            },
        };
        proof {
            let t = rows.take(i as int);
            assert(rows.subrange(i + 1, rows.len() as int).len() + t.len() + 1 == rows.len());
            lemma_rows_map_found(rows, i as int);
            assert(rows[i as int] == entry_row(self.entries@[i as int]));
            assert(self@[path@] == (self.entries@[i as int].key, self.entries@[i as int].fingerprint));
        }
        let now = match now {
            Some(n) => n,
            None => {
                return Change::Unknown;
            },
        };
        let recorded = self.entries[i].key;
        let fingerprint = self.entries[i].fingerprint;
        if now == recorded {
            return Change::UnchangedByStat;
        }
        let c = content();
        let r = match c {
            Some(fp) => if fp == fingerprint {
                Change::UnchangedByContent
            } else {
                Change::Changed
            },
            None => Change::Unknown,
        };
        assert(content.ensures((), c));
        assert(r == verdict(c, fingerprint));
        assert(content.ensures((), c) && r == verdict(c, self@[path@].1));
        r
    }
}

proof fn lemma_rows_map_found(s: Seq<InputRow>, i: int)
    requires
        distinct_paths(s),
        0 <= i < s.len(),
    ensures
        rows_map(s).contains_key(s[i].0),
        rows_map(s)[s[i].0] == (s[i].1, s[i].2),
    decreases s.len(),
{
    if i < s.len() - 1 {
        assert(distinct_paths(s.drop_last()));
        lemma_rows_map_found(s.drop_last(), i);
        assert(s.last().0 != s[i].0);
    }
}

/// Reads the record that a line holds.
fn parse_row_chars(line: &[char]) -> (r: Option<(Vec<char>, InputKey, u64)>)
    ensures
        match r {
            Some((p, k, f)) => parse_row(line@) == Some((p@, k, f)),
            None => parse_row(line@) is None,
        },
{
    if (line.len() > 0 && line[0] == '#') || is_blank(line) {
        return None;
    }
    let (m, r1) = match split_once_chars(line, '\t') {
        Some(x) => x,
        None => {
            return None;
        },
    };
    let (s, r2) = match split_once_chars(r1.as_slice(), '\t') {
        Some(x) => x,
        None => {
            return None;
        },
    };
    let (i, r3) = match split_once_chars(r2.as_slice(), '\t') {
        Some(x) => x,
        None => {
            return None;
        },
    };
    let (c, r4) = match split_once_chars(r3.as_slice(), '\t') {
        Some(x) => x,
        None => {
            return None;
        },
    };
    let (f, path) = match split_once_chars(r4.as_slice(), '\t') {
        Some(x) => x,
        None => {
            return None;
        },
    };
    let mtime = parse_decimal(m.as_slice(), u128::MAX);
    let size = parse_decimal(s.as_slice(), u64::MAX as u128);
    let inode = parse_decimal(i.as_slice(), u64::MAX as u128);
    let ctime = parse_decimal(c.as_slice(), u128::MAX);
    let fp = parse_decimal(f.as_slice(), u64::MAX as u128);
    match (mtime, size, inode, ctime, fp) {
        (Some(a), Some(b), Some(d), Some(e), Some(g)) => {
            let key = InputKey { mtime_ns: a, size: b as u64, inode: d as u64, ctime_ns: e };
            Some((path, key, g as u64))
        },
        _ => None,
    }
}

fn write_row(out: &mut String, e: &InputEntry)
    ensures
        final(out)@ == old(out)@ + row_line(entry_row(*e)) + "\n"@,
{
    let ghost start = out@;
    push_str(out, decimal_string(e.key.mtime_ns).as_str());
    push_str(out, "\t");
    push_str(out, decimal_string(e.key.size as u128).as_str());
    push_str(out, "\t");
    push_str(out, decimal_string(e.key.inode as u128).as_str());
    push_str(out, "\t");
    push_str(out, decimal_string(e.key.ctime_ns).as_str());
    push_str(out, "\t");
    push_str(out, decimal_string(e.fingerprint as u128).as_str());
    push_str(out, "\t");
    push_str(out, e.path.as_str());
    push_str(out, "\n");
    assert(out@ =~= start + row_line(entry_row(*e)) + "\n"@);
}

impl Inputs {
    /// Writes the records one per line, after a header line, in
    /// increasing order of path.
    pub fn encode(&self) -> (r: String)
        ensures
            r@ == encode_rows(self.rows()),
            strictly_sorted(paths_of(self.rows())),
            self.rows().len() == self@.len(),
            forall|i: int| #![trigger self.rows()[i]] 0 <= i < self.rows().len() ==> self@.contains_key(self.rows()[i].0)
                && self@[self.rows()[i].0] == (self.rows()[i].1, self.rows()[i].2),
            (forall|p: Seq<char>| #[trigger] self@.contains_key(p) ==> fits_on_a_line(p)) ==> decoded(r@) == self@,
    {
        proof {
            use_type_invariant(self);
            lemma_sorted_distinct(self.rows());
            lemma_rows_map_len(self.rows());
            assert forall|i: int| #![trigger self.rows()[i]] 0 <= i < self.rows().len() implies self@.contains_key(self.rows()[i].0)
                && self@[self.rows()[i].0] == (self.rows()[i].1, self.rows()[i].2) by {
                lemma_rows_map_found(self.rows(), i);
            }
        }
        let mut out = owned("# dowel input records");
        push_str(&mut out, "\n");
        let ghost rows = self.rows();
        assert(rows.take(0) =~= Seq::<InputRow>::empty());
        let mut i: usize = 0;
        while i < self.entries.len()
            invariant
                rows == self.rows(),
                rows.len() == self.entries@.len(),
                i <= self.entries@.len(),
                out@ == encode_rows(rows.take(i as int)),
            decreases self.entries@.len() - i,
        {
            let e = &self.entries[i];
            assert(rows[i as int] == entry_row(*e));
            write_row(&mut out, e);
            assert(rows.take(i + 1).drop_last() =~= rows.take(i as int));
            assert(out@ =~= encode_rows(rows.take(i + 1)));
            i = i + 1;
        }
        assert(rows.take(i as int) =~= rows);
        proof {
            if forall|p: Seq<char>| #[trigger] self@.contains_key(p) ==> fits_on_a_line(p) {
                assert forall|j: int| 0 <= j < rows.len() implies fits_on_a_line(#[trigger] rows[j].0) by {
                    assert(self@.contains_key(self.rows()[j].0));
                }
                law_decoding_inverts_encoding(rows);
            }
        }
        out
    }

    /// Reads records back from the text that [`Inputs::encode`] writes.
    /// Broken lines are skipped: an input without a record counts as
    /// `Unknown`, and its content is read again.
    pub fn decode(text: &str) -> (r: Inputs)
        ensures
            r@ == decoded(text@),
    {
        let ls = lines(text);
        let ghost all = lines_of(text@);
        let mut out = Inputs::new();
        assert(all.take(0) =~= Seq::<Seq<char>>::empty());
        let mut i: usize = 0;
        while i < ls.len()
            invariant
                all == lines_of(text@),
                ls@.len() == all.len(),
                forall|j: int| 0 <= j < ls@.len() ==> #[trigger] ls@[j]@ == all[j],
                i <= ls@.len(),
                out@ == decode_lines(all.take(i as int)),
            decreases ls@.len() - i,
        {
            assert(all.take(i + 1).drop_last() =~= all.take(i as int));
            assert(all.take(i + 1).last() == ls@[i as int]@);
            match parse_row_chars(ls[i].as_slice()) {
                Some((p, k, f)) => {
                    let path = from_chars(p.as_slice());
                    out.record(path.as_str(), Some(k), f);
                },
                None => {},
            }
            i = i + 1;
        }
        assert(all.take(i as int) =~= all);
        out
    }
}

/// Whether a path survives being written on a line of its own: it holds no
/// line break and does not end with a carriage return.
pub open spec fn fits_on_a_line(p: Seq<char>) -> bool {
    &&& forall|j: int| 0 <= j < p.len() ==> p[j] != '\n'
    &&& !(p.len() > 0 && p.last() == '\r')
}

proof fn lemma_decimal_plain(n: nat)
    ensures
        decimal(n).len() >= 1,
        forall|j: int| 0 <= j < decimal(n).len() ==> {
            &&& decimal(n)[j] != '\t'
            &&& decimal(n)[j] != '\n'
            &&& decimal(n)[j] != '\r'
            &&& decimal(n)[j] != '#'
            &&& !crate::text::is_space(decimal(n)[j])
        },
{
    lemma_decimal(n);
    assert forall|j: int| 0 <= j < decimal(n).len() implies {
        &&& decimal(n)[j] != '\t'
        &&& decimal(n)[j] != '\n'
        &&& decimal(n)[j] != '\r'
        &&& decimal(n)[j] != '#'
        &&& !crate::text::is_space(decimal(n)[j])
    } by {
        assert(is_digit(decimal(n)[j]));
    }
}

spec fn free_of(s: Seq<char>, c: char) -> bool {
    forall|j: int| 0 <= j < s.len() ==> s[j] != c
}

proof fn lemma_free_of_concat(a: Seq<char>, b: Seq<char>, c: char)
    requires
        free_of(a, c),
        free_of(b, c),
    ensures
        free_of(a + b, c),
{
    assert forall|j: int| 0 <= j < (a + b).len() implies (a + b)[j] != c by {
        if j < a.len() {
            assert((a + b)[j] == a[j]);
        } else {
            assert((a + b)[j] == b[j - a.len()]);
        }
    }
}

proof fn lemma_row_line_one_line(r: InputRow)
    requires
        fits_on_a_line(r.0),
    ensures
        free_of(row_line(r), '\n'),
        row_line(r).len() > 0,
        row_line(r).last() != '\r',
{
    let dm = decimal(r.1.mtime_ns as nat);
    let ds = decimal(r.1.size as nat);
    let di = decimal(r.1.inode as nat);
    let dc = decimal(r.1.ctime_ns as nat);
    let df = decimal(r.2 as nat);
    lemma_decimal_plain(r.1.mtime_ns as nat);
    lemma_decimal_plain(r.1.size as nat);
    lemma_decimal_plain(r.1.inode as nat);
    lemma_decimal_plain(r.1.ctime_ns as nat);
    lemma_decimal_plain(r.2 as nat);
    let tab = "\t"@;
    assert(tab == seq!['\t']) by {
        reveal_strlit("\t");
    }
    assert(free_of(tab, '\n'));
    let a1 = dm + tab;
    lemma_free_of_concat(dm, tab, '\n');
    lemma_free_of_concat(a1, ds, '\n');
    let a2 = a1 + ds + tab;
    lemma_free_of_concat(a1 + ds, tab, '\n');
    lemma_free_of_concat(a2, di, '\n');
    let a3 = a2 + di + tab;
    lemma_free_of_concat(a2 + di, tab, '\n');
    lemma_free_of_concat(a3, dc, '\n');
    let a4 = a3 + dc + tab;
    lemma_free_of_concat(a3 + dc, tab, '\n');
    lemma_free_of_concat(a4, df, '\n');
    let a5 = a4 + df + tab;
    lemma_free_of_concat(a4 + df, tab, '\n');
    lemma_free_of_concat(a5, r.0, '\n');
    assert(row_line(r) == a5 + r.0);
    if r.0.len() == 0 {
        assert(row_line(r).last() == '\t');
    } else {
        assert(row_line(r).last() == r.0.last());
    }
}

proof fn lemma_decimal_no_tab(n: nat)
    ensures
        free_of(decimal(n), '\t'),
        decimal(n).len() >= 1,
        is_digit(decimal(n)[0]),
{
    lemma_decimal(n);
    assert forall|j: int| 0 <= j < decimal(n).len() implies decimal(n)[j] != '\t' by {
        assert(is_digit(decimal(n)[j]));
    }
}

/// The five tab-separated fields of a line, cut back apart.
proof fn lemma_cut_fields(
    dm: Seq<char>,
    ds: Seq<char>,
    di: Seq<char>,
    dc: Seq<char>,
    df: Seq<char>,
    p: Seq<char>,
)
    requires
        free_of(dm, '\t'),
        free_of(ds, '\t'),
        free_of(di, '\t'),
        free_of(dc, '\t'),
        free_of(df, '\t'),
    ensures
        ({
            let tab = seq!['\t'];
            let r4 = df + tab + p;
            let r3 = dc + tab + r4;
            let r2 = di + tab + r3;
            let r1 = ds + tab + r2;
            &&& split_once(dm + tab + r1, '\t') == Some((dm, r1))
            &&& split_once(r1, '\t') == Some((ds, r2))
            &&& split_once(r2, '\t') == Some((di, r3))
            &&& split_once(r3, '\t') == Some((dc, r4))
            &&& split_once(r4, '\t') == Some((df, p))
        }),
{
    let tab = seq!['\t'];
    let r4 = df + tab + p;
    let r3 = dc + tab + r4;
    let r2 = di + tab + r3;
    let r1 = ds + tab + r2;
    lemma_split_once_join(dm, '\t', r1);
    lemma_split_once_join(ds, '\t', r2);
    lemma_split_once_join(di, '\t', r3);
    lemma_split_once_join(dc, '\t', r4);
    lemma_split_once_join(df, '\t', p);
}

proof fn lemma_numbers_parse(r: InputRow)
    ensures
        row_of_fields(
            decimal(r.1.mtime_ns as nat),
            decimal(r.1.size as nat),
            decimal(r.1.inode as nat),
            decimal(r.1.ctime_ns as nat),
            decimal(r.2 as nat),
            r.0,
        ) == Some(r),
{
    lemma_parse_decimal(r.1.mtime_ns as nat, u128::MAX as nat);
    lemma_parse_decimal(r.1.size as nat, u64::MAX as nat);
    lemma_parse_decimal(r.1.inode as nat, u64::MAX as nat);
    lemma_parse_decimal(r.1.ctime_ns as nat, u128::MAX as nat);
    lemma_parse_decimal(r.2 as nat, u64::MAX as nat);
    let k = InputKey {
        mtime_ns: (r.1.mtime_ns as nat) as u128,
        size: (r.1.size as nat) as u64,
        inode: (r.1.inode as nat) as u64,
        ctime_ns: (r.1.ctime_ns as nat) as u128,
    };
    assert(k == r.1);
}

#[verifier::spinoff_prover]
#[verifier::rlimit(100)]
proof fn lemma_fields_parse(r: InputRow)
    ensures
        fields_of(row_line(r)) == Some(r),
{
    let dm = decimal(r.1.mtime_ns as nat);
    let ds = decimal(r.1.size as nat);
    let di = decimal(r.1.inode as nat);
    let dc = decimal(r.1.ctime_ns as nat);
    let df = decimal(r.2 as nat);
    lemma_decimal_no_tab(r.1.mtime_ns as nat);
    lemma_decimal_no_tab(r.1.size as nat);
    lemma_decimal_no_tab(r.1.inode as nat);
    lemma_decimal_no_tab(r.1.ctime_ns as nat);
    lemma_decimal_no_tab(r.2 as nat);
    let tab = seq!['\t'];
    assert("\t"@ == tab) by {
        reveal_strlit("\t");
    }
    let r4 = df + tab + r.0;
    let r3 = dc + tab + r4;
    let r2 = di + tab + r3;
    let r1 = ds + tab + r2;
    assert(row_line(r) =~= dm + tab + r1);
    lemma_cut_fields(dm, ds, di, dc, df, r.0);
    lemma_numbers_parse(r);
}

proof fn lemma_row_line_parses(r: InputRow)
    ensures
        parse_row(row_line(r)) == Some(r),
{
    let dm = decimal(r.1.mtime_ns as nat);
    lemma_decimal_no_tab(r.1.mtime_ns as nat);
    assert(row_line(r)[0] == dm[0]);
    assert(!blank(row_line(r)));
    lemma_fields_parse(r);
}

proof fn lemma_row_line_plain(r: InputRow)
    requires
        fits_on_a_line(r.0),
    ensures
        forall|j: int| 0 <= j < row_line(r).len() ==> row_line(r)[j] != '\n',
        row_line(r).len() > 0,
        row_line(r).last() != '\r',
        parse_row(row_line(r)) == Some(r),
{
    lemma_row_line_one_line(r);
    lemma_row_line_parses(r);
}

proof fn lemma_split_encoding(s: Seq<InputRow>)
    requires
        forall|i: int| 0 <= i < s.len() ==> fits_on_a_line(#[trigger] s[i].0),
    ensures
        split_on(encode_rows(s), '\n') == seq![header()] + s.map_values(|r: InputRow| row_line(r))
            + seq![Seq::<char>::empty()],
    decreases s.len(),
{
    let nl = seq!['\n'];
    assert("\n"@ == nl) by {
        reveal_strlit("\n");
    }
    if s.len() == 0 {
        assert forall|j: int| 0 <= j < header().len() implies header()[j] != '\n' by {
            reveal_strlit("# dowel input records");
        }
        lemma_split_on_extend(Seq::empty(), header(), '\n');
        assert(Seq::<char>::empty() + header() =~= header());
        assert(split_on(Seq::<char>::empty(), '\n') == seq![Seq::<char>::empty()]);
        assert(split_on(header(), '\n') =~= seq![header()]);
        lemma_split_on_push_sep(header(), '\n');
        assert(header() + "\n"@ =~= header().push('\n'));
        assert(s.map_values(|r: InputRow| row_line(r)) =~= Seq::<Seq<char>>::empty());
        assert(split_on(encode_rows(s), '\n') =~= seq![header()] + s.map_values(
            |r: InputRow| row_line(r),
        ) + seq![Seq::<char>::empty()]);
    } else {
        let t = s.drop_last();
        let l = row_line(s.last());
        lemma_split_encoding(t);
        lemma_row_line_plain(s.last());
        let x = encode_rows(t);
        lemma_split_on_extend(x, l, '\n');
        lemma_split_on_push_sep(x + l, '\n');
        assert(encode_rows(s) =~= (x + l).push('\n'));
        assert(s.map_values(|r: InputRow| row_line(r)) =~= t.map_values(|r: InputRow| row_line(r)).push(l));
        assert(split_on(encode_rows(s), '\n') =~= seq![header()] + s.map_values(
            |r: InputRow| row_line(r),
        ) + seq![Seq::<char>::empty()]);
    }
}

proof fn lemma_decode_rows(s: Seq<InputRow>)
    requires
        forall|i: int| 0 <= i < s.len() ==> fits_on_a_line(#[trigger] s[i].0),
    ensures
        decode_lines(seq![header()] + s.map_values(|r: InputRow| row_line(r))) == rows_map(s),
    decreases s.len(),
{
    let ls = seq![header()] + s.map_values(|r: InputRow| row_line(r));
    if s.len() == 0 {
        reveal_strlit("# dowel input records");
        assert(ls =~= seq![header()]);
        assert(ls.drop_last() =~= Seq::<Seq<char>>::empty());
        assert(header().len() > 0 && header()[0] == '#');
        assert(parse_row(header()) is None);
        assert(decode_lines(ls) == decode_lines(ls.drop_last()));
        assert(decode_lines(ls) =~= rows_map(s));
    } else {
        let t = s.drop_last();
        lemma_decode_rows(t);
        lemma_row_line_plain(s.last());
        assert(ls.len() > 0);
        assert(ls.drop_last() =~= seq![header()] + t.map_values(|r: InputRow| row_line(r)));
        assert(ls.last() == row_line(s.last()));
        assert(decode_lines(ls) == decode_lines(ls.drop_last()).insert(
            s.last().0,
            (s.last().1, s.last().2),
        ));
    }
}

/// Reading back what was written gives the same records, for every path
/// that fits on a line.
pub proof fn law_decoding_inverts_encoding(s: Seq<InputRow>)
    requires
        forall|i: int| 0 <= i < s.len() ==> fits_on_a_line(#[trigger] s[i].0),
    ensures
        decoded(encode_rows(s)) == rows_map(s),
{
    let text = encode_rows(s);
    lemma_split_encoding(s);
    let parts = split_on(text, '\n');
    let body = seq![header()] + s.map_values(|r: InputRow| row_line(r));
    assert(text.len() > 0 && text.last() == '\n') by {
        reveal_strlit("\n");
        if s.len() == 0 {
            assert(text == header() + "\n"@);
        } else {
            assert(text == encode_rows(s.drop_last()) + row_line(s.last()) + "\n"@);
        }
    }
    assert(lines_of(text) =~= body) by {
        assert forall|i: int| 0 <= i < body.len() implies strip_cr(parts[i]) == body[i] by {
            assert(parts[i] == body[i]);
            if i == 0 {
                reveal_strlit("# dowel input records");
            } else {
                lemma_row_line_plain(s[i - 1]);
            }
        }
    }
    lemma_decode_rows(s);
}

} // verus!
