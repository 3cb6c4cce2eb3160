//! An evaluated manifest file: its tables, in the order they were written,
//! each with its entries, and the configuration keys the file refers to.

use vstd::prelude::*;
use crate::text::str_eq;
use crate::value::{CfgKey, FileId, Site, Span, Value};

verus! {

/// A configuration key referred to in a file, and where. Checking feature
/// names needs these: whether a feature is declared is decided by the
/// package's manifest, which is not at hand while one file is evaluated.
#[derive(Debug)]
pub struct CfgRef {
    pub key: CfgKey,
    pub site: Site,
}

/// One evaluated manifest file.
#[derive(Debug)]
pub struct Document {
    pub file: FileId,
    pub cfg_refs: Vec<CfgRef>,
    pub tables: Vec<Table>,
}

/// A table: `[lib.foo.public]` has the path `["lib", "foo", "public"]`.
#[derive(Debug)]
pub struct Table {
    pub path: Vec<String>,
    /// Where each segment of the path was written.
    pub path_spans: Vec<Span>,
    /// Whether it was written as `[[..]]`.
    pub array: bool,
    pub site: Site,
    pub entries: Vec<Entry>,
}

/// One `key = value` of a table. A dotted key is kept as its segments.
#[derive(Debug)]
pub struct Entry {
    pub key: Vec<String>,
    /// Where each segment of the key was written.
    pub key_spans: Vec<Span>,
    pub site: Site,
    pub value: Value,
}

/// The characters of each string of a list.
pub open spec fn strings_view(v: Seq<String>) -> Seq<Seq<char>> {
    v.map_values(|s: String| s@)
}

/// The characters of each string slice of a list.
pub open spec fn strs_view(v: Seq<&str>) -> Seq<Seq<char>> {
    v.map_values(|s: &str| s@)
}

/// Whether `path` starts with `prefix`.
pub open spec fn starts_with_path(path: Seq<Seq<char>>, prefix: Seq<Seq<char>>) -> bool {
    prefix.len() <= path.len() && path.take(prefix.len() as int) == prefix
}

/// The tables of `s` whose path starts with `prefix`, in order.
pub open spec fn tables_with_prefix(s: Seq<Table>, prefix: Seq<Seq<char>>) -> Seq<Table>
    decreases s.len(),
{
    if s.len() == 0 {
        Seq::empty()
    } else if starts_with_path(strings_view(s.last().path@), prefix) {
        tables_with_prefix(s.drop_last(), prefix).push(s.last())
    } else {
        tables_with_prefix(s.drop_last(), prefix)
    }
}

/// Whether the first `n` segments of two paths agree.
fn same_segments(path: &[String], other: &[&str], n: usize) -> (r: bool)
    requires
        n <= path@.len(),
        n <= other@.len(),
    ensures
        r == (strings_view(path@).take(n as int) == strs_view(other@).take(n as int)),
{
    let mut i: usize = 0;
    while i < n
        invariant
            i <= n,
            n <= path@.len(),
            n <= other@.len(),
            strings_view(path@).take(i as int) == strs_view(other@).take(i as int),
        decreases n - i,
    {
        if !str_eq(path[i].as_str(), other[i]) {
            assert(strings_view(path@).take(n as int)[i as int] != strs_view(other@).take(
                n as int,
            )[i as int]);
            return false;
        }
        assert(strings_view(path@).take(i + 1) =~= strs_view(other@).take(i + 1));
        i += 1;
    }
    true
}

impl Document {
    /// The tables whose path starts with `prefix`, in order.
    pub fn tables_under(&self, prefix: &[&str]) -> (r: Vec<&Table>)
        ensures
            r@.map_values(|t: &Table| *t) == tables_with_prefix(self.tables@, strs_view(prefix@)),
    {
        let ghost pv = strs_view(prefix@);
        let mut out: Vec<&Table> = Vec::new();
        let mut i: usize = 0;
        while i < self.tables.len()
            invariant
                i <= self.tables@.len(),
                pv == strs_view(prefix@),
                out@.map_values(|t: &Table| *t) == tables_with_prefix(self.tables@.take(i as int), pv),
            decreases self.tables.len() - i,
        {
            let t = &self.tables[i];
            let fits = t.path.len() >= prefix.len() && same_segments(
                t.path.as_slice(),
                prefix,
                prefix.len(),
            );
            proof {
                assert(self.tables@.take(i + 1).drop_last() =~= self.tables@.take(i as int));
                if t.path@.len() >= prefix@.len() {
                    assert(strs_view(prefix@).take(prefix@.len() as int) =~= strs_view(prefix@));
                }
            }
            let ghost before = out@;
            if fits {
                out.push(t);
                assert(out@.map_values(|t: &Table| *t) =~= before.map_values(|t: &Table| *t).push(*t));
            }
            i += 1;
        }
        assert(self.tables@.take(i as int) =~= self.tables@);
        out
    }

    /// The table with exactly this path, the first if several have it.
    pub fn table(&self, path: &[&str]) -> (r: Option<&Table>)
        ensures
            match r {
                Some(t) => exists|j: int|
                    0 <= j < self.tables@.len() && self.tables@[j] == *t && strings_view(
                        t.path@,
                    ) == strs_view(path@) && forall|m: int|
                        0 <= m < j ==> strings_view(#[trigger] self.tables@[m].path@) != strs_view(
                            path@,
                        ),
                None => forall|j: int|
                    0 <= j < self.tables@.len() ==> strings_view(#[trigger] self.tables@[j].path@)
                        != strs_view(path@),
            },
    {
        let mut i: usize = 0;
        while i < self.tables.len()
            invariant
                i <= self.tables@.len(),
                forall|m: int|
                    0 <= m < i ==> strings_view(#[trigger] self.tables@[m].path@) != strs_view(
                        path@,
                    ),
            decreases self.tables.len() - i,
        {
            let t = &self.tables[i];
            if t.path.len() == path.len() && same_segments(t.path.as_slice(), path, path.len()) {
                assert(strings_view(t.path@) =~= strings_view(t.path@).take(path@.len() as int));
                assert(strs_view(path@) =~= strs_view(path@).take(path@.len() as int));
                return Some(t);
            }
            proof {
                if t.path@.len() == path@.len() {
                    assert(strings_view(t.path@) =~= strings_view(t.path@).take(path@.len() as int));
                    assert(strs_view(path@) =~= strs_view(path@).take(path@.len() as int));
                }
            }
            i += 1;
        }
        None
    }
}

impl Table {
    /// The entry whose key is the single segment `key`, the first if
    /// several have it.
    pub fn entry(&self, key: &str) -> (r: Option<&Entry>)
        ensures
            match r {
                Some(e) => exists|j: int|
                    0 <= j < self.entries@.len() && self.entries@[j] == *e && strings_view(
                        e.key@,
                    ) == seq![key@] && forall|m: int|
                        0 <= m < j ==> strings_view(#[trigger] self.entries@[m].key@) != seq![key@],
                None => forall|j: int|
                    0 <= j < self.entries@.len() ==> strings_view(
                        #[trigger] self.entries@[j].key@,
                    ) != seq![key@],
            },
    {
        let mut i: usize = 0;
        while i < self.entries.len()
            invariant
                i <= self.entries@.len(),
                forall|m: int|
                    0 <= m < i ==> strings_view(#[trigger] self.entries@[m].key@) != seq![key@],
            decreases self.entries.len() - i,
        {
            let e = &self.entries[i];
            if e.key.len() == 1 && str_eq(e.key[0].as_str(), key) {
                assert(strings_view(e.key@) =~= seq![key@]);
                return Some(e);
            }
            proof {
                assert(strings_view(e.key@).len() == e.key@.len());
                if e.key@.len() == 1 {
                    assert(strings_view(e.key@)[0] == e.key@[0]@);
                    assert(seq![key@][0] == key@);
                }
            }
            i += 1;
        }
        None
    }
}

} // verus!
