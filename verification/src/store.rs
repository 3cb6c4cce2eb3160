//! The store that keeps memos across processes.
//!
//! There is no resident daemon, so the memo graph cannot stay in memory
//! between runs; a store on disk stands in for it:
//!
//! ```text
//! .dowel/cache/v1/
//!   lock      limits the store to a single writer
//!   values    an append-only log of values
//!   index     fixed-size records: key hash, fingerprint, position in the log
//! ```
//!
//! The index is made of fixed-size records, so reading it takes no parsing,
//! and values are read only when needed. The store must survive a crash at
//! any moment: the value log is only appended to, the index is replaced by a
//! rename, and on reading a record that points past the end of the value log
//! is dropped. This module holds what is decided; the files are read and
//! written around it.

use vstd::prelude::*;
use vstd::multiset::Multiset;
use vstd::bytes::{
    lemma_auto_spec_u32_to_from_le_bytes, lemma_auto_spec_u64_to_from_le_bytes,
    spec_u32_from_le_bytes, spec_u32_to_le_bytes, spec_u64_from_le_bytes, spec_u64_to_le_bytes,
    u32_from_le_bytes, u32_to_le_bytes, u64_from_le_bytes, u64_to_le_bytes,
};
use std::collections::hash_map::DefaultHasher;
use std::hash::Hasher;
use vstd::std_specs::hash::DefaultHasherAdditionalSpecFns;
use crate::paths::{join, path_join};

verus! {

/// The version of the store's format. Each version has a directory of its
/// own: treating an old store as absent is safer than misreading it.
pub const FORMAT: &'static str = "v1";

/// The size of one index record: 8 + 8 + 8 + 4 + 1, and 3 bytes of padding.
pub const RECORD_SIZE: usize = 32;

/// One record of the index, of fixed size. It holds only what deciding
/// needs, so that values need not be read.
#[derive(Clone, Copy, PartialEq, Eq, Structural, Debug)]
pub struct Record {
    /// The hash of the query key.
    pub key: u64,
    /// What stands for the content of the value.
    pub fingerprint: u64,
    /// The position of the value in the value log.
    pub offset: u64,
    /// The length of the value.
    pub len: u32,
    /// How rarely the inputs change; 0 changes most often.
    pub durability: u8,
}

/// The bytes of a record in the index.
pub open spec fn record_bytes(r: Record) -> Seq<u8> {
    spec_u64_to_le_bytes(r.key) + spec_u64_to_le_bytes(r.fingerprint) + spec_u64_to_le_bytes(
        r.offset,
    ) + spec_u32_to_le_bytes(r.len) + seq![r.durability, 0u8, 0u8, 0u8]
}

/// The record that the bytes at the start of `b` hold.
pub open spec fn record_at(b: Seq<u8>) -> Record {
    Record {
        key: spec_u64_from_le_bytes(b.subrange(0, 8)),
        fingerprint: spec_u64_from_le_bytes(b.subrange(8, 16)),
        offset: spec_u64_from_le_bytes(b.subrange(16, 24)),
        len: spec_u32_from_le_bytes(b.subrange(24, 28)),
        durability: b[28],
    }
}

impl Record {
    /// Appends the record's bytes.
    pub fn write_to(&self, out: &mut Vec<u8>)
        ensures
            final(out)@ == old(out)@ + record_bytes(*self),
    {
        let ghost start = out@;
        let mut key = u64_to_le_bytes(self.key);
        let mut fp = u64_to_le_bytes(self.fingerprint);
        let mut offset = u64_to_le_bytes(self.offset);
        let mut len = u32_to_le_bytes(self.len);
        out.append(&mut key);
        out.append(&mut fp);
        out.append(&mut offset);
        out.append(&mut len);
        out.push(self.durability);
        out.push(0u8);
        out.push(0u8);
        out.push(0u8);
        assert(out@ =~= start + record_bytes(*self));
    }

    /// Reads the record at the start of `bytes`.
    pub fn read_from(bytes: &[u8]) -> (r: Record)
        requires
            bytes@.len() >= 29,
        ensures
            r == record_at(bytes@),
    {
        let key = u64_from_le_bytes(vstd::slice::slice_subrange(bytes, 0, 8));
        let fingerprint = u64_from_le_bytes(vstd::slice::slice_subrange(bytes, 8, 16));
        let offset = u64_from_le_bytes(vstd::slice::slice_subrange(bytes, 16, 24));
        let len = u32_from_le_bytes(vstd::slice::slice_subrange(bytes, 24, 28));
        Record { key, fingerprint, offset, len, durability: bytes[28] }
    }
}

/// A record reads back as it was written, from exactly one record's worth
/// of bytes.
pub proof fn law_a_record_reads_back(r: Record)
    ensures
        record_bytes(r).len() == RECORD_SIZE,
        record_at(record_bytes(r)) == r,
{
    lemma_auto_spec_u64_to_from_le_bytes();
    lemma_auto_spec_u32_to_from_le_bytes();
    let b = record_bytes(r);
    assert(b.subrange(0, 8) =~= spec_u64_to_le_bytes(r.key));
    assert(b.subrange(8, 16) =~= spec_u64_to_le_bytes(r.fingerprint));
    assert(b.subrange(16, 24) =~= spec_u64_to_le_bytes(r.offset));
    assert(b.subrange(24, 28) =~= spec_u32_to_le_bytes(r.len));
}

/// The records that an index holds: one per full record's worth of bytes,
/// in order. A tail shorter than a record is ignored.
pub open spec fn index_records(b: Seq<u8>) -> Seq<Record> {
    Seq::new(
        (b.len() / 32) as nat,
        |i: int| record_at(b.subrange(32 * i, 32 * i + 32)),
    )
}

/// Whether a record points inside a value log of `values_len` bytes. The
/// end is computed saturating, as the index is read.
pub open spec fn points_inside(r: Record, values_len: u64) -> bool {
    let end = r.offset + r.len;
    (if end > u64::MAX {
        u64::MAX as int
    } else {
        end
    }) <= values_len
}

/// The records of an index that point inside the value log, in index order.
pub open spec fn usable(b: Seq<u8>, values_len: u64) -> Seq<Record> {
    index_records(b).filter(|r: Record| points_inside(r, values_len))
}

pub open spec fn sorted_by_key(s: Seq<Record>) -> bool {
    forall|i: int, j: int| 0 <= i < j < s.len() ==> s[i].key <= s[j].key
}

/// `r` put into `s` after every record whose key is not greater.
pub open spec fn insert_stably(s: Seq<Record>, r: Record) -> Seq<Record>
    decreases s.len(),
{
    if s.len() == 0 {
        seq![r]
    } else if s.last().key <= r.key {
        s.push(r)
    } else {
        insert_stably(s.drop_last(), r).push(s.last())
    }
}

/// The records sorted by key, those with equal keys in the order given.
pub open spec fn sort_stably(s: Seq<Record>) -> Seq<Record>
    decreases s.len(),
{
    if s.len() == 0 {
        Seq::empty()
    } else {
        insert_stably(sort_stably(s.drop_last()), s.last())
    }
}

/// Inserting at the first position whose key is greater is stable
/// insertion.
proof fn lemma_insert_stably(s: Seq<Record>, r: Record, q: int)
    requires
        sorted_by_key(s),
        0 <= q <= s.len(),
        forall|j: int| 0 <= j < q ==> s[j].key <= r.key,
        forall|j: int| q <= j < s.len() ==> s[j].key > r.key,
    ensures
        s.insert(q, r) == insert_stably(s, r),
    decreases s.len(),
{
    if s.len() == 0 {
        assert(s.insert(q, r) =~= seq![r]);
    } else if s.last().key <= r.key {
        assert(q == s.len());
        assert(s.insert(q, r) =~= s.push(r));
    } else {
        let d = s.drop_last();
        assert(q < s.len());
        lemma_insert_stably(d, r, q);
        assert(s.insert(q, r) =~= d.insert(q, r).push(s.last()));
    }
}

/// The store, read only.
pub struct Store {
    dir: String,
    records: Vec<Record>,
    values_len: u64,
}

/// Whether the keys strictly increase, so that each key has one record.
pub open spec fn strictly_sorted(s: Seq<Record>) -> bool {
    forall|i: int, j: int| 0 <= i < j < s.len() ==> s[i].key < s[j].key
}

/// The record for `key`, when there is one.
pub open spec fn record_for(s: Seq<Record>, key: u64) -> Option<Record> {
    if exists|i: int| 0 <= i < s.len() && s[i].key == key {
        Some(s[choose|i: int| 0 <= i < s.len() && s[i].key == key])
    } else {
        None
    }
}

proof fn lemma_record_for_at(s: Seq<Record>, i: int)
    requires
        strictly_sorted(s),
        0 <= i < s.len(),
    ensures
        record_for(s, s[i].key) == Some(s[i]),
{
    let j = choose|j: int| 0 <= j < s.len() && s[j].key == s[i].key;
    assert(0 <= j < s.len() && s[j].key == s[i].key);
    if j < i {
        assert(s[j].key < s[i].key);
    }
    if i < j {
        assert(s[i].key < s[j].key);
    }
}

/// The directory of the store under the project root `root`.
pub open spec fn store_dir(root: Seq<char>) -> Seq<char> {
    path_join(path_join(path_join(root, ".dowel"@), "cache"@), "v1"@)
}

/// The first position whose key is `key` or above, in a sorted sequence.
fn lower_bound(records: &[Record], key: u64) -> (p: usize)
    requires
        sorted_by_key(records@),
    ensures
        p <= records@.len(),
        forall|j: int| 0 <= j < p ==> records@[j].key < key,
        forall|j: int| p <= j < records@.len() ==> records@[j].key >= key,
{
    let mut lo: usize = 0;
    let mut hi: usize = records.len();
    while lo < hi
        invariant
            sorted_by_key(records@),
            lo <= hi <= records@.len(),
            forall|j: int| 0 <= j < lo ==> records@[j].key < key,
            forall|j: int| hi <= j < records@.len() ==> records@[j].key >= key,
        decreases hi - lo,
    {
        let mid = lo + (hi - lo) / 2;
        if records[mid].key < key {
            lo = mid + 1;
        } else {
            hi = mid;
        }
    }
    lo
}

/// The record for `key` in a sequence sorted by key.
pub fn find_record(records: &[Record], key: u64) -> (r: Option<Record>)
    requires
        sorted_by_key(records@),
    ensures
        match r {
            Some(x) => records@.contains(x) && x.key == key,
            None => forall|j: int| 0 <= j < records@.len() ==> records@[j].key != key,
        },
        strictly_sorted(records@) ==> r == record_for(records@, key),
{
    let p = lower_bound(records, key);
    if p < records.len() && records[p].key == key {
        proof {
            if strictly_sorted(records@) {
                lemma_record_for_at(records@, p as int);
            }
        }
        Some(records[p])
    } else {
        None
    }
}

/// Whether the keys of `records` strictly increase: the order a writer
/// needs to keep each key to one record.
pub fn keys_increase(records: &[Record]) -> (r: bool)
    ensures
        r == strictly_sorted(records@),
{
    let n = records.len();
    if n < 2 {
        return true;
    }
    let mut i: usize = 1;
    while i < n
        invariant
            1 <= i <= n,
            n == records@.len(),
            forall|a: int, b: int| 0 <= a < b < i ==> records@[a].key < records@[b].key,
        decreases n - i,
    {
        if records[i - 1].key >= records[i].key {
            assert(!strictly_sorted(records@)) by {
                let a = i - 1;
                assert(records@[a as int].key >= records@[i as int].key);
            }
            return false;
        }
        proof {
            assert forall|a: int, b: int| 0 <= a < b < i + 1 implies records@[a].key < records@[b].key by {
                if b == i as int && a < i - 1 {
                    assert(records@[a].key < records@[i - 1].key);
                }
            }
        }
        i += 1;
    }
    true
}

/// Puts `record` in place of the record with its key, or inserts it where
/// its key belongs: what a writer does to the index after appending a value.
pub fn place(records: &mut Vec<Record>, record: Record)
    requires
        strictly_sorted(old(records)@),
    ensures
        strictly_sorted(final(records)@),
        forall|key: u64|
            #[trigger] record_for(final(records)@, key) == if key == record.key {
                Some(record)
            } else {
                record_for(old(records)@, key)
            },
{
    let ghost before = records@;
    let p = lower_bound(records.as_slice(), record.key);
    if p < records.len() && records[p].key == record.key {
        records.set(p, record);
    } else {
        records.insert(p, record);
    }
    let ghost after = records@;
    assert(strictly_sorted(after));
    assert forall|key: u64| #[trigger]
        record_for(after, key) == if key == record.key {
            Some(record)
        } else {
            record_for(before, key)
        } by {
        if key == record.key {
            assert(after[p as int] == record);
            lemma_record_for_at(after, p as int);
        } else {
            if exists|i: int| 0 <= i < before.len() && before[i].key == key {
                let i = choose|i: int| 0 <= i < before.len() && before[i].key == key;
                lemma_record_for_at(before, i);
                let k = if i < p {
                    i
                } else if before.len() == after.len() {
                    i
                } else {
                    i + 1
                };
                assert(after[k] == before[i]);
                lemma_record_for_at(after, k);
            } else {
                assert forall|j: int| 0 <= j < after.len() implies after[j].key != key by {
                    if j != p {
                        let i = if j < p || before.len() == after.len() {
                            j
                        } else {
                            j - 1
                        };
                        assert(after[j] == before[i]);
                    }
                }
            }
        }
    }
}

impl View for Store {
    type V = Seq<Record>;

    closed spec fn view(&self) -> Seq<Record> {
        self.records@
    }
}

impl Store {
    /// The directory that the store was read from.
    pub closed spec fn location(&self) -> Seq<char> {
        self.dir@
    }

    /// The length of the value log when the store was read.
    pub closed spec fn values_end(&self) -> u64 {
        self.values_len
    }

    /// The directory of the store under the project root.
    pub fn dir(root: &str) -> (r: String)
        ensures
            r@ == store_dir(root@),
    {
        let a = join(root, ".dowel");
        let b = join(a.as_str(), "cache");
        join(b.as_str(), FORMAT)
    }

    /// The store under the project root `root`, as found: `index` holds
    /// the bytes of the index when it could be read, and `values_len` is
    /// the length of the value log. A store that cannot be read is empty,
    /// which is no error: the store only saves work. Records that point
    /// past the value log are dropped; the rest are sorted by key, those
    /// with the same key in the order the index holds them.
    pub fn open(root: &str, index: Option<&[u8]>, values_len: u64) -> (s: Store)
        ensures
            s.location() == store_dir(root@),
            s.values_end() == values_len,
            sorted_by_key(s@),
            s@.to_multiset() == match index {
                Some(b) => usable(b@, values_len).to_multiset(),
                None => Multiset::<Record>::empty(),
            },
            s@ == match index {
                Some(b) => sort_stably(usable(b@, values_len)),
                None => Seq::<Record>::empty(),
            },
    {
        let dir = Store::dir(root);
        let mut records: Vec<Record> = Vec::new();
        match index {
            None => {
                proof {
                    broadcast use vstd::seq_lib::group_to_multiset_ensures;
                    broadcast use vstd::multiset::group_multiset_axioms;

                    assert(records@.to_multiset().len() == 0);
                }
            },
            Some(bytes) => {
                let n = bytes.len() / RECORD_SIZE;
                let ghost all = index_records(bytes@);
                let ghost keep = |r: Record| points_inside(r, values_len);
                let mut i: usize = 0;
                proof {
                    broadcast use vstd::seq_lib::group_to_multiset_ensures;
                    broadcast use vstd::multiset::group_multiset_axioms;

                    reveal(Seq::filter);
                    assert(all.take(0).filter(keep) =~= Seq::<Record>::empty());
                    assert(records@.to_multiset().len() == 0);
                    assert(all.take(0).filter(keep).to_multiset().len() == 0);
                }
                while i < n
                    invariant
                        n == bytes@.len() / 32,
                        all == index_records(bytes@),
                        keep == (|r: Record| points_inside(r, values_len)),
                        i <= n,
                        sorted_by_key(records@),
                        records@.to_multiset() == all.take(i as int).filter(keep).to_multiset(),
                        records@ == sort_stably(all.take(i as int).filter(keep)),
                    decreases n - i,
                {
                    let total = bytes.len();
                    assert(i * 32 + 32 <= total) by (nonlinear_arith)
                        requires
                            i < n,
                            n == total / 32,
                    ;
                    let at: usize = i * 32;
                    let chunk = vstd::slice::slice_subrange(bytes, at, at + 32);
                    let r = Record::read_from(chunk);
                    assert(chunk@ =~= bytes@.subrange(32 * i, 32 * i + 32));
                    assert(r == all[i as int]);
                    let end: u64 = if r.offset > u64::MAX - (r.len as u64) {
                        u64::MAX
                    } else {
                        r.offset + r.len as u64
                    };
                    proof {
                        reveal(Seq::filter);
                        assert(all.take(i + 1).drop_last() =~= all.take(i as int));
                        assert(all.take(i + 1).last() == all[i as int]);
                    }
                    if end <= values_len {
                        let ghost before = records@;
                        let p = lower_bound(records.as_slice(), r.key);
                        let mut q = p;
                        while q < records.len() && records[q].key <= r.key
                            invariant
                                p <= q <= records@.len(),
                                records@ == before,
                                sorted_by_key(before),
                                forall|j: int| 0 <= j < q ==> before[j].key <= r.key,
                            decreases records@.len() - q,
                        {
                            q = q + 1;
                        }
                        assert(forall|j: int| q <= j < before.len() ==> before[j].key > r.key);
                        records.insert(q, r);
                        proof {
                            lemma_insert_stably(before, r, q as int);
                            let f = all.take(i + 1).filter(keep);
                            assert(f =~= all.take(i as int).filter(keep).push(r));
                            assert(f.drop_last() =~= all.take(i as int).filter(keep));
                            vstd::seq_lib::to_multiset_insert(before, q as int, r);
                            vstd::seq_lib::to_multiset_build(all.take(i as int).filter(keep), r);
                            assert(sorted_by_key(records@));
                        }
                    }
                    i = i + 1;
                }
                assert(all.take(n as int) =~= all);
            },
        }
        proof {
            if index is None {
                assert(records@ =~= Seq::<Record>::empty());
            }
        }
        Store { dir, records, values_len }
    }

    pub fn len(&self) -> (r: usize)
        ensures
            r == self@.len(),
    {
        self.records.len()
    }

    pub fn is_empty(&self) -> (r: bool)
        ensures
            r == (self@.len() == 0),
    {
        self.records.len() == 0
    }

    /// The records, sorted by key.
    pub fn records(&self) -> (r: &[Record])
        ensures
            r@ == self@,
    {
        self.records.as_slice()
    }

    /// The record for `key`.
    pub fn get(&self, key: u64) -> (r: Option<Record>)
        requires
            sorted_by_key(self@),
        ensures
            match r {
                Some(x) => self@.contains(x) && x.key == key,
                None => forall|j: int| 0 <= j < self@.len() ==> self@[j].key != key,
            },
            strictly_sorted(self@) ==> r == record_for(self@, key),
    {
        find_record(self.records.as_slice(), key)
    }
}

/// The fingerprint of a byte string: std's default hasher over its length,
/// as eight little-endian bytes, and then its bytes. The length is written
/// in one byte order on every machine, so a store moved between machines
/// keeps its fingerprints.
pub fn fingerprint(bytes: &[u8]) -> (r: u64)
    ensures
        r == DefaultHasher::spec_finish(
            seq![spec_u64_to_le_bytes(bytes@.len() as u64), bytes@],
        ),
{
    let mut h = DefaultHasher::new();
    let n = u64_to_le_bytes(bytes.len() as u64);
    h.write(n.as_slice());
    h.write(bytes);
    let r = h.finish();
    assert(h@ =~= seq![spec_u64_to_le_bytes(bytes@.len() as u64), bytes@]);
    r
}

} // verus!
