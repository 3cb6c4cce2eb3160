//! Reusing evaluation results across processes.
//!
//! Only evaluated documents are stored. A stored document is restored only
//! when the text it was evaluated from is the same as now: its record's
//! fingerprint is that of the text. A fingerprint is a 64-bit hash, and so
//! is the key; the document carries its own file identity, and is not used
//! when that differs from the file asked for. Reading the store's files and
//! writing them stand around this module.

use vstd::prelude::*;
use crate::codec::{decode_document, document_bytes, document_fits, encode_document, u64_bytes, W};
use crate::document::Document;
use crate::model::Saved;
use crate::store::{record_for, sorted_by_key, Record, Store};
use crate::text::owned;
use crate::value::FileId;
use std::collections::hash_map::DefaultHasher;
use std::hash::Hasher;
use vstd::std_specs::hash::DefaultHasherAdditionalSpecFns;

verus! {

/// The name of the file under the store's directory that records inputs.
pub const INPUTS: &'static str = "inputs";

/// The prefix of the keys of evaluated documents; other things stored for
/// the same file would have keys of their own.
pub const KIND_EVALUATED: u64 = 1;

/// The longest value the value log takes: a record's length is a `u32`.
pub const MAX_VALUE: usize = 0xffff_ffff;

/// The store of evaluation results.
pub struct Cache {
    /// The project root; empty when there is no store.
    root: String,
    /// What was read of the store; it does not change during the run.
    store: Store,
    /// The values computed this run, to be written at its end: key,
    /// fingerprint and bytes.
    pending: Vec<(u64, u64, Vec<u8>)>,
    restored: usize,
    skipped_diagnostics: usize,
}

/// A value waiting to be written, as plain values.
pub open spec fn pending_view(p: Seq<(u64, u64, Vec<u8>)>) -> Seq<(u64, u64, Seq<u8>)> {
    p.map_values(|e: (u64, u64, Vec<u8>)| (e.0, e.1, e.2@))
}

/// The record to restore for a key, when its fingerprint is `fingerprint`.
pub open spec fn restorable(records: Seq<Record>, key: u64, fingerprint: u64) -> Option<Record> {
    match record_for(records, key) {
        Some(r) => if r.fingerprint == fingerprint {
            Some(r)
        } else {
            None
        },
        None => None,
    }
}

/// The key under which the evaluation of a file is stored: std's default
/// hasher over the kind, then the file's identity, each as eight
/// little-endian bytes.
pub fn key_of(file: FileId) -> (r: u64)
    ensures
        r == DefaultHasher::spec_finish(seq![u64_bytes(KIND_EVALUATED) + u64_bytes(file.0)]),
{
    let mut w = W(Vec::new());
    w.u64(KIND_EVALUATED);
    w.u64(file.0);
    assert(w.0@ =~= u64_bytes(KIND_EVALUATED) + u64_bytes(file.0));
    let mut h = DefaultHasher::new();
    h.write(w.0.as_slice());
    assert(h@ =~= seq![u64_bytes(KIND_EVALUATED) + u64_bytes(file.0)]);
    h.finish()
}

/// Different files give the hasher different bytes for their keys.
pub proof fn law_key_bytes_differ_between_files(a: FileId, b: FileId)
    requires
        a != b,
    ensures
        u64_bytes(KIND_EVALUATED) + u64_bytes(a.0) != u64_bytes(KIND_EVALUATED) + u64_bytes(b.0),
{
    vstd::bytes::lemma_auto_spec_u64_to_from_le_bytes();
    let x = u64_bytes(KIND_EVALUATED) + u64_bytes(a.0);
    let y = u64_bytes(KIND_EVALUATED) + u64_bytes(b.0);
    assert(x.subrange(8, 16) =~= u64_bytes(a.0));
    assert(y.subrange(8, 16) =~= u64_bytes(b.0));
}

impl Cache {
    pub closed spec fn root_text(&self) -> Seq<char> {
        self.root@
    }

    pub closed spec fn records(&self) -> Seq<Record> {
        self.store@
    }

    pub closed spec fn pending_values(&self) -> Seq<(u64, u64, Seq<u8>)> {
        pending_view(self.pending@)
    }

    pub closed spec fn restored_count(&self) -> nat {
        self.restored as nat
    }

    pub closed spec fn skipped_count(&self) -> nat {
        self.skipped_diagnostics as nat
    }

    /// Whether the records are kept in order of key, as the store reads them.
    pub closed spec fn wf(&self) -> bool {
        sorted_by_key(self.store@)
    }

    /// The store read from under `root`, with nothing restored or pending.
    pub fn open(root: &str, store: Store) -> (c: Cache)
        requires
            sorted_by_key(store@),
        ensures
            c.wf(),
            c.root_text() == root@,
            c.records() == store@,
            c.pending_values().len() == 0,
            c.restored_count() == 0,
            c.skipped_count() == 0,
    {
        let c = Cache {
            root: owned(root),
            store,
            pending: Vec::new(),
            restored: 0,
            skipped_diagnostics: 0,
        };
        assert(c.pending_values() =~= Seq::<(u64, u64, Seq<u8>)>::empty());
        c
    }

    /// A cache without a store: nothing is restored, and nothing is kept
    /// to be written.
    pub fn disabled() -> (c: Cache)
        ensures
            c.wf(),
            c.root_text().len() == 0,
            c.records().len() == 0,
            c.pending_values().len() == 0,
            c.restored_count() == 0,
            c.skipped_count() == 0,
    {
        let store = Store::open("/nonexistent", None, 0);
        proof {
            store@.to_multiset_ensures();
        }
        let c = Cache {
            root: String::new(),
            store,
            pending: Vec::new(),
            restored: 0,
            skipped_diagnostics: 0,
        };
        assert(c.pending_values() =~= Seq::<(u64, u64, Seq<u8>)>::empty());
        c
    }

    /// How many documents were restored this run.
    pub fn restored(&self) -> (r: usize)
        ensures
            r == self.restored_count(),
    {
        self.restored
    }

    /// The values to write at the end of the run, in the order they were
    /// computed.
    pub fn pending(&self) -> (r: &[(u64, u64, Vec<u8>)])
        ensures
            pending_view(r@) == self.pending_values(),
    {
        self.pending.as_slice()
    }

    /// The project root, empty when there is no store.
    pub fn root(&self) -> (r: &str)
        ensures
            r@ == self.root_text(),
    {
        self.root.as_str()
    }

    /// The record to read for `key`, when the text it was stored for has the
    /// fingerprint `fingerprint`.
    pub fn lookup(&self, key: u64, fingerprint: u64) -> (r: Option<Record>)
        requires
            self.wf(),
        ensures
            r matches Some(x) ==> self.records().contains(x) && x.key == key && x.fingerprint
                == fingerprint,
            crate::store::strictly_sorted(self.records()) ==> r == restorable(
                self.records(),
                key,
                fingerprint,
            ),
    {
        match self.store.get(key) {
            Some(r) => if r.fingerprint == fingerprint {
                Some(r)
            } else {
                None
            },
            None => None,
        }
    }

    /// Restores a document from the bytes of its stored value. `None` when
    /// they are not a document, or are one for another file.
    pub fn restore(&mut self, file: FileId, bytes: &[u8]) -> (r: Option<Document>)
        requires
            old(self).restored_count() < usize::MAX,
        ensures
            final(self).root_text() == old(self).root_text(),
            final(self).records() == old(self).records(),
            final(self).pending_values() == old(self).pending_values(),
            final(self).skipped_count() == old(self).skipped_count(),
            final(self).wf() == old(self).wf(),
            match r {
                Some(d) => d.file == file && final(self).restored_count() == old(
                    self,
                ).restored_count() + 1,
                None => final(self).restored_count() == old(self).restored_count(),
            },
            forall|d: Document|
                document_fits(d) && d.file == file && bytes@ == #[trigger] document_bytes(d) ==> r
                    is Some && document_bytes(r->0) == bytes@,
            r matches Some(d) ==> document_bytes(d) == bytes@,
    {
        let doc = match decode_document(bytes) {
            Some(d) => d,
            None => {
                return None;
            },
        };
        if doc.file != file {
            proof {
                assert forall|d: Document|
                    document_fits(d) && d.file == file && bytes@ == #[trigger] document_bytes(
                        d,
                    ) implies false by {
                    crate::codec::lemma_document_file(d, doc);
                }
            }
            return None;
        }
        self.restored = self.restored + 1;
        Some(doc)
    }

    /// Keeps a document to be written at the end of the run, unless there
    /// is no store, the store already holds it for the same text, or its
    /// bytes are too long for a record.
    pub fn put(&mut self, key: u64, fingerprint: u64, doc: &Document)
        requires
            old(self).wf(),
        ensures
            final(self).wf(),
            final(self).root_text() == old(self).root_text(),
            final(self).records() == old(self).records(),
            final(self).restored_count() == old(self).restored_count(),
            final(self).skipped_count() == old(self).skipped_count(),
            final(self).pending_values() == old(self).pending_values() || (
            final(self).pending_values() == old(self).pending_values().push(
                (key, fingerprint, document_bytes(*doc)),
            ) && old(self).root_text().len() != 0 && document_bytes(*doc).len() <= MAX_VALUE),
            old(self).root_text().len() == 0 ==> final(self).pending_values() == old(
                self,
            ).pending_values(),
            crate::store::strictly_sorted(old(self).records()) ==> (final(self).pending_values()
                == (if old(self).root_text().len() == 0 || restorable(
                old(self).records(),
                key,
                fingerprint,
            ) is Some || document_bytes(*doc).len() > MAX_VALUE {
                old(self).pending_values()
            } else {
                old(self).pending_values().push((key, fingerprint, document_bytes(*doc)))
            })),
    {
        if self.root.as_str().is_empty() {
            return;
        }
        // A record for the same text is already there: the value log is
        // only appended to, and writing the same value again would grow it.
        if self.lookup(key, fingerprint).is_some() {
            return;
        }
        let bytes = encode_document(doc);
        if bytes.len() > MAX_VALUE {
            return;
        }
        let ghost before = self.pending@;
        self.pending.push((key, fingerprint, bytes));
        assert(pending_view(self.pending@) =~= pending_view(before).push(
            (key, fingerprint, document_bytes(*doc)),
        ));
    }

    /// Counts a document that was not stored because it has diagnostics.
    pub fn skipped(&mut self)
        requires
            old(self).skipped_count() < usize::MAX,
        ensures
            final(self).skipped_count() == old(self).skipped_count() + 1,
            final(self).root_text() == old(self).root_text(),
            final(self).records() == old(self).records(),
            final(self).pending_values() == old(self).pending_values(),
            final(self).restored_count() == old(self).restored_count(),
            final(self).wf() == old(self).wf(),
    {
        self.skipped_diagnostics = self.skipped_diagnostics + 1;
    }

    /// What a run saved: `written` values, and the counts kept in the run.
    pub fn saved(&self, written: usize) -> (r: Saved)
        ensures
            r.written == written,
            r.restored == self.restored_count(),
            r.skipped_diagnostics == self.skipped_count(),
    {
        Saved { written, restored: self.restored, skipped_diagnostics: self.skipped_diagnostics }
    }
}

} // verus!
