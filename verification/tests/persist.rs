//! Restoring evaluated documents from the store across runs.

use dowel::codec::encode_document;
use dowel::document::Document;
use dowel::model::Saved;
use dowel::persist::{key_of, Cache};
use dowel::store::{Record, Store};
use dowel::value::FileId;

fn doc(file: FileId) -> Document {
    Document { file, tables: Vec::new(), cfg_refs: Vec::new() }
}

/// A store holding one value under `key`, as the value log and its index
/// read back from disk.
fn store_with(key: u64, fingerprint: u64, value: &[u8]) -> (Store, Vec<u8>) {
    let mut index = Vec::new();
    Record { key, fingerprint, offset: 0, len: value.len() as u32, durability: 0 }.write_to(&mut index);
    (Store::open("proj", Some(&index), value.len() as u64), value.to_vec())
}

/// Writes what a run kept, and opens the cache of the next run on it.
fn next_run(cache: &Cache) -> (Cache, Vec<u8>) {
    assert_eq!(cache.pending().len(), 1);
    let (key, fingerprint, bytes) = &cache.pending()[0];
    let (store, values) = store_with(*key, *fingerprint, bytes);
    (Cache::open("proj", store), values)
}

fn read(cache: &mut Cache, file: FileId, fingerprint: u64, values: &[u8]) -> Option<Document> {
    let r = cache.lookup(key_of(file), fingerprint)?;
    let bytes = &values[r.offset as usize..r.offset as usize + r.len as usize];
    cache.restore(file, bytes)
}

#[test]
fn a_stored_document_comes_back_in_the_next_process() {
    let file = FileId(7);
    let mut first = Cache::open("proj", Store::open("proj", None, 0));
    first.put(key_of(file), 0xaa, &doc(file));
    let (mut cache, values) = next_run(&first);
    assert_eq!(read(&mut cache, file, 0xaa, &values).map(|d| d.file), Some(file));
    assert_eq!(cache.restored(), 1);
}

#[test]
fn a_different_text_fingerprint_is_not_restored() {
    let file = FileId(7);
    let mut first = Cache::open("proj", Store::open("proj", None, 0));
    first.put(key_of(file), 0xaa, &doc(file));
    let (mut cache, values) = next_run(&first);
    assert!(read(&mut cache, file, 0xbb, &values).is_none(), "the text changed; the value must not be reused");
    assert_eq!(cache.restored(), 0);
}

#[test]
fn a_value_belonging_to_another_file_is_not_restored() {
    let asked = FileId(7);
    let stored = FileId(9);
    let (store, values) = store_with(key_of(asked), 0xaa, &encode_document(&doc(stored)));
    let mut cache = Cache::open("proj", store);
    assert!(read(&mut cache, asked, 0xaa, &values).is_none(), "the value is for another file");
    assert_eq!(cache.restored(), 0);
}

#[test]
fn an_unreadable_value_is_treated_as_absent() {
    let file = FileId(7);
    let (store, values) = store_with(key_of(file), 0xaa, b"not a document");
    let mut cache = Cache::open("proj", store);
    assert!(read(&mut cache, file, 0xaa, &values).is_none());
}

#[test]
fn a_value_already_in_the_store_is_not_written_again() {
    let file = FileId(7);
    let mut first = Cache::open("proj", Store::open("proj", None, 0));
    first.put(key_of(file), 0xaa, &doc(file));
    let (mut cache, _) = next_run(&first);
    cache.put(key_of(file), 0xaa, &doc(file));
    assert_eq!(cache.pending().len(), 0);
    assert_eq!(cache.saved(cache.pending().len()).written, 0);
}

#[test]
fn a_cache_without_a_store_neither_restores_nor_writes() {
    let mut cache = Cache::disabled();
    cache.put(key_of(FileId(7)), 0xaa, &doc(FileId(7)));
    assert!(read(&mut cache, FileId(7), 0xaa, &[]).is_none());
    assert_eq!(cache.saved(cache.pending().len()), Saved::default());
}

#[test]
fn keys_differ_between_files() {
    assert_ne!(key_of(FileId(1)), key_of(FileId(2)));
}

#[test]
fn bytes_after_a_document_are_not_a_document() {
    let mut bytes = encode_document(&doc(FileId(7)));
    let mut cache = Cache::open("proj", Store::open("proj", None, 0));
    assert!(cache.restore(FileId(7), &bytes).is_some());
    bytes.push(0);
    assert!(cache.restore(FileId(7), &bytes).is_none());
    bytes.truncate(bytes.len() - 2);
    assert!(cache.restore(FileId(7), &bytes).is_none());
}
