//! The on-disk stores: the index of the memo store, the input records and
//! the facts about tools.

use dowel::facts::Facts;
use dowel::fetch::{archive_dir, checkout_dir};
use dowel::inputs::{Change, InputKey, Inputs};
use dowel::store::{fingerprint, keys_increase, place, Record, Store, RECORD_SIZE};

#[test]
fn a_missing_store_reads_as_empty() {
    let s = Store::open("scratch/missing", None, 0);
    assert!(s.is_empty());
    assert!(s.get(1).is_none());
}

#[test]
fn broken_lines_in_the_input_record_are_skipped() {
    let text = "# header\nnot a record\n1\t2\n\n";
    assert!(Inputs::decode(text).is_empty());
}

#[test]
fn the_checkout_dir_is_keyed_by_name_and_rev_prefix() {
    let d = checkout_dir("/p", "zlib", "0123456789abcdef0123456789abcdef01234567");
    assert_eq!(d, "/p/.dowel/deps/zlib-0123456789ab");
}

#[test]
fn the_archive_dir_is_keyed_by_name_and_digest_prefix() {
    let d = archive_dir("/p/", "png", "ffeeddccbbaa99887766554433221100");
    assert_eq!(d, "/p/.dowel/deps/png-ffeeddccbbaa");
}

#[test]
fn a_record_reads_back_from_its_bytes() {
    let r = Record { key: 7, fingerprint: 0xaabb, offset: 1 << 40, len: 5, durability: 2 };
    let mut bytes = Vec::new();
    r.write_to(&mut bytes);
    assert_eq!(bytes.len(), RECORD_SIZE);
    assert_eq!(Record::read_from(&bytes), r);
    assert_eq!(&bytes[0..8], &7u64.to_le_bytes());
}

#[test]
fn records_past_the_value_log_are_dropped_and_the_rest_sorted() {
    let mut index = Vec::new();
    Record { key: 9, fingerprint: 1, offset: 0, len: 4, durability: 0 }.write_to(&mut index);
    Record { key: 3, fingerprint: 2, offset: 4, len: 4, durability: 0 }.write_to(&mut index);
    Record { key: 5, fingerprint: 3, offset: 6, len: 4, durability: 0 }.write_to(&mut index);
    // A torn record at the end is ignored.
    index.extend_from_slice(&[1, 2, 3]);
    let s = Store::open("root", Some(&index), 8);
    assert_eq!(s.len(), 2);
    assert_eq!(s.records().iter().map(|r| r.key).collect::<Vec<_>>(), vec![3, 9]);
    assert_eq!(s.get(3).unwrap().fingerprint, 2);
    assert!(s.get(5).is_none(), "the record past the value log must be dropped");
}

#[test]
fn the_store_lives_under_the_project() {
    assert_eq!(Store::dir("/work/app"), "/work/app/.dowel/cache/v1");
    assert_eq!(Store::dir(""), ".dowel/cache/v1");
}

#[test]
fn placing_a_record_replaces_the_one_with_its_key() {
    let mut records = Vec::new();
    place(&mut records, Record { key: 7, fingerprint: 1, offset: 0, len: 3, durability: 0 });
    place(&mut records, Record { key: 2, fingerprint: 5, offset: 3, len: 1, durability: 0 });
    place(&mut records, Record { key: 7, fingerprint: 2, offset: 4, len: 9, durability: 0 });
    assert_eq!(records.len(), 2, "the key should appear once");
    assert_eq!(records[0].key, 2);
    assert_eq!(records[1].fingerprint, 2);
    assert_eq!(records[1].len, 9);
}

#[test]
fn equal_bytes_have_equal_fingerprints() {
    assert_eq!(fingerprint(b"abc"), fingerprint(&[b'a', b'b', b'c']));
    assert_ne!(fingerprint(b"abc"), fingerprint(b"abd"));
}

fn key(n: u64) -> InputKey {
    InputKey { mtime_ns: n as u128 * 1000, size: n, inode: 40 + n, ctime_ns: 7 }
}

#[test]
fn an_unchanged_stat_does_not_read_the_content() {
    let mut inputs = Inputs::new();
    inputs.record("a.txt", Some(key(1)), 11);
    assert_eq!(inputs.check("a.txt", Some(key(1)), || panic!("the content must not be read")), Change::UnchangedByStat);
    assert_eq!(inputs.check("a.txt", Some(key(2)), || Some(11)), Change::UnchangedByContent);
    assert_eq!(inputs.check("a.txt", Some(key(2)), || Some(12)), Change::Changed);
    assert_eq!(inputs.check("a.txt", Some(key(2)), || None), Change::Unknown);
    assert_eq!(inputs.check("a.txt", None, || Some(11)), Change::Unknown);
    assert_eq!(inputs.check("b.txt", Some(key(1)), || Some(11)), Change::Unknown);
}

#[test]
fn input_records_survive_encoding() {
    let mut inputs = Inputs::new();
    inputs.record("dir/a b.txt", Some(key(12345)), 12345);
    inputs.record("gone.txt", None, 1);
    let text = inputs.encode();
    assert!(text.starts_with("# dowel input records\n"));

    let back = Inputs::decode(&text);
    assert_eq!(back.len(), 1);
    assert_eq!(back.check("dir/a b.txt", Some(key(12345)), || panic!("must not read")), Change::UnchangedByStat);
    assert_eq!(back.encode(), text);
}

#[test]
fn recording_a_path_again_replaces_its_record() {
    let mut inputs = Inputs::new();
    inputs.record("a", Some(key(1)), 1);
    inputs.record("a", Some(key(2)), 2);
    assert_eq!(inputs.len(), 1);
    assert_eq!(inputs.check("a", Some(key(2)), || panic!("must not read")), Change::UnchangedByStat);
}

#[test]
fn a_fact_survives_the_process() {
    let mut f = Facts::open("facts/round-trip".into(), None);
    assert_eq!(f.get("cc@x"), None);
    f.set("cc@x".into(), "x86_64-unknown-linux-gnu".into());
    let text = f.to_save().expect("something was learned");

    let again = Facts::open("facts/round-trip".into(), Some(&text));
    assert_eq!(again.get("cc@x"), Some("x86_64-unknown-linux-gnu"));
}

#[test]
fn nothing_is_written_when_nothing_was_learned() {
    let f = Facts::open("facts/clean".into(), Some("a\tb\n"));
    assert!(f.to_save().is_none());
}

#[test]
fn a_value_that_would_break_the_line_is_folded() {
    let mut f = Facts::open("facts/folded".into(), None);
    f.set("k".into(), "one\ntwo\tthree".into());
    let text = f.to_save().unwrap();
    assert_eq!(Facts::open("facts/folded".into(), Some(&text)).get("k"), Some("one two three"));
}

#[test]
fn a_key_containing_the_separator_still_round_trips() {
    let mut f = Facts::open("facts/separator".into(), None);
    f.set("ask\tcc\t/usr/bin/cc".into(), "answer".into());
    f.set("ask\tcc".into(), "other".into());
    let text = f.to_save().unwrap();

    let again = Facts::open("facts/separator".into(), Some(&text));
    assert_eq!(again.get("ask\tcc\t/usr/bin/cc"), Some("answer"));
    assert_eq!(again.get("ask\tcc"), Some("other"));
    assert_eq!(again.len(), 2);
}

#[test]
fn a_broken_line_does_not_take_the_others_with_it() {
    let f = Facts::open("facts/broken".into(), Some("good\tvalue\nnonsense\nother\tsecond\n"));
    assert_eq!(f.get("good"), Some("value"));
    assert_eq!(f.get("other"), Some("second"));
    assert_eq!(f.len(), 2);
}

#[test]
fn the_facts_live_under_the_cache_directory() {
    assert_eq!(Facts::dir_under("/home/u/.cache"), "/home/u/.cache/dowel/facts/v1");
}

#[test]
fn input_records_are_written_in_increasing_order_of_path() {
    let mut inputs = Inputs::new();
    inputs.record("src/b.c", Some(key(2)), 22);
    inputs.record("include/a.h", Some(key(1)), 11);
    inputs.record("src/a.c", Some(key(3)), 33);
    let text = inputs.encode();
    let paths: Vec<&str> = text.lines().skip(1).map(|l| l.rsplit('\t').next().unwrap()).collect();
    assert_eq!(paths, vec!["include/a.h", "src/a.c", "src/b.c"]);
    assert_eq!(text.lines().count(), inputs.len() + 1);
}

#[test]
fn a_writer_needs_each_key_once_in_increasing_order() {
    let r = |key: u64| Record { key, fingerprint: 0, offset: 0, len: 0, durability: 0 };
    assert!(keys_increase(&[]));
    assert!(keys_increase(&[r(4)]));
    assert!(keys_increase(&[r(1), r(4), r(9)]));
    assert!(!keys_increase(&[r(1), r(4), r(4)]));
    assert!(!keys_increase(&[r(5), r(4)]));
}

#[test]
fn facts_are_saved_in_increasing_order_of_key() {
    let mut f = Facts::open("facts/order".into(), Some("m\t2\n"));
    f.set("z".into(), "3".into());
    f.set("a".into(), "1".into());
    f.set("m".into(), "two".into());
    assert_eq!(f.to_save().unwrap(), "a\t1\nm\ttwo\nz\t3\n");
}

#[test]
fn records_of_one_key_keep_the_order_of_the_index() {
    let mut index = Vec::new();
    for (key, fingerprint) in [(9u64, 1u64), (4, 2), (9, 3), (4, 4)] {
        Record { key, fingerprint, offset: 0, len: 1, durability: 0 }.write_to(&mut index);
    }
    let store = Store::open("proj", Some(&index), 1);
    let got: Vec<(u64, u64)> = store.records().iter().map(|r| (r.key, r.fingerprint)).collect();
    assert_eq!(got, vec![(4, 2), (4, 4), (9, 1), (9, 3)]);
}
