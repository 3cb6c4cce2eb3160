//! The engine's properties, checked by counting recomputations: what was
//! *not* computed is the point of incrementality, and only counting shows it.

use dowel::query::{fingerprint_of, fingerprint_str, Cancelled, Compute, Db, Durability, Fingerprint, Revision, Stats};
use std::cell::Cell;
use std::rc::Rc;
use std::sync::atomic::{AtomicBool, Ordering};
use std::sync::Arc;

#[derive(Clone, Copy, PartialEq, Eq, PartialOrd, Ord, Debug, Hash)]
enum Key {
    /// Input: the content of a file.
    Text(&'static str),
    /// Derived: the length of the content.
    Len(&'static str),
    /// Derived: whether the length is even (a projection: when the length
    /// changes but its parity does not, the value does not change).
    Even(&'static str),
    /// Derived: the two parities together.
    Both,
}

#[derive(Clone, PartialEq, Debug)]
enum Val {
    Text(String),
    Len(usize),
    Even(bool),
    Both(String),
}

/// How many times each query was computed.
#[derive(Default)]
struct Counts {
    len: Cell<usize>,
    even: Cell<usize>,
    both: Cell<usize>,
}

struct Prog {
    counts: Rc<Counts>,
}

fn text_of(v: &Val) -> &str {
    match v {
        Val::Text(s) => s,
        other => panic!("not a text: {other:?}"),
    }
}

impl Compute<Key, Val> for Prog {
    fn compute(&self, db: &mut Db<Key, Val>, key: &Key) -> Result<(Val, Fingerprint), Cancelled> {
        match *key {
            Key::Len(name) => {
                self.counts.len.set(self.counts.len.get() + 1);
                let text = db.input(Key::Text(name))?.expect("the input is set");
                let n = text_of(&text).len();
                Ok((Val::Len(n), n as Fingerprint))
            }
            Key::Even(name) => {
                self.counts.even.set(self.counts.even.get() + 1);
                let n = len_query(db, self, name)?;
                let even = n % 2 == 0;
                Ok((Val::Even(even), even as Fingerprint))
            }
            Key::Both => {
                self.counts.both.set(self.counts.both.get() + 1);
                let a = even_query(db, self, "a")?;
                let b = even_query(db, self, "b")?;
                let s = format!("{a}/{b}");
                let fp = fingerprint_str(&s);
                Ok((Val::Both(s), fp))
            }
            Key::Text(name) => panic!("the input {name} is not computed"),
        }
    }
}

fn set(db: &mut Db<Key, Val>, name: &'static str, text: &str) {
    db.set_input(Key::Text(name), Val::Text(text.to_string()), fingerprint_str(text), Durability::Low);
}

fn len_query(db: &mut Db<Key, Val>, prog: &Prog, name: &'static str) -> Result<usize, Cancelled> {
    match &*db.query(Key::Len(name), prog)? {
        Val::Len(n) => Ok(*n),
        other => panic!("not a length: {other:?}"),
    }
}

fn even_query(db: &mut Db<Key, Val>, prog: &Prog, name: &'static str) -> Result<bool, Cancelled> {
    match &*db.query(Key::Even(name), prog)? {
        Val::Even(b) => Ok(*b),
        other => panic!("not a parity: {other:?}"),
    }
}

fn both_query(db: &mut Db<Key, Val>, prog: &Prog) -> Result<String, Cancelled> {
    match &*db.query(Key::Both, prog)? {
        Val::Both(s) => Ok(s.clone()),
        other => panic!("not a pair: {other:?}"),
    }
}

fn setup() -> (Db<Key, Val>, Prog, Rc<Counts>) {
    let counts = Rc::new(Counts::default());
    (Db::new(), Prog { counts: counts.clone() }, counts)
}

#[test]
fn a_second_query_in_the_same_revision_is_a_hit() {
    let (mut db, prog, counts) = setup();
    set(&mut db, "a", "xxxx");

    assert_eq!(len_query(&mut db, &prog, "a").unwrap(), 4);
    assert_eq!(len_query(&mut db, &prog, "a").unwrap(), 4);
    assert_eq!(counts.len.get(), 1, "the query ran twice in one revision");
    assert_eq!(db.stats().hit, 1);
}

#[test]
fn writing_the_same_content_does_not_bump_the_revision() {
    let (mut db, _prog, _counts) = setup();
    set(&mut db, "a", "xxxx");
    let rev = db.revision();
    set(&mut db, "a", "xxxx");
    assert_eq!(db.revision(), rev);
}

#[test]
fn changing_an_input_recomputes_what_depends_on_it() {
    let (mut db, prog, counts) = setup();
    set(&mut db, "a", "xxxx");
    assert_eq!(len_query(&mut db, &prog, "a").unwrap(), 4);

    set(&mut db, "a", "xxxxxx");
    assert_eq!(len_query(&mut db, &prog, "a").unwrap(), 6);
    assert_eq!(counts.len.get(), 2);
}

#[test]
fn early_cutoff_stops_the_change_from_propagating() {
    let (mut db, prog, counts) = setup();
    set(&mut db, "a", "xxxx");
    set(&mut db, "b", "yyyy");
    assert_eq!(both_query(&mut db, &prog).unwrap(), "true/true");
    assert_eq!((counts.len.get(), counts.even.get(), counts.both.get()), (2, 2, 1));

    // The length goes from 4 to 6 and the parity stays: `Len` and `Even`
    // are computed again, and `Both` is not.
    set(&mut db, "a", "xxxxxx");
    assert_eq!(both_query(&mut db, &prog).unwrap(), "true/true");
    assert_eq!(counts.len.get(), 3, "Len should have been recomputed");
    assert_eq!(counts.even.get(), 3, "Even should have been recomputed");
    assert_eq!(counts.both.get(), 1, "Both must NOT have been recomputed");
    assert!(db.stats().cut_off >= 1, "{:?}", db.stats());
}

#[test]
fn a_real_change_does_propagate() {
    let (mut db, prog, counts) = setup();
    set(&mut db, "a", "xxxx");
    set(&mut db, "b", "yyyy");
    assert_eq!(both_query(&mut db, &prog).unwrap(), "true/true");

    set(&mut db, "a", "xxxxx");
    assert_eq!(both_query(&mut db, &prog).unwrap(), "false/true");
    assert_eq!(counts.both.get(), 2);
}

#[test]
fn an_untouched_branch_is_not_recomputed() {
    let (mut db, prog, counts) = setup();
    set(&mut db, "a", "xxxx");
    set(&mut db, "b", "yyyy");
    both_query(&mut db, &prog).unwrap();
    let before = counts.len.get();

    set(&mut db, "a", "xxxxx");
    both_query(&mut db, &prog).unwrap();
    assert_eq!(counts.len.get(), before + 1, "the untouched branch was recomputed");
}

#[test]
fn a_durable_memo_skips_walking_its_dependencies() {
    let (mut db, prog, counts) = setup();
    db.set_input(Key::Text("tc"), Val::Text("clang-19".to_string()), 1, Durability::High);
    len_query(&mut db, &prog, "tc").unwrap();
    assert_eq!(counts.len.get(), 1);

    db.reset_stats();
    db.set_input(Key::Text("manifest"), Val::Text("x".to_string()), 2, Durability::Low);
    len_query(&mut db, &prog, "tc").unwrap();
    assert_eq!(counts.len.get(), 1, "the durable query was recomputed");
    assert_eq!(db.stats().skipped, 1, "{:?}", db.stats());
    assert_eq!(db.stats().verified, 0, "dependencies should not have been walked");

    db.set_input(Key::Text("tc"), Val::Text("gcc-14".to_string()), 3, Durability::High);
    len_query(&mut db, &prog, "tc").unwrap();
    assert_eq!(counts.len.get(), 2);
}

#[test]
fn cancellation_stops_at_the_query_boundary() {
    let (mut db, prog, counts) = setup();
    set(&mut db, "a", "xxxx");
    set(&mut db, "b", "yyyy");

    db.cancel();
    assert_eq!(both_query(&mut db, &prog), Err(Cancelled));
    assert_eq!(counts.both.get(), 0, "nothing should have been computed");

    db.uncancel();
    assert_eq!(both_query(&mut db, &prog).unwrap(), "true/true");
}

/// Raises the flag from inside the computation, then reads on.
struct Midway {
    flag: Arc<AtomicBool>,
}

impl Compute<Key, Val> for Midway {
    fn compute(&self, db: &mut Db<Key, Val>, _key: &Key) -> Result<(Val, Fingerprint), Cancelled> {
        self.flag.store(true, Ordering::Relaxed);
        db.check_cancelled()?;
        let t = db.input(Key::Text("a"))?.unwrap();
        let n = text_of(&t).len();
        Ok((Val::Len(n), n as Fingerprint))
    }
}

#[test]
fn cancelling_midway_leaves_the_engine_usable() {
    let (mut db, prog, _counts) = setup();
    set(&mut db, "a", "xxxx");
    let midway = Midway { flag: db.cancellation_flag() };

    let r = db.query(Key::Len("a"), &midway);
    assert_eq!(r, Err(Cancelled));

    db.uncancel();
    assert_eq!(len_query(&mut db, &prog, "a").unwrap(), 4);
}

#[test]
fn reading_a_key_that_was_never_set_yields_none() {
    let (mut db, _prog, _counts) = setup();
    assert!(db.input(Key::Text("missing")).unwrap().is_none());
}

/// Reads the same input twice, with a fingerprint that never changes.
struct Twice {
    ran: Rc<Cell<usize>>,
    double: bool,
}

impl Compute<Key, Val> for Twice {
    fn compute(&self, db: &mut Db<Key, Val>, _key: &Key) -> Result<(Val, Fingerprint), Cancelled> {
        self.ran.set(self.ran.get() + 1);
        let a = db.input(Key::Text("a"))?.unwrap();
        if self.double {
            Ok((Val::Len(text_of(&a).len() * 2), 0))
        } else {
            let b = db.input(Key::Text("a"))?.unwrap();
            Ok((Val::Len(text_of(&a).len() + text_of(&b).len()), 0))
        }
    }
}

#[test]
fn dependencies_are_recorded_without_duplicates() {
    let (mut db, _prog, _counts) = setup();
    set(&mut db, "a", "xxxx");
    let ran = Rc::new(Cell::new(0usize));
    db.query(Key::Len("a"), &Twice { ran: ran.clone(), double: false }).unwrap();

    set(&mut db, "a", "yyyy");
    // The fingerprint is fixed at 0, so the value counts as unchanged, but
    // the query is computed again.
    db.query(Key::Len("a"), &Twice { ran: ran.clone(), double: true }).unwrap();
    assert_eq!(ran.get(), 2);
}

#[test]
fn stats_distinguish_the_four_outcomes() {
    let (mut db, prog, _counts) = setup();
    set(&mut db, "a", "xxxx");
    set(&mut db, "b", "yyyy");
    both_query(&mut db, &prog).unwrap();
    assert_eq!(db.stats().computed, 5, "{:?}", db.stats());

    db.reset_stats();
    both_query(&mut db, &prog).unwrap();
    assert_eq!(db.stats(), Stats { hit: 1, ..Default::default() });

    db.reset_stats();
    set(&mut db, "a", "xxxxxx");
    both_query(&mut db, &prog).unwrap();
    let s = db.stats();
    assert!(s.computed >= 1, "{s:?}");
    assert!(s.cut_off >= 1, "{s:?}");
}

#[test]
fn a_new_database_starts_at_revision_one() {
    let (db, _prog, _counts) = setup();
    assert_eq!(db.revision(), Revision(1));
    assert_eq!(db.stats(), Stats::default());
}

#[test]
fn a_changed_input_advances_the_revision_by_one_and_reads_back() {
    let (mut db, _prog, _counts) = setup();
    set(&mut db, "a", "xxxx");
    assert_eq!(db.revision(), Revision(2));
    set(&mut db, "a", "yy");
    assert_eq!(db.revision(), Revision(3));
    let v = db.input(Key::Text("a")).unwrap().unwrap();
    assert_eq!(*v, Val::Text("yy".to_string()));
}

#[test]
fn a_derived_key_does_not_read_as_an_input() {
    let (mut db, prog, _counts) = setup();
    set(&mut db, "a", "xxxx");
    len_query(&mut db, &prog, "a").unwrap();
    assert!(db.input(Key::Len("a")).unwrap().is_none());
}

#[test]
fn a_query_on_an_input_reads_the_input() {
    let (mut db, prog, counts) = setup();
    set(&mut db, "a", "xxxx");
    let v = db.query(Key::Text("a"), &prog).unwrap();
    assert_eq!(*v, Val::Text("xxxx".to_string()));
    assert_eq!(counts.len.get(), 0);
}

/// Asks for the key it computes.
struct Loop;

impl Compute<Key, Val> for Loop {
    fn compute(&self, db: &mut Db<Key, Val>, key: &Key) -> Result<(Val, Fingerprint), Cancelled> {
        db.query(*key, self)?;
        Ok((Val::Len(0), 0))
    }
}

#[test]
fn a_query_that_reaches_itself_is_cut_off() {
    let (mut db, _prog, _counts) = setup();
    assert_eq!(db.query(Key::Both, &Loop).map(|v| (*v).clone()), Err(Cancelled));
}

#[test]
fn weaker_durability_is_the_minimum() {
    assert_eq!(Durability::High.weaker(Durability::Low), Durability::Low);
    assert_eq!(Durability::Medium.weaker(Durability::High), Durability::Medium);
    assert_eq!(Durability::High.weaker(Durability::High), Durability::High);
    assert_eq!(Durability::ALL.len(), 3);
}

#[test]
fn equal_strings_have_equal_fingerprints() {
    assert_eq!(fingerprint_str("abc"), fingerprint_str(&"abc".to_string()));
    assert_ne!(fingerprint_str("abc"), fingerprint_str("abd"));
    assert_eq!(fingerprint_of(&Key::Len("a")), fingerprint_of(&Key::Len("a")));
    assert_ne!(fingerprint_of(&Key::Len("a")), fingerprint_of(&Key::Even("a")));
    assert_eq!(Cancelled.message(), "the query was cancelled");
}
