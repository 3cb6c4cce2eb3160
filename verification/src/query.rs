//! The incremental query engine.
//!
//! A query's result is kept as a memo together with the keys it read while
//! it ran. Each change of an input advances the revision. A memo that is
//! asked for again is brought up to date in one of four ways: it is already
//! current (a hit), nothing at its durability changed since it was last
//! checked (skipped), none of the keys it read changed since then
//! (verified), or it is computed again. A recomputation that gives the same
//! fingerprint as before counts as no change for the memos that read it
//! (early cutoff). Cancellation is checked at every query boundary and is
//! passed back as `Err(Cancelled)`; so is a procedure that fails, and a
//! query that asks for itself. Each such `Err` is recorded, with its reason,
//! in a log that exists for the proofs only ([`Abort`]).
//!
//! The procedures that compute derived queries are supplied by the caller
//! through [`Compute`]; they read the database only through [`Db::query`]
//! and [`Db::input`].

use vstd::prelude::*;
use std::sync::Arc;
use std::sync::atomic::AtomicBool;
use std::collections::hash_map::DefaultHasher;
use std::hash::Hash;
use vstd::laws_eq::obeys_concrete_eq;
use vstd::pervasive::strictly_cloned;
use vstd::std_specs::hash::DefaultHasherAdditionalSpecFns;
use std::hash::Hasher;
use vstd::string::StringSliceAdditionalSpecFns;

verus! {

/// What stands for the content of a value: equal fingerprints mean equal values.
pub type Fingerprint = u64;

/// The version of the inputs. It advances each time an input changes;
/// `Revision(0)` is "nothing has happened yet".
#[derive(Clone, Copy, PartialEq, Eq, PartialOrd, Ord, Debug, Default, Hash)]
pub struct Revision(pub u64);

/// How rarely an input changes. A memo that read only durable inputs need
/// not look at its dependencies when only less durable inputs changed.
#[derive(Clone, Copy, PartialEq, Eq, PartialOrd, Ord, Debug, Hash)]
pub enum Durability {
    /// Changes with every edit, such as a manifest.
    Low,
    /// Changes now and then, such as locked dependencies.
    Medium,
    /// Almost never changes, such as facts about the toolchain.
    High,
}

impl Durability {
    pub const ALL: [Durability; 3] = [Durability::Low, Durability::Medium, Durability::High];

    /// The position of the level, from the least durable up.
    pub open spec fn rank(self) -> nat {
        match self {
            Durability::Low => 0,
            Durability::Medium => 1,
            Durability::High => 2,
        }
    }

    pub open spec fn weaker_spec(self, other: Durability) -> Durability {
        if self.rank() <= other.rank() {
            self
        } else {
            other
        }
    }

    /// The less durable of the two: a memo is only as durable as the least
    /// durable thing it read.
    pub fn weaker(self, other: Durability) -> (r: Durability)
        ensures
            r == self.weaker_spec(other),
    {
        match (self, other) {
            (Durability::Low, _) => Durability::Low,
            (_, Durability::Low) => Durability::Low,
            (Durability::Medium, _) => Durability::Medium,
            (_, Durability::Medium) => Durability::Medium,
            _ => Durability::High,
        }
    }
}

/// The run was cut off.
#[derive(Clone, Copy, PartialEq, Eq, Debug)]
pub struct Cancelled;

impl Cancelled {
    /// The sentence that describes the cut-off.
    pub fn message(&self) -> (r: &'static str)
        ensures
            r@ == "the query was cancelled"@,
    {
        "the query was cancelled"
    }
}

/// How often each outcome happened; kept for tests and for observation.
#[derive(Clone, Copy, Default, Debug, PartialEq, Eq)]
pub struct Stats {
    /// Computed, and the value changed.
    pub computed: usize,
    /// Computed, and the value stayed the same (early cutoff).
    pub cut_off: usize,
    /// Found unchanged by walking the dependencies, without computing.
    pub verified: usize,
    /// The walk over the dependencies was skipped thanks to durability.
    pub skipped: usize,
    /// Asked again within the same revision. Only derived queries count:
    /// reading an input is no reuse of a memo.
    pub hit: usize,
}

/// One more, wrapping at the end of the range.
pub open spec fn bump(n: usize) -> usize {
    if n == usize::MAX {
        0
    } else {
        (n + 1) as usize
    }
}

fn bumped(n: usize) -> (r: usize)
    ensures
        r == bump(n),
{
    if n == usize::MAX {
        0
    } else {
        n + 1
    }
}

impl Stats {
    pub open spec fn zero() -> Stats {
        Stats { computed: 0, cut_off: 0, verified: 0, skipped: 0, hit: 0 }
    }

    pub open spec fn with_computed(self) -> Stats {
        Stats { computed: bump(self.computed), ..self }
    }

    pub open spec fn with_cut_off(self) -> Stats {
        Stats { cut_off: bump(self.cut_off), ..self }
    }

    pub open spec fn with_verified(self) -> Stats {
        Stats { verified: bump(self.verified), ..self }
    }

    pub open spec fn with_skipped(self) -> Stats {
        Stats { skipped: bump(self.skipped), ..self }
    }

    pub open spec fn with_hit(self) -> Stats {
        Stats { hit: bump(self.hit), ..self }
    }
}

/// What the engine keeps for one key.
pub struct Memo<K, V> {
    /// The value; a derived query that was registered but never computed
    /// has none yet.
    pub value: Option<Arc<V>>,
    pub fingerprint: Fingerprint,
    /// The keys read while the value was computed, each once.
    pub deps: Vec<K>,
    /// For an input, its own durability; for a derived query, the least
    /// durability among what it read.
    pub durability: Durability,
    /// The revision at which the value was last known to be current.
    pub verified_at: u64,
    /// The revision at which the value last changed.
    pub changed_at: u64,
    /// Whether the key holds an input rather than a derived query.
    pub input: bool,
}

/// A query that is running: the keys it has read so far.
pub struct Frame<K> {
    pub key: K,
    pub deps: Vec<K>,
    pub durability: Durability,
}

struct Entry<K, V> {
    key: K,
    memo: Memo<K, V>,
}

/// Whether the key type behaves as the engine needs: `==` is equality and
/// a clone is equal to what it was cloned from.
pub open spec fn key_model<K: PartialEq + Clone>() -> bool {
    &&& obeys_concrete_eq::<K>()
    &&& forall|a: K, b: K| #[trigger] strictly_cloned(a, b) ==> a == b
}

fn keys_equal<K: PartialEq + Clone>(a: &K, b: &K) -> (r: bool)
    requires
        key_model::<K>(),
    ensures
        r == (*a == *b),
{
    let r = *a == *b;
    proof {
        reveal(obeys_concrete_eq);
    }
    r
}

fn copy_key<K: PartialEq + Clone>(a: &K) -> (r: K)
    requires
        key_model::<K>(),
    ensures
        r == *a,
{
    let r = a.clone();
    assert(call_ensures(K::clone, (a,), r));
    assert(strictly_cloned(*a, r));
    r
}

fn copy_keys<K: PartialEq + Clone>(v: &Vec<K>) -> (r: Vec<K>)
    requires
        key_model::<K>(),
    ensures
        r@ == v@,
{
    let mut r: Vec<K> = Vec::new();
    let mut i: usize = 0;
    while i < v.len()
        invariant
            key_model::<K>(),
            i <= v.len(),
            r@ == v@.subrange(0, i as int),
        decreases v.len() - i,
    {
        let k = copy_key(&v[i]);
        r.push(k);
        i = i + 1;
        assert(r@ =~= v@.subrange(0, i as int));
    }
    assert(r@ =~= v@);
    r
}

fn contains_key<K: PartialEq + Clone>(v: &Vec<K>, key: &K) -> (r: bool)
    requires
        key_model::<K>(),
    ensures
        r == v@.contains(*key),
{
    let mut i: usize = 0;
    while i < v.len()
        invariant
            key_model::<K>(),
            i <= v.len(),
            forall|j: int| 0 <= j < i ==> v@[j] != *key,
        decreases v.len() - i,
    {
        if keys_equal(&v[i], key) {
            return true;
        }
        i = i + 1;
    }
    false
}

/// Hands out another handle on the same shared value.
#[verifier::external_body]
fn share<T>(a: &Arc<T>) -> (r: Arc<T>)
    ensures
        r == *a,
{
    Arc::clone(a)
}

pub open spec fn is_fresh<K, V>(m: Memo<K, V>, rev: u64) -> bool {
    !m.input && m.value is Some && m.verified_at == rev
}

/// How the memo of one key may change while queries run within one
/// revision: an input never changes and none appears; a derived memo that is
/// current stays as it is; one that is not current may become current, and
/// its change revision moves only if its fingerprint did.
pub open spec fn memo_step<K, V>(old: Option<Memo<K, V>>, new: Option<Memo<K, V>>, rev: u64) -> bool {
    match old {
        None => new matches Some(n) ==> !n.input,
        Some(o) => new matches Some(n) && (n == o || {
            &&& !o.input
            &&& !is_fresh(o, rev)
            &&& is_fresh(n, rev)
            &&& if o.value is Some && n.fingerprint == o.fingerprint {
                n.changed_at == o.changed_at
            } else {
                n.changed_at == rev
            }
        }),
    }
}

/// How the stack of running queries may change across a nested query: the
/// same frames, of which only the top one may have read more.
pub open spec fn stack_step<K>(old: Seq<Frame<K>>, new: Seq<Frame<K>>) -> bool {
    &&& new.len() == old.len()
    &&& forall|i: int| 0 <= i < old.len() - 1 ==> new[i] == old[i]
    &&& old.len() > 0 ==> {
        &&& new.last().key == old.last().key
        &&& forall|x: K| old.last().deps@.contains(x) ==> new.last().deps@.contains(x)
    }
}

/// `new` is `old` after the top frame read `key`, at durability `d`.
pub open spec fn records<K>(old: Seq<Frame<K>>, new: Seq<Frame<K>>, key: K, d: Durability) -> bool {
    if old.len() == 0 {
        new == old
    } else {
        &&& new.len() == old.len()
        &&& forall|i: int| 0 <= i < old.len() - 1 ==> new[i] == old[i]
        &&& new.last().key == old.last().key
        &&& new.last().deps@ == if old.last().deps@.contains(key) {
            old.last().deps@
        } else {
            old.last().deps@.push(key)
        }
        &&& new.last().durability == old.last().durability.weaker_spec(d)
    }
}

/// Why a query was given up before it gave a value. Every `Err(Cancelled)`
/// that the engine hands out is recorded as one of these.
pub enum Abort<K> {
    /// The cancellation flag was found raised.
    Flag,
    /// The procedure computing this key returned `Err`.
    Failed(K),
    /// This key was asked for while it was itself being computed.
    Cycle(K),
}

/// Memoised queries over keys `K` with values `V`.
pub struct Db<K, V> {
    memos: Vec<Entry<K, V>>,
    stack: Vec<Frame<K>>,
    revision: u64,
    last_low: u64,
    last_medium: u64,
    last_high: u64,
    stats: Stats,
    cancelled: Arc<AtomicBool>,
    /// Each time a query was given up, and why, oldest first.
    aborts: Ghost<Seq<Abort<K>>>,
    /// What each read of the cancellation flag found, oldest first.
    flag_reads: Ghost<Seq<bool>>,
    /// Each value a procedure computed, with its key, oldest first.
    computed: Ghost<Seq<(K, V)>>,
}

spec fn has_key<K, V>(s: Seq<Entry<K, V>>, k: K) -> bool {
    exists|i: int| 0 <= i < s.len() && s[i].key == k
}

spec fn pos<K, V>(s: Seq<Entry<K, V>>, k: K) -> int {
    choose|i: int| 0 <= i < s.len() && s[i].key == k
}

spec fn unique_keys<K, V>(s: Seq<Entry<K, V>>) -> bool {
    forall|i: int, j: int| 0 <= i < s.len() && 0 <= j < s.len() && s[i].key == s[j].key ==> i == j
}

spec fn find_in<K, V>(s: Seq<Entry<K, V>>, k: K) -> Option<Memo<K, V>> {
    if has_key(s, k) {
        Some(s[pos(s, k)].memo)
    } else {
        None
    }
}

proof fn lemma_find_at<K, V>(s: Seq<Entry<K, V>>, i: int)
    requires
        unique_keys(s),
        0 <= i < s.len(),
    ensures
        has_key(s, s[i].key),
        pos(s, s[i].key) == i,
        find_in(s, s[i].key) == Some(s[i].memo),
{
    let k = s[i].key;
    assert(has_key(s, k));
    let j = pos(s, k);
    assert(s[j].key == k);
}

proof fn lemma_find_update<K, V>(s: Seq<Entry<K, V>>, i: int, e: Entry<K, V>)
    requires
        unique_keys(s),
        0 <= i < s.len(),
        e.key == s[i].key,
    ensures
        unique_keys(s.update(i, e)),
        find_in(s.update(i, e), e.key) == Some(e.memo),
        forall|k: K| k != e.key ==> find_in(s.update(i, e), k) == find_in(s, k),
        forall|k: K| #[trigger] has_key(s.update(i, e), k) == has_key(s, k),
{
    let t = s.update(i, e);
    assert(unique_keys(t));
    lemma_find_at(t, i);
    assert forall|k: K| #[trigger] has_key(t, k) == has_key(s, k) by {
        if has_key(s, k) {
            let j = pos(s, k);
            assert(t[j].key == k);
        }
        if has_key(t, k) {
            let j = pos(t, k);
            assert(s[j].key == k);
        }
    }
    assert forall|k: K| k != e.key implies find_in(t, k) == find_in(s, k) by {
        if has_key(s, k) {
            let j = pos(s, k);
            assert(t[j].key == k);
            lemma_find_at(t, j);
            lemma_find_at(s, j);
        }
        if has_key(t, k) {
            let j = pos(t, k);
            assert(s[j].key == k);
        }
    }
}

proof fn lemma_find_push<K, V>(s: Seq<Entry<K, V>>, e: Entry<K, V>)
    requires
        unique_keys(s),
        !has_key(s, e.key),
    ensures
        unique_keys(s.push(e)),
        find_in(s.push(e), e.key) == Some(e.memo),
        forall|k: K| k != e.key ==> find_in(s.push(e), k) == find_in(s, k),
        forall|k: K| has_key(s, k) ==> #[trigger] has_key(s.push(e), k),
{
    let t = s.push(e);
    assert forall|i: int, j: int|
        0 <= i < t.len() && 0 <= j < t.len() && t[i].key == t[j].key implies i == j by {
        if i < s.len() && j == s.len() {
            assert(s[i].key == e.key);
        }
        if j < s.len() && i == s.len() {
            assert(s[j].key == e.key);
        }
    }
    lemma_find_at(t, s.len() as int);
    assert forall|k: K| has_key(s, k) implies #[trigger] has_key(t, k) by {
        let j = pos(s, k);
        assert(t[j].key == k);
    }
    assert forall|k: K| k != e.key implies find_in(t, k) == find_in(s, k) by {
        if has_key(s, k) {
            let j = pos(s, k);
            assert(t[j].key == k);
            lemma_find_at(t, j);
            lemma_find_at(s, j);
        }
        if has_key(t, k) {
            let j = pos(t, k);
            assert(s[j].key == k);
        }
    }
}

impl<K: PartialEq + Clone, V> Db<K, V> {
    /// The invariant of the engine.
    pub closed spec fn wf(&self) -> bool {
        &&& key_model::<K>()
        &&& self.revision >= 1
        &&& unique_keys(self.memos@)
        &&& forall|i: int|
            0 <= i < self.stack@.len() ==> #[trigger] has_key(self.memos@, self.stack@[i].key)
        &&& forall|i: int|
            0 <= i < self.memos@.len() && (#[trigger] self.memos@[i]).memo.input
                ==> self.memos@[i].memo.value is Some
        &&& forall|i: int|
            0 <= i < self.memos@.len() ==> (#[trigger] self.memos@[i]).memo.verified_at <= self.revision
                && self.memos@[i].memo.changed_at <= self.revision
    }

    /// No memo was checked or changed after the current revision.
    proof fn lemma_memo_bounds(&self, k: K)
        requires
            self.wf(),
        ensures
            self.memo(k) matches Some(m) ==> m.verified_at <= self.rev() && m.changed_at <= self.rev(),
    {
        if has_key(self.memos@, k) {
            let i = pos(self.memos@, k);
            assert(self.memos@[i].key == k);
        }
    }

    /// A key that holds a memo is one of the stored entries.
    proof fn lemma_registered_nonempty(&self, k: K)
        requires
            self.memo(k) is Some,
        ensures
            self.memos@.len() > 0,
    {
        if self.memos@.len() == 0 {
            assert(find_in(self.memos@, k) is None);
        }
    }

    /// The current revision.
    pub closed spec fn rev(&self) -> u64 {
        self.revision
    }

    /// The memo held for `k`, if any.
    pub closed spec fn memo(&self, k: K) -> Option<Memo<K, V>> {
        find_in(self.memos@, k)
    }

    /// The queries that are running, innermost last.
    pub closed spec fn frames(&self) -> Seq<Frame<K>> {
        self.stack@
    }

    pub closed spec fn counts(&self) -> Stats {
        self.stats
    }

    /// The flag through which the run is cancelled.
    pub closed spec fn flag(&self) -> Arc<AtomicBool> {
        self.cancelled
    }

    /// Each time a query was given up, and why, oldest first.
    pub closed spec fn aborts(&self) -> Seq<Abort<K>> {
        self.aborts@
    }

    /// `new` is `self` with one more query given up, for reason `a`, and
    /// nothing else changed.
    pub closed spec fn gave_up(&self, new: Self, a: Abort<K>) -> bool {
        &&& new.memos == self.memos
        &&& new.stack == self.stack
        &&& new.revision == self.revision
        &&& new.last_low == self.last_low
        &&& new.last_medium == self.last_medium
        &&& new.last_high == self.last_high
        &&& new.stats == self.stats
        &&& new.cancelled == self.cancelled
        &&& new.computed == self.computed
        &&& new.aborts@ == self.aborts@.push(a)
    }

    /// What each read of the cancellation flag found, oldest first. The
    /// flag is shared with other threads, so only reading it tells.
    pub closed spec fn flag_reads(&self) -> Seq<bool> {
        self.flag_reads@
    }

    /// `new` is `self` after one read of the flag: everything else stays.
    pub closed spec fn only_read(&self, new: Self) -> bool {
        &&& new.memos == self.memos
        &&& new.stack == self.stack
        &&& new.revision == self.revision
        &&& new.last_low == self.last_low
        &&& new.last_medium == self.last_medium
        &&& new.last_high == self.last_high
        &&& new.stats == self.stats
        &&& new.cancelled == self.cancelled
        &&& new.aborts == self.aborts
        &&& new.computed == self.computed
        &&& new.flag_reads@.len() == self.flag_reads@.len() + 1
        &&& new.flag_reads@.drop_last() == self.flag_reads@
    }

    /// The record of flag reads only grows.
    pub open spec fn keeps_reads(&self, new: Self) -> bool {
        &&& self.flag_reads().len() <= new.flag_reads().len()
        &&& new.flag_reads().take(self.flag_reads().len() as int) == self.flag_reads()
    }

    /// Why a run from `self` to `new` may have failed: a read of the flag in
    /// between found it raised, or a query was given up because its
    /// procedure failed or it asked for itself.
    pub open spec fn cause_in(&self, new: Self) -> bool {
        ||| exists|i: int| self.flag_reads().len() <= i < new.flag_reads().len() && #[trigger] new.flag_reads()[i]
        ||| exists|j: int|
            self.aborts().len() <= j < new.aborts().len() && !((#[trigger] new.aborts()[j]) is Flag)
    }

    /// The record of given-up queries only grows.
    pub open spec fn keeps_aborts(&self, new: Self) -> bool {
        &&& self.aborts().len() <= new.aborts().len()
        &&& new.aborts().take(self.aborts().len() as int) == self.aborts()
    }

    /// Each value a procedure computed, with its key, oldest first.
    pub closed spec fn computed(&self) -> Seq<(K, V)> {
        self.computed@
    }

    /// The record of computed values only grows.
    pub open spec fn keeps_computed(&self, new: Self) -> bool {
        &&& self.computed().len() <= new.computed().len()
        &&& new.computed().take(self.computed().len() as int) == self.computed()
    }

    /// Whether a procedure computed `n`'s value for `k` between `self` and
    /// `new`.
    pub open spec fn computed_in(&self, new: Self, k: K, n: Memo<K, V>) -> bool {
        exists|i: int|
            self.computed().len() <= i < new.computed().len() && (#[trigger] new.computed()[i]).0 == k
                && (n.value matches Some(a) && *a == new.computed()[i].1)
    }

    /// Whether `dep` is current, or an input, and last changed no later
    /// than `t`: so it stays that way for the rest of the revision.
    pub open spec fn settled_since(&self, dep: K, t: u64) -> bool {
        &&& self.memo(dep) matches Some(d)
        &&& d.input || is_fresh(d, self.rev())
        &&& d.changed_at <= t
    }

    /// How the memo of `k`, where it changed between `self` and `new`,
    /// came to be current: a procedure computed its value in between; or
    /// it kept its value and was only marked current, because nothing at
    /// its durability or above changed since it was checked, or because
    /// nothing it read changed since then.
    pub open spec fn justified(&self, new: Self, k: K) -> bool {
        match (self.memo(k), new.memo(k)) {
            (Some(o), Some(n)) => n != o ==> {
                ||| self.computed_in(new, k, n)
                ||| {
                    &&& n == Memo { verified_at: self.rev(), ..o }
                    &&& o.value is Some
                    &&& (self.changed_at_or_above(o.durability) <= o.verified_at || forall|j: int|
                        0 <= j < o.deps@.len() ==> #[trigger] new.settled_since(o.deps@[j], o.verified_at))
                }
            },
            _ => true,
        }
    }

    /// The revision at which an input of durability `d` last changed.
    pub closed spec fn last_change(&self, d: Durability) -> u64 {
        match d {
            Durability::Low => self.last_low,
            Durability::Medium => self.last_medium,
            Durability::High => self.last_high,
        }
    }

    /// The last revision at which an input of durability `d` or above
    /// changed. A memo of durability `d` read only such inputs, so changes
    /// below `d` cannot affect it.
    pub open spec fn changed_at_or_above(&self, d: Durability) -> u64 {
        let h = self.last_change(Durability::High);
        let m = if self.last_change(Durability::Medium) > h {
            self.last_change(Durability::Medium)
        } else {
            h
        };
        let l = if self.last_change(Durability::Low) > m {
            self.last_change(Durability::Low)
        } else {
            m
        };
        match d {
            Durability::Low => l,
            Durability::Medium => m,
            Durability::High => h,
        }
    }

    /// Whether a key is being computed by one of the running queries.
    pub open spec fn running(&self, k: K) -> bool {
        exists|i: int| 0 <= i < self.frames().len() && self.frames()[i].key == k
    }

    /// Whether the memo of `k` is current and holds `v`.
    pub open spec fn answered(&self, k: K, v: Arc<V>) -> bool {
        &&& self.memo(k) matches Some(m)
        &&& is_fresh(m, self.rev())
        &&& m.value == Some(v)
    }

    /// Whether `k` holds the input `v`.
    pub open spec fn holds_input(&self, k: K, v: V) -> bool {
        &&& self.memo(k) matches Some(m)
        &&& m.input
        &&& m.value matches Some(a)
        &&& *a == v
    }

    /// What every query keeps, and what the procedure of a derived query
    /// must keep: the revision, the inputs and the memos that are current
    /// stay as they are, and so do the running queries, of which only the
    /// innermost may have read more.
    pub open spec fn evolves(&self, new: Self) -> bool {
        &&& new.wf()
        &&& new.rev() == self.rev()
        &&& forall|d: Durability| #[trigger] new.last_change(d) == self.last_change(d)
        &&& new.flag() == self.flag()
        &&& self.keeps_aborts(new)
        &&& self.keeps_reads(new)
        &&& self.keeps_computed(new)
        &&& forall|k: K| #[trigger] memo_step(self.memo(k), new.memo(k), self.rev())
        &&& forall|k: K| #[trigger] self.justified(new, k)
        &&& stack_step(self.frames(), new.frames())
        &&& forall|i: int|
            0 <= i < self.frames().len() ==> new.memo(#[trigger] self.frames()[i].key) == self.memo(
                self.frames()[i].key,
            )
    }
}

impl<K: PartialEq + Clone, V> Db<K, V> {
    /// Whether `new` is `self` with the same memos, revision and flag.
    pub open spec fn same_memos(&self, new: Self) -> bool {
        &&& new.wf()
        &&& new.rev() == self.rev()
        &&& forall|d: Durability| #[trigger] new.last_change(d) == self.last_change(d)
        &&& new.flag() == self.flag()
        &&& new.aborts() == self.aborts()
        &&& new.computed() == self.computed()
        &&& self.keeps_reads(new)
        &&& forall|k: K| #[trigger] new.memo(k) == self.memo(k)
    }

    /// Whether an input for `key` with fingerprint `fp` would change nothing:
    /// the key already holds a value with that fingerprint.
    pub open spec fn same_content(&self, key: K, fp: Fingerprint) -> bool {
        &&& self.memo(key) matches Some(m)
        &&& m.value is Some
        &&& m.fingerprint == fp
    }

    /// What setting the input `key` to `value` does.
    pub open spec fn sets_input(
        &self,
        new: Self,
        key: K,
        value: V,
        fp: Fingerprint,
        d: Durability,
    ) -> bool {
        if self.same_content(key, fp) {
            new == *self
        } else {
            &&& new.wf()
            &&& new.rev() == self.rev() + 1
            &&& new.last_change(d) == new.rev()
            &&& forall|e: Durability| e != d ==> #[trigger] new.last_change(e) == self.last_change(e)
            &&& new.holds_input(key, value)
            &&& new.memo(key) matches Some(m) && {
                &&& m.fingerprint == fp
                &&& m.deps@.len() == 0
                &&& m.durability == d
                &&& m.verified_at == new.rev()
                &&& m.changed_at == new.rev()
            }
            &&& forall|k: K| k != key ==> #[trigger] new.memo(k) == self.memo(k)
            &&& new.frames() == self.frames()
            &&& new.counts() == self.counts()
            &&& new.flag() == self.flag()
        }
    }

    /// An input reads back the value the last `set_input` that changed its
    /// fingerprint kept, and a key never set reads as nothing, unless the
    /// read found the flag raised.
    pub proof fn law_input_reads_back(a: Self, b: Self, key: K, v: V, r: Result<Option<Arc<V>>, Cancelled>)
        requires
            a.reads(b, key, r),
        ensures
            a.holds_input(key, v) ==> r is Err || (r matches Ok(Some(x)) && *x == v),
            a.memo(key) is None ==> r is Err || r == Ok::<Option<Arc<V>>, Cancelled>(None),
    {
    }

    /// A memo whose durability saw no input change since it was checked is
    /// handed out as it is: no procedure runs, nothing is computed, and the
    /// skip is counted.
    pub proof fn law_durable_memo_skips(a: Self, b: Self, key: K, r: Result<Option<Arc<V>>, Cancelled>)
        requires
            a.outcome(b, key, r),
            a.memo(key) matches Some(m) && !m.input && m.value is Some && !is_fresh(m, a.rev())
                && a.changed_at_or_above(m.durability) <= m.verified_at,
            !a.running(key),
        ensures
            r is Err || (r == Ok::<Option<Arc<V>>, Cancelled>(a.memo(key)->Some_0.value) && b.counts()
                == a.counts().with_skipped() && b.computed() == a.computed()),
    {
    }

    /// A memo checked before an input at its durability changed, one of
    /// whose dependencies changed since, is answered only with a value a
    /// procedure computed for it in between.
    pub proof fn law_changed_dependency_recomputes(a: Self, b: Self, key: K, v: Arc<V>, j: int)
        requires
            a.evolves(b),
            a.memo(key) matches Some(m) && !m.input && !is_fresh(m, a.rev())
                && a.changed_at_or_above(m.durability) > m.verified_at
                && 0 <= j < m.deps@.len()
                && !b.settled_since(m.deps@[j], m.verified_at),
            b.answered(key, v),
        ensures
            exists|i: int|
                a.computed().len() <= i < b.computed().len() && (#[trigger] b.computed()[i]).0 == key
                    && *v == b.computed()[i].1,
    {
        assert(a.justified(b, key));
        let m = a.memo(key)->Some_0;
        let n = b.memo(key)->Some_0;
        assert(n != m);
        if !a.computed_in(b, key, n) {
            assert(b.settled_since(m.deps@[j], m.verified_at));
        }
        let i = choose|i: int|
            a.computed().len() <= i < b.computed().len() && (#[trigger] b.computed()[i]).0 == key
                && (n.value matches Some(x) && *x == b.computed()[i].1);
        assert(*v == b.computed()[i].1);
    }

    /// An empty database at revision 1.
    pub fn new() -> (db: Self)
        requires
            key_model::<K>(),
        ensures
            db.wf(),
            db.rev() == 1,
            forall|k: K| #[trigger] db.memo(k) is None,
            db.frames().len() == 0,
            db.counts() == Stats::zero(),
            forall|d: Durability| #[trigger] db.last_change(d) == 0,
            db.aborts().len() == 0,
            db.flag_reads().len() == 0,
            db.computed().len() == 0,
    {
        let db = Db {
            memos: Vec::new(),
            stack: Vec::new(),
            revision: 1,
            last_low: 0,
            last_medium: 0,
            last_high: 0,
            stats: Stats { computed: 0, cut_off: 0, verified: 0, skipped: 0, hit: 0 },
            cancelled: Arc::new(AtomicBool::new(false)),
            aborts: Ghost(Seq::empty()),
            flag_reads: Ghost(Seq::empty()),
            computed: Ghost(Seq::empty()),
        };
        assert forall|k: K| #[trigger] db.memo(k) is None by {
            assert(!has_key(db.memos@, k));
        }
        db
    }

    pub fn revision(&self) -> (r: Revision)
        ensures
            r.0 == self.rev(),
    {
        Revision(self.revision)
    }

    pub fn stats(&self) -> (r: Stats)
        ensures
            r == self.counts(),
    {
        self.stats
    }

    pub fn reset_stats(&mut self)
        requires
            old(self).wf(),
        ensures
            final(self).counts() == Stats::zero(),
            final(self).same_memos_as(*old(self)),
            final(self).frames() == old(self).frames(),
    {
        self.stats = Stats { computed: 0, cut_off: 0, verified: 0, skipped: 0, hit: 0 };
        assert(self.flag_reads().take(self.flag_reads().len() as int) =~= self.flag_reads());
    }

    /// The flag through which another thread cancels the run, as an editor
    /// does with the previous request when the next keystroke comes.
    pub fn cancellation_flag(&self) -> (r: Arc<AtomicBool>)
        ensures
            r == self.flag(),
    {
        share(&self.cancelled)
    }

    pub fn cancel(&self) {
        self.cancelled.store(true, std::sync::atomic::Ordering::Relaxed);
    }

    pub fn uncancel(&self) {
        self.cancelled.store(false, std::sync::atomic::Ordering::Relaxed);
    }

    /// `Err(Cancelled)` while the flag is raised. The flag may be raised by
    /// another thread at any moment, so what the read found is recorded
    /// ([`Db::flag_reads`]) and nothing else changes.
    pub fn check_cancelled(&mut self) -> (r: Result<(), Cancelled>)
        ensures
            old(self).only_read(*final(self)),
            final(self).flag_reads() == old(self).flag_reads().push(r is Err),
    {
        let raised = self.cancelled.load(std::sync::atomic::Ordering::Relaxed);
        proof {
            self.flag_reads@ = self.flag_reads@.push(raised);
        }
        assert(self.flag_reads@.drop_last() =~= old(self).flag_reads@);
        if raised {
            Err(Cancelled)
        } else {
            Ok(())
        }
    }

    /// The same memos, revision and flag as `old`.
    pub open spec fn same_memos_as(&self, old: Self) -> bool {
        old.same_memos(*self)
    }

    fn find(&self, key: &K) -> (r: Option<usize>)
        requires
            self.wf(),
        ensures
            match r {
                Some(i) => {
                    &&& i < self.memos.len()
                    &&& self.memos@[i as int].key == *key
                    &&& self.memo(*key) == Some(self.memos@[i as int].memo)
                },
                None => self.memo(*key) is None,
            },
    {
        let mut i: usize = 0;
        while i < self.memos.len()
            invariant
                self.wf(),
                i <= self.memos.len(),
                forall|j: int| 0 <= j < i ==> self.memos@[j].key != *key,
            decreases self.memos.len() - i,
        {
            if keys_equal(&self.memos[i].key, key) {
                proof {
                    lemma_find_at(self.memos@, i as int);
                }
                return Some(i);
            }
            i = i + 1;
        }
        None
    }

    fn is_running(&self, key: &K) -> (r: bool)
        requires
            self.wf(),
        ensures
            r == self.running(*key),
    {
        let mut i: usize = 0;
        while i < self.stack.len()
            invariant
                self.wf(),
                i <= self.stack.len(),
                forall|j: int| 0 <= j < i ==> self.stack@[j].key != *key,
            decreases self.stack.len() - i,
        {
            if keys_equal(&self.stack[i].key, key) {
                return true;
            }
            i = i + 1;
        }
        false
    }

    fn changed_at_or_above_exec(&self, d: Durability) -> (r: u64)
        ensures
            r == self.changed_at_or_above(d),
    {
        let h = self.last_high;
        let m = if self.last_medium > h {
            self.last_medium
        } else {
            h
        };
        let l = if self.last_low > m {
            self.last_low
        } else {
            m
        };
        match d {
            Durability::Low => l,
            Durability::Medium => m,
            Durability::High => h,
        }
    }

    /// Sets an input. When the key already holds a value with the same
    /// fingerprint nothing happens, so that saving a file with unchanged
    /// content invalidates nothing; otherwise the revision advances.
    pub fn set_input(&mut self, key: K, value: V, fingerprint: Fingerprint, durability: Durability)
        requires
            old(self).wf(),
            old(self).rev() < u64::MAX,
        ensures
            old(self).sets_input(*final(self), key, value, fingerprint, durability),
    {
        let found = self.find(&key);
        if let Some(i) = found {
            if self.memos[i].memo.value.is_some() && self.memos[i].memo.fingerprint == fingerprint {
                return;
            }
        }
        let ghost before = *self;
        self.revision = self.revision + 1;
        let rev = self.revision;
        match durability {
            Durability::Low => self.last_low = rev,
            Durability::Medium => self.last_medium = rev,
            Durability::High => self.last_high = rev,
        }
        let memo = Memo {
            value: Some(Arc::new(value)),
            fingerprint,
            deps: Vec::new(),
            durability,
            verified_at: rev,
            changed_at: rev,
            input: true,
        };
        match found {
            Some(i) => {
                proof {
                    lemma_find_update(self.memos@, i as int, Entry { key, memo });
                }
                self.memos[i].memo = memo;
                assert(self.memos@ =~= before.memos@.update(i as int, Entry { key, memo }));
            },
            None => {
                proof {
                    lemma_find_push(self.memos@, Entry { key, memo });
                }
                self.memos.push(Entry { key, memo });
            },
        }
    }

    /// Records `memos[i]` as read by the innermost running query, and hands
    /// out its value.
    fn finish(&mut self, i: usize) -> (r: Arc<V>)
        requires
            old(self).wf(),
            i < old(self).memos.len(),
            old(self).memos@[i as int].memo.value is Some,
        ensures
            final(self).memos == old(self).memos,
            final(self).revision == old(self).revision,
            final(self).last_low == old(self).last_low,
            final(self).last_medium == old(self).last_medium,
            final(self).last_high == old(self).last_high,
            final(self).stats == old(self).stats,
            final(self).cancelled == old(self).cancelled,
            final(self).aborts == old(self).aborts,
            final(self).flag_reads == old(self).flag_reads,
            final(self).computed == old(self).computed,
            old(self).keeps_reads(*final(self)),
            records(
                old(self).stack@,
                final(self).stack@,
                old(self).memos@[i as int].key,
                old(self).memos@[i as int].memo.durability,
            ),
            Some(r) == old(self).memos@[i as int].memo.value,
    {
        assert(self.flag_reads().take(self.flag_reads().len() as int) =~= self.flag_reads());
        let v = share(self.memos[i].memo.value.as_ref().unwrap());
        let n = self.stack.len();
        if n > 0 {
            let key = copy_key(&self.memos[i].key);
            let d = self.memos[i].memo.durability;
            if !contains_key(&self.stack[n - 1].deps, &key) {
                self.stack[n - 1].deps.push(key);
            }
            let w = self.stack[n - 1].durability.weaker(d);
            self.stack[n - 1].durability = w;
        }
        v
    }
}

/// The procedure that computes derived queries. It reads the database only
/// through [`Db::query`] and [`Db::input`], so what it computes depends on
/// nothing but what it read, and everything it read is recorded as a
/// dependency of the key it computes.
pub trait Compute<K: PartialEq + Clone, V>: Sized {
    /// Computes the value of `key` and its fingerprint.
    fn compute(&self, db: &mut Db<K, V>, key: &K) -> (r: Result<(V, Fingerprint), Cancelled>)
        requires
            old(db).wf(),
            old(db).frames().len() > 0,
            old(db).frames().last().key == *key,
        ensures
            old(db).evolves(*final(db)),
    ;
}

/// The result of a query in the shape of the result of a read.
pub open spec fn as_read<V>(r: Result<Arc<V>, Cancelled>) -> Result<Option<Arc<V>>, Cancelled> {
    match r {
        Ok(v) => Ok(Some(v)),
        Err(c) => Err(c),
    }
}

proof fn lemma_stack_step_keys<K>(a: Seq<Frame<K>>, b: Seq<Frame<K>>)
    requires
        stack_step(a, b),
    ensures
        forall|i: int| 0 <= i < a.len() ==> #[trigger] b[i].key == a[i].key,
{
    assert forall|i: int| 0 <= i < a.len() implies #[trigger] b[i].key == a[i].key by {
        if i < a.len() - 1 {
            assert(b[i] == a[i]);
        }
    }
}

proof fn lemma_records_step<K>(a: Seq<Frame<K>>, b: Seq<Frame<K>>, key: K, d: Durability)
    requires
        records(a, b, key, d),
    ensures
        stack_step(a, b),
        a.len() > 0 ==> b.last().deps@.contains(key),
{
    if a.len() > 0 {
        if !a.last().deps@.contains(key) {
            assert(b.last().deps@.last() == key);
            assert(b.last().deps@[b.last().deps@.len() - 1] == key);
        }
        assert forall|x: K| a.last().deps@.contains(x) implies b.last().deps@.contains(x) by {
            let j = choose|j: int| 0 <= j < a.last().deps@.len() && a.last().deps@[j] == x;
            assert(b.last().deps@[j] == x);
        }
    }
}

impl<K: PartialEq + Clone, V> Db<K, V> {
    /// `new` is `self` after the innermost running query read the memo `m`
    /// of `key` without changing it, with `stats` counted.
    pub open spec fn read_back(&self, new: Self, key: K, m: Memo<K, V>, stats: Stats) -> bool {
        &&& self.same_memos(new)
        &&& new.counts() == stats
        &&& records(self.frames(), new.frames(), key, m.durability)
    }

    /// `new` is `self` after the memo `m` of `key` was found current because
    /// nothing at its durability or above changed since it was checked.
    pub open spec fn skips(&self, new: Self, key: K, m: Memo<K, V>) -> bool {
        &&& new.wf()
        &&& new.rev() == self.rev()
        &&& forall|d: Durability| #[trigger] new.last_change(d) == self.last_change(d)
        &&& new.flag() == self.flag()
        &&& new.memo(key) == Some(Memo { verified_at: self.rev(), ..m })
        &&& forall|k: K| k != key ==> #[trigger] new.memo(k) == self.memo(k)
        &&& new.counts() == self.counts().with_skipped()
        &&& new.aborts() == self.aborts()
        &&& new.computed() == self.computed()
        &&& self.keeps_reads(new)
        &&& records(self.frames(), new.frames(), key, m.durability)
    }

    /// The revision at which the memo of `key` was last checked.
    pub open spec fn checked_at(&self, key: K) -> u64 {
        self.memo(key)->Some_0.verified_at
    }

    /// Whether `dep` changed no later than the memo of `key` was last
    /// checked. A key that holds nothing counts as changed now.
    pub open spec fn unchanged_for(&self, dep: K, key: K) -> bool {
        match self.memo(dep) {
            Some(m) => m.changed_at <= self.checked_at(key),
            None => self.rev() <= self.checked_at(key),
        }
    }

    /// Whether the memo of `key` may be made current without computing it:
    /// it is current already, or none of the keys it read changed after it
    /// was last checked.
    pub open spec fn confirmable(&self, key: K) -> bool {
        self.memo(key) matches Some(m) && (is_fresh(m, self.rev()) || forall|j: int|
            0 <= j < m.deps@.len() ==> #[trigger] self.unchanged_for(m.deps@[j], key))
    }

    /// Whether the memo of `key` is out of date but may be kept as it is:
    /// a derived memo with a value, not being computed, each of whose
    /// dependencies is current, or an input, and changed no later than the
    /// memo was last checked.
    pub open spec fn reusable(&self, key: K) -> bool {
        &&& self.memo(key) matches Some(m)
        &&& !m.input
        &&& m.value is Some
        &&& !is_fresh(m, self.rev())
        &&& !self.running(key)
        &&& forall|j: int| 0 <= j < m.deps@.len() ==> #[trigger] self.settled_since(m.deps@[j], m.verified_at)
    }

    /// What stays true of a dependency found unchanged while other queries
    /// run in the same revision.
    pub open spec fn stays_unchanged_for(&self, dep: K, key: K) -> bool {
        ||| self.checked_at(key) == self.rev()
        ||| (self.memo(dep) matches Some(m) && (m.input || is_fresh(m, self.rev())) && m.changed_at
            <= self.checked_at(key))
    }

    proof fn lemma_stays_unchanged(a: Self, b: Self, dep: K, key: K)
        requires
            a.wf(),
            a.evolves(b),
            a.memo(key) is Some,
            a.stays_unchanged_for(dep, key),
        ensures
            b.memo(key) is Some,
            b.stays_unchanged_for(dep, key),
            b.unchanged_for(dep, key),
    {
        assert(memo_step(a.memo(key), b.memo(key), a.rev()));
        assert(memo_step(a.memo(dep), b.memo(dep), a.rev()));
        a.lemma_memo_bounds(key);
        b.lemma_memo_bounds(key);
        b.lemma_memo_bounds(dep);
    }

    /// What reading `key` gave: `r` is the result and `new` the database
    /// after it.
    pub open spec fn outcome(&self, new: Self, key: K, r: Result<Option<Arc<V>>, Cancelled>) -> bool {
        &&& match r {
            Err(_) => self.aborts().len() < new.aborts().len(),
            Ok(None) => self.memo(key) is None && self.same_memos(new) && new.frames() == self.frames()
                && new.counts() == self.counts(),
            Ok(Some(v)) => {
                &&& new.memo(key) matches Some(m)
                &&& m.value == Some(v)
                &&& m.input || is_fresh(m, new.rev())
                &&& new.frames().len() > 0 ==> new.frames().last().deps@.contains(key)
            },
        }
        &&& self.memo(key) matches Some(m) ==> {
            &&& !(r matches Ok(None))
            &&& m.input ==> (r is Err && self.gave_up(new, Abort::Flag)) || (r == Ok::<Option<Arc<V>>, Cancelled>(m.value) && self.read_back(
                new,
                key,
                m,
                self.counts(),
            ))
            &&& is_fresh(m, self.rev()) ==> (r is Err && self.gave_up(new, Abort::Flag)) || (r == Ok::<Option<Arc<V>>, Cancelled>(m.value)
                && self.read_back(new, key, m, self.counts().with_hit()))
            &&& !m.input && m.value is Some && !is_fresh(m, self.rev())
                && self.changed_at_or_above(m.durability) <= m.verified_at && !self.running(key)
                ==> (r is Err && self.gave_up(new, Abort::Flag)) || (r == Ok::<Option<Arc<V>>, Cancelled>(m.value) && self.skips(new, key, m))
            &&& !m.input && !is_fresh(m, self.rev()) && self.running(key) ==> r is Err && (self.gave_up(
                new,
                Abort::Flag,
            ) || self.gave_up(new, Abort::Cycle(key)))
        }
    }

    proof fn lemma_evolves_transitive(a: Self, b: Self, c: Self)
        requires
            a.evolves(b),
            b.evolves(c),
        ensures
            a.evolves(c),
    {
        assert forall|k: K| #[trigger] memo_step(a.memo(k), c.memo(k), a.rev()) by {
            assert(memo_step(a.memo(k), b.memo(k), a.rev()));
            assert(memo_step(b.memo(k), c.memo(k), b.rev()));
        }
        assert forall|d: Durability| #[trigger] c.last_change(d) == a.last_change(d) by {
            assert(c.last_change(d) == b.last_change(d));
            assert(b.last_change(d) == a.last_change(d));
        }
        lemma_stack_step_keys(a.frames(), b.frames());
        assert forall|i: int| 0 <= i < a.frames().len() implies c.memo(
            #[trigger] a.frames()[i].key,
        ) == a.memo(a.frames()[i].key) by {
            assert(b.frames()[i].key == a.frames()[i].key);
            assert(c.memo(b.frames()[i].key) == b.memo(b.frames()[i].key));
        }
        assert(c.aborts().take(a.aborts().len() as int) =~= c.aborts().take(b.aborts().len() as int).take(
            a.aborts().len() as int,
        ));
        assert(c.flag_reads().take(a.flag_reads().len() as int) =~= c.flag_reads().take(
            b.flag_reads().len() as int,
        ).take(a.flag_reads().len() as int));
        assert(c.computed().take(a.computed().len() as int) =~= c.computed().take(
            b.computed().len() as int,
        ).take(a.computed().len() as int));
        assert forall|k: K| #[trigger] a.justified(c, k) by {
            Self::lemma_justified_trans(a, b, c, k);
        }
        let fa = a.frames();
        let fb = b.frames();
        let fc = c.frames();
        assert forall|i: int| 0 <= i < fa.len() - 1 implies fc[i] == fa[i] by {
            assert(fb[i] == fa[i]);
        }
    }

    /// How a memo came to be current stays told as queries go on.
    /// An answer to a query whose memo was out of date is a value that a
    /// procedure computed for it in between, or the memo's old value, kept
    /// because no input at its durability or above changed since it was
    /// checked, or because every key it read is settled and changed no
    /// later than that.
    pub proof fn law_stale_answer_is_computed_or_unchanged(a: Self, b: Self, key: K, v: Arc<V>)
        requires
            a.evolves(b),
            a.memo(key) matches Some(m) && !m.input && !is_fresh(m, a.rev()),
            b.answered(key, v),
        ensures
            ({
                let m = a.memo(key)->Some_0;
                ||| exists|i: int|
                    a.computed().len() <= i < b.computed().len() && (#[trigger] b.computed()[i]).0 == key
                        && *v == b.computed()[i].1
                ||| {
                    &&& m.value == Some(v)
                    &&& (a.changed_at_or_above(m.durability) <= m.verified_at || forall|j: int|
                        0 <= j < m.deps@.len() ==> #[trigger] b.settled_since(m.deps@[j], m.verified_at))
                }
            }),
    {
        assert(a.justified(b, key));
        let m = a.memo(key)->Some_0;
        let n = b.memo(key)->Some_0;
        assert(n != m);
        if a.computed_in(b, key, n) {
            let i = choose|i: int|
                a.computed().len() <= i < b.computed().len() && (#[trigger] b.computed()[i]).0 == key
                    && (n.value matches Some(x) && *x == b.computed()[i].1);
            assert(*v == b.computed()[i].1);
        }
    }

    proof fn lemma_justified_trans(a: Self, b: Self, c: Self, k: K)
        requires
            a.evolves(b),
            b.rev() == c.rev(),
            b.keeps_computed(c),
            forall|x: K| #[trigger] memo_step(b.memo(x), c.memo(x), b.rev()),
            b.justified(c, k),
        ensures
            a.justified(c, k),
    {
        assert(a.justified(b, k));
        assert(memo_step(a.memo(k), b.memo(k), a.rev()));
        assert(memo_step(b.memo(k), c.memo(k), b.rev()));
        if a.memo(k) is Some {
            let o = a.memo(k)->Some_0;
            let nb = b.memo(k)->Some_0;
            let nc = c.memo(k)->Some_0;
            if nb == o {
                if nc != o && b.computed_in(c, k, nc) {
                    let i = choose|i: int|
                        b.computed().len() <= i < c.computed().len() && (#[trigger] c.computed()[i]).0 == k
                            && (nc.value matches Some(v) && *v == c.computed()[i].1);
                    assert(a.computed().len() <= i);
                }
            } else {
                assert(nc == nb);
                if a.computed_in(b, k, nb) {
                    let i = choose|i: int|
                        a.computed().len() <= i < b.computed().len() && (#[trigger] b.computed()[i]).0 == k
                            && (nb.value matches Some(v) && *v == b.computed()[i].1);
                    assert(c.computed().take(b.computed().len() as int)[i] == b.computed()[i]);
                    assert(c.computed()[i] == b.computed()[i]);
                } else {
                    assert forall|j: int| 0 <= j < o.deps@.len() && b.settled_since(o.deps@[j], o.verified_at)
                        implies #[trigger] c.settled_since(o.deps@[j], o.verified_at) by {
                        assert(memo_step(b.memo(o.deps@[j]), c.memo(o.deps@[j]), b.rev()));
                    }
                }
            }
        }
    }

    proof fn lemma_same_memos_evolves(a: Self, b: Self, key: K, d: Durability)
        requires
            a.same_memos(b),
            records(a.frames(), b.frames(), key, d),
        ensures
            a.evolves(b),
    {
        assert(b.aborts().take(a.aborts().len() as int) =~= a.aborts());
        assert(b.computed().take(a.computed().len() as int) =~= a.computed());
        assert forall|k: K| #[trigger] a.justified(b, k) by {
            assert(b.memo(k) == a.memo(k));
        }
        lemma_records_step(a.frames(), b.frames(), key, d);
        assert forall|k: K| #[trigger] memo_step(a.memo(k), b.memo(k), a.rev()) by {
            assert(b.memo(k) == a.memo(k));
        }
    }

    proof fn lemma_single_step(a: Self, b: Self, key: K)
        requires
            a.wf(),
            b.wf(),
            b.rev() == a.rev(),
            forall|d: Durability| #[trigger] b.last_change(d) == a.last_change(d),
            b.flag() == a.flag(),
            b.frames() == a.frames(),
            forall|k: K| k != key ==> #[trigger] b.memo(k) == a.memo(k),
            memo_step(a.memo(key), b.memo(key), a.rev()),
            !a.running(key),
            b.aborts() == a.aborts(),
            b.flag_reads() == a.flag_reads(),
            a.keeps_computed(b) || b.computed() == a.computed(),
            a.justified(b, key),
        ensures
            a.evolves(b),
    {
        assert(b.computed().take(a.computed().len() as int) =~= a.computed()) by {
            if b.computed() == a.computed() {
                assert(b.computed().take(a.computed().len() as int) =~= a.computed());
            }
        }
        assert(b.aborts().take(a.aborts().len() as int) =~= a.aborts());
        assert(b.flag_reads().take(a.flag_reads().len() as int) =~= a.flag_reads());
        assert forall|k: K| #[trigger] a.justified(b, k) by {
            if k != key {
                assert(b.memo(k) == a.memo(k));
            }
        }
        assert forall|k: K| #[trigger] memo_step(a.memo(k), b.memo(k), a.rev()) by {
            if k != key {
                assert(b.memo(k) == a.memo(k));
            }
        }
        assert forall|i: int| 0 <= i < a.frames().len() implies b.memo(
            #[trigger] a.frames()[i].key,
        ) == a.memo(a.frames()[i].key) by {
            assert(a.frames()[i].key != key);
        }
    }
}

impl<K: PartialEq + Clone, V> Db<K, V> {
    /// Giving a query up changes nothing but the record of given-up queries.
    proof fn lemma_gave_up(a: Self, b: Self, x: Abort<K>)
        requires
            a.wf(),
            a.gave_up(b, x),
            a.keeps_reads(b),
        ensures
            a.evolves(b),
            b.frames() == a.frames(),
            b.counts() == a.counts(),
            forall|k: K| #[trigger] b.memo(k) == a.memo(k),
            b.aborts() == a.aborts().push(x),
            b.computed() == a.computed(),
    {
        assert(b.aborts().take(a.aborts().len() as int) =~= a.aborts());
        assert(b.computed().take(a.computed().len() as int) =~= a.computed());
        assert forall|k: K| #[trigger] memo_step(a.memo(k), b.memo(k), a.rev()) && a.justified(b, k) by {
            assert(b.memo(k) == a.memo(k));
        }
    }

    /// Gives a query up for reason `x`.
    fn give_up(&mut self, Ghost(x): Ghost<Abort<K>>)
        requires
            old(self).wf(),
        ensures
            old(self).gave_up(*final(self), x),
            final(self).flag_reads() == old(self).flag_reads(),
    {
        proof {
            self.aborts@ = self.aborts@.push(x);
        }
    }
}

impl<K: PartialEq + Clone, V> Db<K, V> {
    /// A read of the flag changes nothing a query depends on.
    proof fn lemma_only_read(a: Self, b: Self)
        requires
            a.wf(),
            a.only_read(b),
        ensures
            a.evolves(b),
            a.same_memos(b),
            b.frames() == a.frames(),
            b.counts() == a.counts(),
            b.aborts() == a.aborts(),
            b.computed() == a.computed(),
    {
        assert(b.aborts().take(a.aborts().len() as int) =~= a.aborts());
        assert(b.flag_reads().take(a.flag_reads().len() as int) =~= a.flag_reads());
        assert(b.computed().take(a.computed().len() as int) =~= a.computed());
        assert forall|k: K| #[trigger] memo_step(a.memo(k), b.memo(k), a.rev()) && a.justified(b, k) by {
            assert(b.memo(k) == a.memo(k));
        }
    }

    /// A later state whose records extend `b`'s extend those of `a` too.
    proof fn lemma_keeps_reads_trans(a: Self, b: Self, c: Self)
        requires
            a.keeps_reads(b),
            b.keeps_reads(c),
        ensures
            a.keeps_reads(c),
    {
        assert(c.flag_reads().take(a.flag_reads().len() as int) =~= c.flag_reads().take(
            b.flag_reads().len() as int,
        ).take(a.flag_reads().len() as int));
    }

    /// A cause found between `b` and `c` lies between `a` and `c` as well.
    proof fn lemma_cause_widen(a: Self, b: Self, c: Self)
        requires
            a.evolves(b),
            b.cause_in(c),
        ensures
            a.cause_in(c),
    {
        if exists|i: int| b.flag_reads().len() <= i < c.flag_reads().len() && #[trigger] c.flag_reads()[i] {
            let i = choose|i: int| b.flag_reads().len() <= i < c.flag_reads().len() && #[trigger] c.flag_reads()[i];
            assert(a.flag_reads().len() <= i < c.flag_reads().len() && c.flag_reads()[i]);
        } else {
            let j = choose|j: int|
                b.aborts().len() <= j < c.aborts().len() && !((#[trigger] c.aborts()[j]) is Flag);
            assert(a.aborts().len() <= j < c.aborts().len() && !(c.aborts()[j] is Flag));
        }
    }

    /// What a fetch after a read of the flag gives is what the fetch gives
    /// counted from before the read.
    proof fn lemma_outcome_after_read(a: Self, b: Self, c: Self, key: K, r: Result<Option<Arc<V>>, Cancelled>)
        requires
            a.wf(),
            a.only_read(b),
            b.evolves(c),
            b.outcome(c, key, r),
        ensures
            a.evolves(c),
            a.outcome(c, key, r),
    {
        Self::lemma_only_read(a, b);
        Self::lemma_evolves_transitive(a, b, c);
        Self::lemma_keeps_reads_trans(a, b, c);
        assert(forall|k: K| #[trigger] b.memo(k) == a.memo(k));
        assert(forall|k: K| b.running(k) == a.running(k));
        assert(forall|d: Durability| #[trigger] b.changed_at_or_above(d) == a.changed_at_or_above(d));
    }
}

impl<K: PartialEq + Clone, V> Db<K, V> {
    /// Computes `memos[i]` again under a frame of its own. A result with the
    /// fingerprint it had keeps the revision at which it last changed.
    fn recompute<P: Compute<K, V>>(&mut self, i: usize, prog: &P) -> (r: Result<(), Cancelled>)
        requires
            old(self).wf(),
            i < old(self).memos.len(),
            !old(self).memos@[i as int].memo.input,
            !is_fresh(old(self).memos@[i as int].memo, old(self).rev()),
            !old(self).running(old(self).memos@[i as int].key),
        ensures
            old(self).evolves(*final(self)),
            final(self).frames() == old(self).frames(),
            r is Ok ==> (final(self).memo(old(self).memos@[i as int].key) matches Some(m) && is_fresh(
                m,
                final(self).rev(),
            )),
            r is Err ==> old(self).aborts().len() < final(self).aborts().len(),
            r is Err ==> old(self).cause_in(*final(self)),
    {
        let ghost start = *self;
        let key = copy_key(&self.memos[i].key);
        proof {
            lemma_find_at(self.memos@, i as int);
        }
        let frame = Frame { key: copy_key(&key), deps: Vec::new(), durability: Durability::High };
        self.stack.push(frame);
        let ghost pushed = *self;
        assert(pushed.frames() == start.frames().push(frame));
        assert(pushed.frames()[start.frames().len() as int].key == key);
        let result = prog.compute(self, &key);
        let ghost mid = *self;
        assert(mid.memo(key) == pushed.memo(key));
        let top = self.stack.pop().unwrap();
        let ghost popped = *self;
        proof {
            assert(popped.frames() =~= start.frames());
            assert forall|k: K| #[trigger] memo_step(start.memo(k), popped.memo(k), start.rev()) by {
                assert(memo_step(pushed.memo(k), mid.memo(k), pushed.rev()));
            }
            assert forall|j: int| 0 <= j < start.frames().len() implies popped.memo(
                #[trigger] start.frames()[j].key,
            ) == start.memo(start.frames()[j].key) by {
                assert(pushed.frames()[j] == start.frames()[j]);
            }
            assert forall|d: Durability| #[trigger] popped.last_change(d) == start.last_change(d) by {
                assert(mid.last_change(d) == pushed.last_change(d));
            }
            assert(popped.computed().take(start.computed().len() as int) =~= start.computed()) by {
                assert(mid.computed().take(pushed.computed().len() as int) == pushed.computed());
            }
            assert forall|k: K| #[trigger] start.justified(popped, k) by {
                assert(pushed.justified(mid, k));
                assert(pushed.memo(k) == start.memo(k));
                if let (Some(o), Some(n)) = (start.memo(k), popped.memo(k)) {
                    if n != o && !start.computed_in(popped, k, n) {
                        assert(!pushed.computed_in(mid, k, n));
                        assert forall|j: int| 0 <= j < o.deps@.len() && mid.settled_since(o.deps@[j], o.verified_at)
                            implies #[trigger] popped.settled_since(o.deps@[j], o.verified_at) by {
                            assert(popped.memo(o.deps@[j]) == mid.memo(o.deps@[j]));
                        }
                    }
                }
            }
            assert(start.evolves(popped));
        }
        match result {
            Err(c) => {
                self.give_up(Ghost(Abort::Failed(key)));
                proof {
                    assert(popped.flag_reads().take(popped.flag_reads().len() as int) =~= popped.flag_reads());
                    Self::lemma_gave_up(popped, *self, Abort::Failed(key));
                    Self::lemma_evolves_transitive(start, popped, *self);
                    assert(!(self.aborts()[popped.aborts().len() as int] is Flag));
                    Self::lemma_cause_widen(start, popped, *self);
                }
                Err(c)
            },
            Ok((value, fingerprint)) => {
                let j = self.find(&key).unwrap();
                let same = self.memos[j].memo.value.is_some() && self.memos[j].memo.fingerprint
                    == fingerprint;
                let rev = self.revision;
                let changed_at = if same {
                    self.memos[j].memo.changed_at
                } else {
                    rev
                };
                proof {
                    self.computed@ = self.computed@.push((key, value));
                }
                let ghost logged = *self;
                let memo = Memo {
                    value: Some(Arc::new(value)),
                    fingerprint,
                    deps: top.deps,
                    durability: top.durability,
                    verified_at: rev,
                    changed_at,
                    input: false,
                };
                proof {
                    lemma_find_update(self.memos@, j as int, Entry { key, memo });
                }
                self.memos[j].memo = memo;
                assert(self.memos@ =~= popped.memos@.update(j as int, Entry { key, memo }));
                if same {
                    self.stats.cut_off = bumped(self.stats.cut_off);
                } else {
                    self.stats.computed = bumped(self.stats.computed);
                }
                proof {
                    assert(self.computed() == popped.computed().push((key, value)));
                    assert(self.computed().take(popped.computed().len() as int) =~= popped.computed());
                    assert(self.computed()[popped.computed().len() as int].0 == key);
                    assert(popped.computed_in(*self, key, memo));
                    Self::lemma_single_step(popped, *self, key);
                    Self::lemma_evolves_transitive(start, popped, *self);
                }
                Ok(())
            },
        }
    }

    /// Brings the memo of `key` up to date and hands out its value; `None`
    /// for a key that holds nothing. The walk over dependencies goes at
    /// most `fuel` levels deep; below that the memo is computed again.
    fn fetch<P: Compute<K, V>>(&mut self, key: &K, prog: &P, fuel: usize) -> (r: Result<
        Option<Arc<V>>,
        Cancelled,
    >)
        requires
            old(self).wf(),
        ensures
            old(self).evolves(*final(self)),
            old(self).outcome(*final(self), *key, r),
            r is Err ==> old(self).cause_in(*final(self)),
            fuel > 0 && old(self).reusable(*key) ==> r is Err || (r == Ok::<Option<Arc<V>>, Cancelled>(
                old(self).memo(*key)->Some_0.value,
            ) && final(self).computed() == old(self).computed()),
        decreases fuel, 2nat,
    {
        let ghost start = *self;
        let flag = self.check_cancelled();
        let ghost read = *self;
        proof {
            Self::lemma_only_read(start, read);
        }
        if flag.is_err() {
            self.give_up(Ghost(Abort::Flag));
            proof {
                assert(read.flag_reads().take(read.flag_reads().len() as int) =~= read.flag_reads());
                Self::lemma_gave_up(read, *self, Abort::Flag);
                Self::lemma_evolves_transitive(start, read, *self);
                assert(self.flag_reads()[start.flag_reads().len() as int]);
            }
            return Err(Cancelled);
        }
        let r = self.fetch_body(key, prog, fuel);
        proof {
            assert(forall|k: K| #[trigger] read.memo(k) == start.memo(k));
            assert(read.computed() == start.computed());
            if start.reusable(*key) {
                assert forall|i: int| 0 <= i < read.frames().len() implies read.frames()[i].key != *key by {
                    assert(read.frames()[i] == start.frames()[i]);
                }
                let m = start.memo(*key)->Some_0;
                assert forall|j: int| 0 <= j < m.deps@.len() implies #[trigger] read.settled_since(m.deps@[j], m.verified_at) by {
                    assert(start.settled_since(m.deps@[j], m.verified_at));
                }
            }
            Self::lemma_outcome_after_read(start, read, *self, *key, r);
            if r is Err {
                Self::lemma_cause_widen(start, read, *self);
            }
        }
        r
    }

    /// The part of [`Db::fetch`] after the flag was found lowered.
    fn fetch_body<P: Compute<K, V>>(&mut self, key: &K, prog: &P, fuel: usize) -> (r: Result<
        Option<Arc<V>>,
        Cancelled,
    >)
        requires
            old(self).wf(),
        ensures
            old(self).evolves(*final(self)),
            old(self).outcome(*final(self), *key, r),
            r is Err ==> old(self).cause_in(*final(self)),
            fuel > 0 && old(self).reusable(*key) ==> r is Err || (r == Ok::<Option<Arc<V>>, Cancelled>(
                old(self).memo(*key)->Some_0.value,
            ) && final(self).computed() == old(self).computed()),
        decreases fuel, 1nat,
    {
        let ghost start = *self;
        assert(start.aborts().take(start.aborts().len() as int) =~= start.aborts());
        assert(start.flag_reads().take(start.flag_reads().len() as int) =~= start.flag_reads());
        assert(start.computed().take(start.computed().len() as int) =~= start.computed());
        let i = match self.find(key) {
            None => {
                return Ok(None);
            },
            Some(i) => i,
        };
        let ghost m = self.memos@[i as int].memo;
        if self.memos[i].memo.input {
            let v = self.finish(i);
            proof {
                Self::lemma_same_memos_evolves(start, *self, *key, m.durability);
                lemma_records_step(start.frames(), self.frames(), *key, m.durability);
            }
            return Ok(Some(v));
        }
        if self.memos[i].memo.value.is_some() && self.memos[i].memo.verified_at == self.revision {
            self.stats.hit = bumped(self.stats.hit);
            let v = self.finish(i);
            proof {
                Self::lemma_same_memos_evolves(start, *self, *key, m.durability);
                lemma_records_step(start.frames(), self.frames(), *key, m.durability);
            }
            return Ok(Some(v));
        }
        if self.is_running(key) {
            self.give_up(Ghost(Abort::Cycle(*key)));
            proof {
                Self::lemma_gave_up(start, *self, Abort::Cycle(*key));
                assert(!(self.aborts()[start.aborts().len() as int] is Flag));
            }
            return Err(Cancelled);
        }
        if self.memos[i].memo.value.is_some() {
            let d = self.memos[i].memo.durability;
            if self.changed_at_or_above_exec(d) <= self.memos[i].memo.verified_at {
                self.stats.skipped = bumped(self.stats.skipped);
                let rev = self.revision;
                let ghost e = Entry { key: *key, memo: Memo { verified_at: rev, ..m } };
                proof {
                    lemma_find_update(self.memos@, i as int, e);
                }
                self.memos[i].memo.verified_at = rev;
                assert(self.memos@ =~= start.memos@.update(i as int, e));
                let ghost skipped = *self;
                proof {
                    Self::lemma_single_step(start, skipped, *key);
                }
                let v = self.finish(i);
                proof {
                    Self::lemma_same_memos_evolves(skipped, *self, *key, d);
                    Self::lemma_evolves_transitive(start, skipped, *self);
                    lemma_records_step(skipped.frames(), self.frames(), *key, d);
                }
                return Ok(Some(v));
            }
            if fuel > 0 {
                let deps = copy_keys(&self.memos[i].memo.deps);
                let unchanged = match self.deps_unchanged(key, &deps, prog, fuel) {
                    Err(c) => {
                        return Err(c);
                    },
                    Ok(b) => b,
                };
                if unchanged {
                    let ghost walked = *self;
                    proof {
                        assert(memo_step(start.memo(*key), walked.memo(*key), start.rev()));
                        assert(deps@ == start.memo(*key)->Some_0.deps@);
                        assert(walked.confirmable(*key));
                        lemma_stack_step_keys(start.frames(), walked.frames());
                        let wm = walked.memo(*key)->Some_0;
                        if !is_fresh(wm, walked.rev()) {
                            assert(wm == m);
                            assert(m.verified_at != walked.rev());
                            assert forall|jj: int| 0 <= jj < wm.deps@.len() implies #[trigger] walked.settled_since(
                                wm.deps@[jj],
                                wm.verified_at,
                            ) by {
                                assert(walked.stays_unchanged_for(deps@[jj], *key));
                            }
                        }
                    }
                    let v = self.confirm(key);
                    proof {
                        Self::lemma_evolves_transitive(start, walked, *self);
                    }
                    return Ok(Some(v));
                }
            }
        }
        let ghost before = *self;
        proof {
            assert(memo_step(start.memo(*key), before.memo(*key), start.rev()));
            lemma_stack_step_keys(start.frames(), before.frames());
        }
        let r = self.renew(key, prog);
        proof {
            Self::lemma_evolves_transitive(start, before, *self);
            if r is Err {
                Self::lemma_cause_widen(start, before, *self);
            }
        }
        match r {
            Ok(v) => Ok(Some(v)),
            Err(c) => Err(c),
        }
    }

    /// Whether none of `deps` changed since the memo of `key` was last
    /// checked. Each is brought up to date first, in order, and the walk
    /// stops at the first that changed.
    fn deps_unchanged<P: Compute<K, V>>(&mut self, key: &K, deps: &Vec<K>, prog: &P, fuel: usize) -> (r: Result<
        bool,
        Cancelled,
    >)
        requires
            old(self).wf(),
            old(self).memo(*key) is Some,
            fuel > 0,
        ensures
            old(self).evolves(*final(self)),
            r is Err ==> old(self).aborts().len() < final(self).aborts().len(),
            r is Err ==> old(self).cause_in(*final(self)),
            r matches Ok(b) ==> (b <==> forall|j: int|
                0 <= j < deps@.len() ==> #[trigger] final(self).unchanged_for(deps@[j], *key)),
            r matches Ok(true) ==> forall|j: int|
                0 <= j < deps@.len() ==> #[trigger] final(self).stays_unchanged_for(deps@[j], *key),
            (forall|j: int| 0 <= j < deps@.len() ==> #[trigger] old(self).settled_since(deps@[j], old(self).checked_at(*key)))
                ==> r is Err || (r == Ok::<bool, Cancelled>(true) && old(self).same_memos(*final(self))),
        decreases fuel, 0nat,
    {
        let ghost start = *self;
        let ghost all_settled = forall|j: int| 0 <= j < deps@.len() ==> #[trigger] start.settled_since(deps@[j], start.checked_at(*key));
        let mut j: usize = 0;
        assert(start.aborts().take(start.aborts().len() as int) =~= start.aborts());
        assert(start.flag_reads().take(start.flag_reads().len() as int) =~= start.flag_reads());
        assert(start.computed().take(start.computed().len() as int) =~= start.computed());
        while j < deps.len()
            invariant
                start.evolves(*self),
                start == *old(self),
                fuel > 0,
                j <= deps.len(),
                self.memo(*key) is Some,
                forall|jj: int| 0 <= jj < j ==> #[trigger] self.stays_unchanged_for(deps@[jj], *key),
                all_settled == (forall|jj: int| 0 <= jj < deps@.len() ==> #[trigger] start.settled_since(deps@[jj], start.checked_at(*key))),
                all_settled ==> start.same_memos(*self),
            decreases deps.len() - j,
        {
            let ghost before = *self;
            proof {
                if all_settled {
                    assert(start.settled_since(deps@[j as int], start.checked_at(*key)));
                    assert(before.memo(deps@[j as int]) == start.memo(deps@[j as int]));
                }
            }
            let got = self.fetch(&deps[j], prog, fuel - 1);
            proof {
                if all_settled && got is Ok {
                    assert(before.same_memos(*self));
                    Self::lemma_keeps_reads_trans(start, before, *self);
                    assert(forall|k: K| #[trigger] self.memo(k) == start.memo(k));
                }
            }
            proof {
                Self::lemma_evolves_transitive(start, before, *self);
                assert forall|jj: int| 0 <= jj < j implies #[trigger] self.stays_unchanged_for(deps@[jj], *key) by {
                    Self::lemma_stays_unchanged(before, *self, deps@[jj], *key);
                }
                assert(memo_step(before.memo(*key), self.memo(*key), before.rev()));
            }
            if got.is_err() {
                proof {
                    Self::lemma_cause_widen(start, before, *self);
                }
                return Err(Cancelled);
            }
            let dep_changed = match self.find(&deps[j]) {
                Some(x) => self.memos[x].memo.changed_at,
                None => self.revision,
            };
            let verified_at = match self.find(key) {
                Some(x) => self.memos[x].memo.verified_at,
                None => 0,
            };
            if dep_changed > verified_at {
                assert(!self.unchanged_for(deps@[j as int], *key));
                return Ok(false);
            }
            proof {
                assert(self.unchanged_for(deps@[j as int], *key));
                self.lemma_memo_bounds(*key);
                self.lemma_memo_bounds(deps@[j as int]);
                assert(self.stays_unchanged_for(deps@[j as int], *key));
            }
            j = j + 1;
        }
        proof {
            assert forall|jj: int| 0 <= jj < deps@.len() implies #[trigger] self.unchanged_for(deps@[jj], *key) by {
                assert(self.stays_unchanged_for(deps@[jj], *key));
                self.lemma_memo_bounds(*key);
                self.lemma_memo_bounds(deps@[jj]);
            }
        }
        Ok(true)
    }

    /// Marks the memo of `key`, found unchanged, as current and hands out
    /// its value.
    fn confirm(&mut self, key: &K) -> (v: Arc<V>)
        requires
            old(self).wf(),
            old(self).memo(*key) matches Some(m) && !m.input && m.value is Some,
            old(self).confirmable(*key),
            old(self).memo(*key) matches Some(m) && (is_fresh(m, old(self).rev()) || forall|j: int|
                0 <= j < m.deps@.len() ==> #[trigger] old(self).settled_since(m.deps@[j], m.verified_at)),
            !old(self).running(*key),
        ensures
            final(self).memo(*key) == Some(Memo { verified_at: old(self).rev(), ..old(self).memo(*key)->Some_0 }),
            old(self).evolves(*final(self)),
            final(self).memo(*key) matches Some(m) && m.value == Some(v) && is_fresh(
                m,
                final(self).rev(),
            ),
            final(self).frames().len() > 0 ==> final(self).frames().last().deps@.contains(*key),
            final(self).computed() == old(self).computed(),
    {
        let ghost start = *self;
        let x = self.find(key).unwrap();
        let ghost mm = self.memos@[x as int].memo;
        let rev = self.revision;
        let ghost e = Entry { key: *key, memo: Memo { verified_at: rev, ..mm } };
        proof {
            lemma_find_update(self.memos@, x as int, e);
        }
        self.memos[x].memo.verified_at = rev;
        assert(self.memos@ =~= start.memos@.update(x as int, e));
        self.stats.verified = bumped(self.stats.verified);
        let ghost verified = *self;
        proof {
            if is_fresh(mm, rev) {
                assert(Memo { verified_at: rev, ..mm } == mm);
            } else {
                assert forall|j: int| 0 <= j < mm.deps@.len() implies #[trigger] verified.settled_since(
                    mm.deps@[j],
                    mm.verified_at,
                ) by {
                    assert(start.settled_since(mm.deps@[j], mm.verified_at));
                    if mm.deps@[j] != *key {
                        assert(verified.memo(mm.deps@[j]) == start.memo(mm.deps@[j]));
                    }
                }
            }
            Self::lemma_single_step(start, verified, *key);
        }
        let v = self.finish(x);
        proof {
            Self::lemma_same_memos_evolves(verified, *self, *key, mm.durability);
            Self::lemma_evolves_transitive(start, verified, *self);
            lemma_records_step(verified.frames(), self.frames(), *key, mm.durability);
        }
        v
    }

    /// Computes the memo of `key` again, unless it became current in the
    /// meantime, and hands out its value.
    fn renew<P: Compute<K, V>>(&mut self, key: &K, prog: &P) -> (r: Result<Arc<V>, Cancelled>)
        requires
            old(self).wf(),
            old(self).memo(*key) matches Some(m) && !m.input,
            !old(self).running(*key),
        ensures
            old(self).evolves(*final(self)),
            r matches Ok(v) ==> (final(self).memo(*key) matches Some(m) && m.value == Some(v)
                && is_fresh(m, final(self).rev())),
            r is Ok ==> (final(self).frames().len() > 0 ==> final(self).frames().last().deps@.contains(
                *key,
            )),
            r is Err ==> old(self).aborts().len() < final(self).aborts().len(),
            r is Err ==> old(self).cause_in(*final(self)),
    {
        let ghost start = *self;
        let x = self.find(key).unwrap();
        if self.memos[x].memo.value.is_some() && self.memos[x].memo.verified_at == self.revision {
            let ghost cur = self.memos@[x as int].memo;
            let v = self.finish(x);
            proof {
                Self::lemma_same_memos_evolves(start, *self, *key, cur.durability);
                lemma_records_step(start.frames(), self.frames(), *key, cur.durability);
            }
            return Ok(v);
        }
        let done = self.recompute(x, prog);
        if done.is_err() {
            return Err(Cancelled);
        }
        let ghost computed = *self;
        let y = self.find(key).unwrap();
        let ghost cur = self.memos@[y as int].memo;
        let v = self.finish(y);
        proof {
            Self::lemma_same_memos_evolves(computed, *self, *key, cur.durability);
            Self::lemma_evolves_transitive(start, computed, *self);
            lemma_records_step(computed.frames(), self.frames(), *key, cur.durability);
        }
        Ok(v)
    }
}

impl<K: PartialEq + Clone, V> Db<K, V> {
    /// What reading the input `key` gave: `r` is the result and `new` the
    /// database after it.
    pub open spec fn reads(&self, new: Self, key: K, r: Result<Option<Arc<V>>, Cancelled>) -> bool {
        &&& self.evolves(new)
        &&& new.flag_reads() == self.flag_reads().push(r is Err)
        &&& match r {
            Err(_) => self.gave_up(new, Abort::Flag),
            Ok(None) => self.same_memos(new) && new.frames() == self.frames() && new.counts() == self.counts()
                && !(self.memo(key) matches Some(m) && m.input),
            Ok(Some(v)) => {
                &&& self.memo(key) matches Some(m)
                &&& m.input
                &&& m.value == Some(v)
                &&& self.read_back(new, key, m, self.counts())
            },
        }
        &&& (self.memo(key) matches Some(m) && m.input) ==> !(r matches Ok(None))
    }

    /// A derived query. The first time `key` is asked it is registered as
    /// derived; `prog` computes it, and computes again what it read when
    /// that is out of date. A key that holds an input reads the input.
    /// `Err` comes only where a read of the flag found it raised, or a
    /// procedure failed, or a query asked for itself; each is recorded
    /// ([`Db::flag_reads`], [`Db::aborts`]). Where none of that happened
    /// the answer is owed. An answer that was out of date is either what
    /// `prog` computed in this call ([`Db::computed`]) or the old value,
    /// kept because nothing it depends on changed since it was checked
    /// ([`Db::justified`]). Conversely, a memo whose dependencies are all
    /// current and unchanged since it was checked ([`Db::reusable`]) keeps
    /// its value, and no procedure runs.
    pub fn query<P: Compute<K, V>>(&mut self, key: K, prog: &P) -> (r: Result<Arc<V>, Cancelled>)
        requires
            old(self).wf(),
        ensures
            old(self).evolves(*final(self)),
            old(self).justified(*final(self), key),
            old(self).reusable(key) ==> (r matches Ok(v) ==> old(self).memo(key)->Some_0.value == Some(v)
                && final(self).computed() == old(self).computed()),

            old(self).outcome(*final(self), key, as_read(r)),
            r is Err ==> old(self).cause_in(*final(self)),
    {
        let ghost start = *self;
        if self.find(&key).is_none() {
            let memo = Memo {
                value: None,
                fingerprint: 0,
                deps: Vec::new(),
                durability: Durability::High,
                verified_at: 0,
                changed_at: 0,
                input: false,
            };
            let k = copy_key(&key);
            proof {
                lemma_find_push(self.memos@, Entry { key, memo });
                if start.running(key) {
                    let i = choose|i: int|
                        0 <= i < start.frames().len() && start.frames()[i].key == key;
                    assert(has_key(start.memos@, start.stack@[i].key));
                }
            }
            self.memos.push(Entry { key: k, memo });
            proof {
                Self::lemma_single_step(start, *self, key);
            }
        }
        let ghost registered = *self;
        assert(start.aborts().take(start.aborts().len() as int) =~= start.aborts());
        assert(start.flag_reads().take(start.flag_reads().len() as int) =~= start.flag_reads());
        assert(start.computed().take(start.computed().len() as int) =~= start.computed());
        let fuel = self.memos.len();
        let got = self.fetch(&key, prog, fuel);
        proof {
            if start.reusable(key) {
                assert(registered == start);
                assert(fuel > 0) by {
                    start.lemma_registered_nonempty(key);
                }
            }
            Self::lemma_evolves_transitive(start, registered, *self);
            if got is Err {
                Self::lemma_cause_widen(start, registered, *self);
            }
        }
        match got {
            Err(c) => Err(c),
            Ok(o) => Ok(o.unwrap()),
        }
    }

    /// Reads an input set with [`Db::set_input`] and records it as read by
    /// the running query. A key that holds no input reads as `None`. It
    /// reads the flag once: `Err` exactly when that read found it raised.
    pub fn input(&mut self, key: K) -> (r: Result<Option<Arc<V>>, Cancelled>)
        requires
            old(self).wf(),
        ensures
            old(self).reads(*final(self), key, r),
    {
        let ghost start = *self;
        assert(start.aborts().take(start.aborts().len() as int) =~= start.aborts());
        assert(start.computed().take(start.computed().len() as int) =~= start.computed());
        if self.check_cancelled().is_err() {
            self.give_up(Ghost(Abort::Flag));
            proof {
                Self::lemma_gave_up(start, *self, Abort::Flag);
            }
            return Err(Cancelled);
        }
        match self.find(&key) {
            Some(i) => {
                if self.memos[i].memo.input {
                    let ghost m = self.memos@[i as int].memo;
                    let v = self.finish(i);
                    proof {
                        Self::lemma_same_memos_evolves(start, *self, key, m.durability);
                    }
                    Ok(Some(v))
                } else {
                    Ok(None)
                }
            },
            None => Ok(None),
        }
    }

    /// A memo that a query left current keeps its value for the rest of the
    /// revision, whatever other queries run in the meantime.
    pub proof fn law_an_answer_lasts_the_revision(a: Self, b: Self, key: K, v: Arc<V>)
        requires
            a.answered(key, v),
            a.evolves(b),
        ensures
            b.answered(key, v),
    {
        assert(memo_step(a.memo(key), b.memo(key), a.rev()));
    }

    /// Asked twice within one revision, a derived query is computed at most
    /// once: the second time it is a hit that hands out the same value, or
    /// it is cancelled before anything happens.
    pub proof fn law_a_second_query_is_a_hit(
        a: Self,
        b: Self,
        c: Self,
        d: Self,
        key: K,
        v: Arc<V>,
        r: Result<Option<Arc<V>>, Cancelled>,
    )
        requires
            a.wf(),
            a.evolves(b),
            a.outcome(b, key, Ok(Some(v))),
            b.memo(key) matches Some(m) && !m.input,
            b.evolves(c),
            c.outcome(d, key, r),
        ensures
            (r is Err && c.gave_up(d, Abort::Flag)) || (r == Ok::<Option<Arc<V>>, Cancelled>(Some(v)) && c.same_memos(d)
                && d.counts() == c.counts().with_hit()),
    {
        Self::law_an_answer_lasts_the_revision(b, c, key, v);
    }

    /// Once an input is set to new content, reading it gives back what was
    /// written, unless the read is cancelled.
    pub proof fn law_a_read_gives_back_the_write(
        a: Self,
        b: Self,
        c: Self,
        key: K,
        value: V,
        fp: Fingerprint,
        d: Durability,
        r: Result<Option<Arc<V>>, Cancelled>,
    )
        requires
            a.sets_input(b, key, value, fp, d),
            !a.same_content(key, fp),
            b.reads(c, key, r),
        ensures
            r is Err || (r matches Ok(Some(x)) && *x == value),
    {
    }

    /// Queries never change an input.
    pub proof fn law_queries_leave_inputs_alone(a: Self, b: Self, key: K)
        requires
            a.evolves(b),
            a.memo(key) matches Some(m) && m.input,
        ensures
            b.memo(key) == a.memo(key),
    {
        assert(memo_step(a.memo(key), b.memo(key), a.rev()));
    }

    /// Early cutoff: a memo that was computed again with the fingerprint it
    /// had keeps the revision at which it last changed, so what read it is
    /// not computed again on its account.
    pub proof fn law_same_fingerprint_is_no_change(a: Self, b: Self, key: K)
        requires
            a.evolves(b),
            a.memo(key) matches Some(m) && m.value is Some,
            b.memo(key) matches Some(n) && n.fingerprint == a.memo(key)->Some_0.fingerprint,
        ensures
            b.memo(key)->Some_0.changed_at == a.memo(key)->Some_0.changed_at,
    {
        assert(memo_step(a.memo(key), b.memo(key), a.rev()));
    }
}

/// The fingerprint of a string, as input fingerprints are usually made.
pub fn fingerprint_str(s: &str) -> (r: Fingerprint)
    ensures
        r == DefaultHasher::spec_finish(seq![s.spec_bytes(), seq![0xffu8]]),
{
    let mut h = DefaultHasher::new();
    h.write(s.as_bytes());
    let end: [u8; 1] = [0xff];
    assert(end@ =~= seq![0xffu8]);
    h.write(end.as_slice());
    let r = h.finish();
    assert(h@ =~= seq![s.spec_bytes(), seq![0xffu8]]);
    r
}

/// Feeds `v` to the hasher through its `Hash` implementation.
#[verifier::external_body]
fn feed<T: Hash>(v: &T, h: &mut DefaultHasher) {
    v.hash(h)
}

/// The fingerprint of any value that implements `Hash`: the digest of what
/// its `Hash` implementation writes into a fresh default hasher. Which
/// bytes those are is the implementation's choice (the user's, for the keys
/// and values a user defines; std's, whose documentation does not give
/// them), so the contract says only that the result is the hasher's digest
/// of the writes made. A library fingerprint whose writes matter is made
/// with `DefaultHasher::write` directly, as [`fingerprint_str`] is.
pub fn fingerprint_of<T: Hash>(v: &T) -> (r: Fingerprint)
    ensures
        exists|s: Seq<Seq<u8>>| r == DefaultHasher::spec_finish(s),
{
    let mut h = DefaultHasher::new();
    feed(v, &mut h);
    h.finish()
}

} // verus!
