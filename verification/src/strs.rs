//! Collections keyed by strings: an ordered set of names and a map from
//! names to strings. Strings are ordered by their characters, which is the
//! order of their UTF-8 bytes.

use vstd::prelude::*;
use crate::text::{chars_of, copy_string, str_eq};

verus! {

/// Whether `a` comes strictly before `b` in lexicographic order.
pub open spec fn seq_less(a: Seq<char>, b: Seq<char>) -> bool
    decreases a.len(),
{
    if a.len() == 0 {
        b.len() > 0
    } else if b.len() == 0 {
        false
    } else if a[0] != b[0] {
        a[0] < b[0]
    } else {
        seq_less(a.drop_first(), b.drop_first())
    }
}

pub proof fn lemma_less_irreflexive(a: Seq<char>)
    ensures
        !seq_less(a, a),
    decreases a.len(),
{
    if a.len() > 0 {
        lemma_less_irreflexive(a.drop_first());
    }
}

pub proof fn lemma_less_total(a: Seq<char>, b: Seq<char>)
    ensures
        seq_less(a, b) || a == b || seq_less(b, a),
    decreases a.len(),
{
    if a.len() > 0 && b.len() > 0 && a[0] == b[0] {
        lemma_less_total(a.drop_first(), b.drop_first());
        if a.drop_first() == b.drop_first() {
            assert(a =~= seq![a[0]] + a.drop_first());
            assert(b =~= seq![b[0]] + b.drop_first());
        }
    } else if a.len() == 0 && b.len() == 0 {
        assert(a =~= b);
    }
}

pub proof fn lemma_less_asymmetric(a: Seq<char>, b: Seq<char>)
    requires
        seq_less(a, b),
    ensures
        !seq_less(b, a),
        a != b,
    decreases a.len(),
{
    if a.len() > 0 && b.len() > 0 && a[0] == b[0] {
        lemma_less_asymmetric(a.drop_first(), b.drop_first());
    }
    if a == b {
        lemma_less_irreflexive(a);
    }
}

pub proof fn lemma_less_transitive(a: Seq<char>, b: Seq<char>, c: Seq<char>)
    requires
        seq_less(a, b),
        seq_less(b, c),
    ensures
        seq_less(a, c),
    decreases a.len(),
{
    if a.len() > 0 && b.len() > 0 && c.len() > 0 && a[0] == b[0] && b[0] == c[0] {
        lemma_less_transitive(a.drop_first(), b.drop_first(), c.drop_first());
    }
}

/// Whether a sequence of names is in strictly increasing order.
pub open spec fn strictly_sorted(s: Seq<Seq<char>>) -> bool {
    forall|i: int, j: int| 0 <= i < j < s.len() ==> seq_less(s[i], s[j])
}

/// Compares two character slices in lexicographic order.
pub fn less_chars(a: &[char], b: &[char]) -> (r: bool)
    ensures
        r == seq_less(a@, b@),
{
    let mut i: usize = 0;
    assert(a@.skip(0) =~= a@);
    assert(b@.skip(0) =~= b@);
    while i < a.len() && i < b.len()
        invariant
            i <= a@.len(),
            i <= b@.len(),
            a@.take(i as int) == b@.take(i as int),
            seq_less(a@, b@) == seq_less(a@.skip(i as int), b@.skip(i as int)),
        decreases a.len() - i,
    {
        let ghost sa = a@.skip(i as int);
        let ghost sb = b@.skip(i as int);
        assert(sa[0] == a@[i as int]);
        assert(sb[0] == b@[i as int]);
        if a[i] != b[i] {
            return a[i] < b[i];
        }
        assert(sa.drop_first() =~= a@.skip(i + 1));
        assert(sb.drop_first() =~= b@.skip(i + 1));
        assert(a@.take(i + 1) =~= a@.take(i as int).push(a@[i as int]));
        assert(b@.take(i + 1) =~= b@.take(i as int).push(b@[i as int]));
        i += 1;
    }
    i < b.len()
}

/// A set of names, kept in increasing order without repeats.
#[derive(Clone, Debug)]
pub struct NameSet {
    names: Vec<String>,
}

impl NameSet {
    /// The names, in increasing order.
    pub closed spec fn view(&self) -> Seq<Seq<char>> {
        self.names@.map_values(|s: String| s@)
    }

    /// The set's invariant: increasing order, hence no repeats.
    pub closed spec fn wf(&self) -> bool {
        strictly_sorted(self.view())
    }

    pub fn new() -> (r: NameSet)
        ensures
            r.wf(),
            r.view() == Seq::<Seq<char>>::empty(),
    {
        let r = NameSet { names: Vec::new() };
        assert(r.view() =~= Seq::<Seq<char>>::empty());
        r
    }

    pub fn len(&self) -> (r: usize)
        ensures
            r == self.view().len(),
    {
        self.names.len()
    }

    pub fn is_empty(&self) -> (r: bool)
        ensures
            r == (self.view().len() == 0),
    {
        self.names.len() == 0
    }

    /// The `i`-th name in increasing order.
    pub fn get(&self, i: usize) -> (r: &String)
        requires
            i < self.view().len(),
        ensures
            r@ == self.view()[i as int],
    {
        &self.names[i]
    }

    /// Whether the set holds `name`.
    pub fn contains(&self, name: &str) -> (r: bool)
        ensures
            r == self.view().contains(name@),
    {
        let mut i: usize = 0;
        while i < self.names.len()
            invariant
                i <= self.names@.len(),
                forall|j: int| 0 <= j < i ==> self.view()[j] != name@,
            decreases self.names.len() - i,
        {
            if str_eq(self.names[i].as_str(), name) {
                assert(self.view()[i as int] == name@);
                return true;
            }
            i += 1;
        }
        false
    }

    /// Adds `name`; returns whether it was absent.
    pub fn insert(&mut self, name: String) -> (added: bool)
        requires
            old(self).wf(),
        ensures
            final(self).wf(),
            added == !old(self).view().contains(name@),
            final(self).view().to_set() == old(self).view().to_set().insert(name@),
    {
        let ghost old_view = self.view();
        let key = chars_of(name.as_str());
        let mut i: usize = 0;
        while i < self.names.len()
            invariant
                i <= self.names@.len(),
                self.view() == old_view,
                old(self).view() == old_view,
                strictly_sorted(old_view),
                key@ == name@,
                forall|j: int| 0 <= j < i ==> seq_less(#[trigger] old_view[j], name@),
            decreases self.names.len() - i,
        {
            let here = chars_of(self.names[i].as_str());
            assert(here@ == old_view[i as int]);
            if !less_chars(here.as_slice(), key.as_slice()) {
                if chars_eq_slice(here.as_slice(), key.as_slice()) {
                    assert(old_view[i as int] == name@);
                    assert(old_view.contains(name@));
                    assert(old_view.to_set().contains(name@));
                    assert(old_view.to_set().insert(name@) =~= old_view.to_set());
                    return false;
                }
                proof {
                    lemma_less_total(old_view[i as int], name@);
                    assert(seq_less(name@, old_view[i as int]));
                    assert forall|j: int| 0 <= j < old_view.len() && old_view[j] == name@ implies false by {
                        if j < i {
                            lemma_less_irreflexive(name@);
                        } else if j == i {
                        } else {
                            lemma_less_asymmetric(name@, old_view[i as int]);
                            assert(seq_less(old_view[i as int], old_view[j]));
                            lemma_less_transitive(name@, old_view[i as int], old_view[j]);
                            lemma_less_irreflexive(name@);
                        }
                    }
                }
                self.names.insert(i, name);
                proof {
                    self.lemma_inserted(old_view, i as int);
                }
                return true;
            }
            i += 1;
        }
        proof {
            assert forall|j: int| 0 <= j < old_view.len() implies old_view[j] != name@ by {
                lemma_less_asymmetric(old_view[j], name@);
            }
        }
        let ghost n = self.names@.len() as int;
        self.names.push(name);
        proof {
            self.lemma_inserted(old_view, n);
        }
        true
    }

    proof fn lemma_inserted(&self, old_view: Seq<Seq<char>>, i: int)
        requires
            0 <= i <= old_view.len(),
            self.names@.len() == old_view.len() + 1,
            forall|j: int| 0 <= j < i ==> #[trigger] self.names@[j]@ == old_view[j],
            forall|j: int| i < j < self.names@.len() ==> #[trigger] self.names@[j]@ == old_view[j - 1],
            strictly_sorted(old_view),
            forall|j: int| 0 <= j < i ==> seq_less(#[trigger] old_view[j], self.names@[i]@),
            i < old_view.len() ==> seq_less(self.names@[i]@, old_view[i]),
            forall|j: int| 0 <= j < old_view.len() ==> old_view[j] != self.names@[i]@,
        ensures
            self.wf(),
            self.view().to_set() == old_view.to_set().insert(self.names@[i]@),
            !old_view.contains(self.names@[i]@),
    {
        let v = self.view();
        let x = self.names@[i]@;
        assert forall|a: int, b: int| 0 <= a < b < v.len() implies seq_less(v[a], v[b]) by {
            if b < i {
            } else if a < i && b == i {
            } else if a < i && b > i {
                assert(v[b] == old_view[b - 1]);
                if i < old_view.len() {
                    lemma_less_transitive(v[a], x, old_view[i]);
                    if b - 1 > i {
                        lemma_less_transitive(v[a], old_view[i], old_view[b - 1]);
                    }
                }
            } else if a == i {
                assert(v[b] == old_view[b - 1]);
                if b - 1 > i {
                    lemma_less_transitive(x, old_view[i], old_view[b - 1]);
                }
            } else {
                assert(v[a] == old_view[a - 1]);
                assert(v[b] == old_view[b - 1]);
            }
        }
        assert(self.view().to_set() =~= old_view.to_set().insert(x)) by {
            assert forall|y: Seq<char>| self.view().to_set().contains(y) implies old_view.to_set().insert(x).contains(y) by {
                let k = choose|k: int| 0 <= k < v.len() && v[k] == y;
                if k < i {
                    assert(old_view[k] == y);
                } else if k > i {
                    assert(old_view[k - 1] == y);
                }
            }
            assert forall|y: Seq<char>| old_view.to_set().insert(x).contains(y) implies self.view().to_set().contains(y) by {
                if y == x {
                    assert(v[i] == x);
                } else {
                    let k = choose|k: int| 0 <= k < old_view.len() && old_view[k] == y;
                    if k < i {
                        assert(v[k] == y);
                    } else {
                        assert(v[k + 1] == y);
                    }
                }
            }
        }
    }

    /// A copy of this set.
    pub fn copy(&self) -> (r: NameSet)
        ensures
            r.view() == self.view(),
            r.wf() == self.wf(),
    {
        let mut names: Vec<String> = Vec::new();
        let mut i: usize = 0;
        while i < self.names.len()
            invariant
                i <= self.names@.len(),
                names@.len() == i,
                forall|j: int| 0 <= j < i ==> #[trigger] names@[j]@ == self.names@[j]@,
            decreases self.names.len() - i,
        {
            names.push(copy_string(&self.names[i]));
            i += 1;
        }
        let r = NameSet { names };
        assert(r.view() =~= self.view());
        r
    }
}

fn chars_eq_slice(a: &[char], b: &[char]) -> (r: bool)
    ensures
        r == (a@ == b@),
{
    crate::text::chars_eq(a, b)
}

/// The value the first entry with key `k` holds.
pub open spec fn assoc_get(entries: Seq<(Seq<char>, Seq<char>)>, k: Seq<char>) -> Option<Seq<char>>
    decreases entries.len(),
{
    if entries.len() == 0 {
        None
    } else if entries[0].0 == k {
        Some(entries[0].1)
    } else {
        assoc_get(entries.drop_first(), k)
    }
}

/// A map from names to strings.
#[derive(Clone, Debug)]
pub struct NameMap {
    entries: Vec<(String, String)>,
}

impl NameMap {
    /// The entries, in increasing order of key, as a `BTreeMap` keeps them.
    pub closed spec fn entries(&self) -> Seq<(Seq<char>, Seq<char>)> {
        pairs_view(self.entries@)
    }

    /// Whether the keys strictly increase.
    pub open spec fn sorted(&self) -> bool {
        strictly_sorted(names_of(self.entries()))
    }

    /// Keys that strictly increase occur once each.
    pub proof fn lemma_sorted_distinct(&self)
        requires
            self.sorted(),
        ensures
            self.keys_distinct(),
    {
        assert forall|i: int, j: int| 0 <= i < j < self.entries().len() implies self.entries()[i].0
            != self.entries()[j].0 by {
            assert(names_of(self.entries())[i] == self.entries()[i].0);
            assert(names_of(self.entries())[j] == self.entries()[j].0);
            lemma_less_irreflexive(self.entries()[i].0);
        }
    }

    /// What the map holds for `k`.
    pub open spec fn lookup(&self, k: Seq<char>) -> Option<Seq<char>> {
        assoc_get(self.entries(), k)
    }

    /// Whether each key occurs once.
    pub open spec fn keys_distinct(&self) -> bool {
        forall|i: int, j: int|
            0 <= i < j < self.entries().len() ==> self.entries()[i].0 != self.entries()[j].0
    }

    pub fn new() -> (r: NameMap)
        ensures
            forall|k: Seq<char>| r.lookup(k) is None,
            r.keys_distinct(),
            r.sorted(),
            r.entries().len() == 0,
    {
        let r = NameMap { entries: Vec::new() };
        assert(r.entries() =~= Seq::<(Seq<char>, Seq<char>)>::empty());
        assert(names_of(r.entries()) =~= Seq::<Seq<char>>::empty());
        r
    }

    pub fn len(&self) -> (r: usize)
        ensures
            r == self.entries().len(),
    {
        self.entries.len()
    }

    proof fn lemma_get_index(e: Seq<(Seq<char>, Seq<char>)>, k: Seq<char>, i: int)
        requires
            0 <= i < e.len(),
            e[i].0 == k,
            forall|j: int| 0 <= j < i ==> e[j].0 != k,
        ensures
            assoc_get(e, k) == Some(e[i].1),
        decreases i,
    {
        if i > 0 {
            Self::lemma_get_index(e.drop_first(), k, i - 1);
        }
    }

    proof fn lemma_get_absent(e: Seq<(Seq<char>, Seq<char>)>, k: Seq<char>)
        requires
            forall|j: int| 0 <= j < e.len() ==> e[j].0 != k,
        ensures
            assoc_get(e, k) is None,
        decreases e.len(),
    {
        if e.len() > 0 {
            Self::lemma_get_absent(e.drop_first(), k);
        }
    }

    /// Where `k` first occurs, if anywhere.
    fn position(&self, k: &str) -> (r: Option<usize>)
        ensures
            match r {
                Some(i) => i < self.entries().len() && self.entries()[i as int].0 == k@
                    && forall|j: int| 0 <= j < i ==> self.entries()[j].0 != k@,
                None => forall|j: int| 0 <= j < self.entries().len() ==> self.entries()[j].0 != k@,
            },
    {
        let mut i: usize = 0;
        while i < self.entries.len()
            invariant
                i <= self.entries@.len(),
                forall|j: int| 0 <= j < i ==> self.entries()[j].0 != k@,
            decreases self.entries.len() - i,
        {
            if str_eq(self.entries[i].0.as_str(), k) {
                return Some(i);
            }
            i += 1;
        }
        None
    }

    /// The value held for `k`.
    pub fn get(&self, k: &str) -> (r: Option<&String>)
        ensures
            match r {
                Some(v) => self.lookup(k@) == Some(v@),
                None => self.lookup(k@) is None,
            },
    {
        match self.position(k) {
            Some(i) => {
                proof {
                    Self::lemma_get_index(self.entries(), k@, i as int);
                }
                Some(&self.entries[i].1)
            },
            None => {
                proof {
                    Self::lemma_get_absent(self.entries(), k@);
                }
                None
            },
        }
    }

    /// Sets the value held for `k`, replacing any earlier one; a new key
    /// goes where its order puts it.
    pub fn insert(&mut self, k: String, v: String)
        requires
            old(self).sorted(),
        ensures
            final(self).sorted(),
            final(self).lookup(k@) == Some(v@),
            forall|other: Seq<char>| other != k@ ==> final(self).lookup(other) == old(self).lookup(other),
            final(self).keys_distinct(),
    {
        let ghost before = self.entries@;
        let ghost kv = k@;
        let ghost vv = v@;
        proof {
            lemma_pairs_names(before);
        }
        let mut rows: Vec<(String, String)> = Vec::new();
        std::mem::swap(&mut rows, &mut self.entries);
        insert_row(&mut rows, k, v);
        proof {
            lemma_pairs_names(rows@);
        }
        self.entries = rows;
        proof {
            let after = self.entries@;
            lemma_pairs_names(after);
            lemma_pairs_find(after, kv);
            assert forall|other: Seq<char>| other != kv implies self.lookup(other) == assoc_get(
                pairs_view(before),
                other,
            ) by {
                lemma_pairs_find(after, other);
                lemma_pairs_find(before, other);
            }
            self.lemma_sorted_distinct();
        }
    }

    /// The entry at position `i`, in increasing order of key.
    pub fn entry(&self, i: usize) -> (r: (&str, &str))
        requires
            i < self.entries().len(),
        ensures
            (r.0@, r.1@) == self.entries()[i as int],
    {
        let e = &self.entries[i];
        (e.0.as_str(), e.1.as_str())
    }

    /// A copy of this map.
    pub fn copy(&self) -> (r: NameMap)
        ensures
            r.entries() == self.entries(),
    {
        let mut entries: Vec<(String, String)> = Vec::new();
        let mut i: usize = 0;
        while i < self.entries.len()
            invariant
                i <= self.entries@.len(),
                entries@.len() == i,
                forall|j: int|
                    0 <= j < i ==> (#[trigger] entries@[j]).0@ == self.entries@[j].0@
                        && entries@[j].1@ == self.entries@[j].1@,
            decreases self.entries.len() - i,
        {
            let e = &self.entries[i];
            entries.push((copy_string(&e.0), copy_string(&e.1)));
            i += 1;
        }
        proof {
            assert(pairs_view(entries@) =~= self.entries());
        }
        let r = NameMap { entries };
        r
    }
}

/// Key and value pairs taken as characters.
pub open spec fn pairs_view(e: Seq<(String, String)>) -> Seq<(Seq<char>, Seq<char>)> {
    e.map_values(|x: (String, String)| (x.0@, x.1@))
}

proof fn lemma_pairs_names(e: Seq<(String, String)>)
    ensures
        names_of(pairs_view(e)) == names_of(rows_view(e)),
{
    assert(names_of(pairs_view(e)) =~= names_of(rows_view(e)));
}

proof fn lemma_pairs_find(e: Seq<(String, String)>, k: Seq<char>)
    ensures
        assoc_get(pairs_view(e), k) == match find_name(rows_view(e), k) {
            Some(s) => Some(s@),
            None => None,
        },
    decreases e.len(),
{
    if e.len() > 0 {
        assert(pairs_view(e).drop_first() =~= pairs_view(e.drop_first()));
        assert(rows_view(e).drop_first() =~= rows_view(e.drop_first()));
        lemma_pairs_find(e.drop_first(), k);
    }
}

/// The value held under name `k`: that of the first row with that name.
pub open spec fn find_name<T>(rows: Seq<(Seq<char>, T)>, k: Seq<char>) -> Option<T>
    decreases rows.len(),
{
    if rows.len() == 0 {
        None
    } else if rows[0].0 == k {
        Some(rows[0].1)
    } else {
        find_name(rows.drop_first(), k)
    }
}

/// The names of rows.
pub open spec fn names_of<T>(rows: Seq<(Seq<char>, T)>) -> Seq<Seq<char>> {
    rows.map_values(|r: (Seq<char>, T)| r.0)
}

pub proof fn lemma_find_name_at<T>(rows: Seq<(Seq<char>, T)>, j: int)
    requires
        strictly_sorted(names_of(rows)),
        0 <= j < rows.len(),
    ensures
        find_name(rows, rows[j].0) == Some(rows[j].1),
    decreases j,
{
    if j > 0 {
        assert(names_of(rows)[0] == rows[0].0);
        assert(names_of(rows)[j] == rows[j].0);
        lemma_less_asymmetric(rows[0].0, rows[j].0);
        assert(strictly_sorted(names_of(rows.drop_first()))) by {
            assert forall|a: int, b: int| 0 <= a < b < rows.len() - 1 implies seq_less(
                names_of(rows.drop_first())[a],
                names_of(rows.drop_first())[b],
            ) by {
                assert(names_of(rows)[a + 1] == names_of(rows.drop_first())[a]);
                assert(names_of(rows)[b + 1] == names_of(rows.drop_first())[b]);
            }
        }
        lemma_find_name_at(rows.drop_first(), j - 1);
    }
}

pub proof fn lemma_find_name_absent<T>(rows: Seq<(Seq<char>, T)>, k: Seq<char>)
    requires
        forall|j: int| 0 <= j < rows.len() ==> rows[j].0 != k,
    ensures
        find_name(rows, k) is None,
    decreases rows.len(),
{
    if rows.len() > 0 {
        lemma_find_name_absent(rows.drop_first(), k);
    }
}

/// Rows with their names taken as characters.
pub open spec fn rows_view<T>(rows: Seq<(String, T)>) -> Seq<(Seq<char>, T)> {
    rows.map_values(|r: (String, T)| (r.0@, r.1))
}

/// Holds `value` under `k` in rows kept in increasing order of name, in
/// place of what `k` held before, as `BTreeMap::insert` does. A name after
/// every other goes at the end.
pub fn insert_row<T>(rows: &mut Vec<(String, T)>, k: String, value: T)
    requires
        strictly_sorted(names_of(rows_view(old(rows)@))),
    ensures
        strictly_sorted(names_of(rows_view(final(rows)@))),
        find_name(rows_view(final(rows)@), k@) == Some(value),
        forall|other: Seq<char>|
            other != k@ ==> #[trigger] find_name(rows_view(final(rows)@), other) == find_name(
                rows_view(old(rows)@),
                other,
            ),
        (forall|j: int| 0 <= j < old(rows)@.len() ==> seq_less(#[trigger] old(rows)@[j].0@, k@))
            ==> rows_view(final(rows)@) == rows_view(old(rows)@).push((k@, value)),
{
    let ghost old_view = rows_view(rows@);
    let ghost kv = k@;
    let key = chars_of(k.as_str());
    let mut i: usize = 0;
    while i < rows.len()
        invariant
            i <= rows@.len(),
            rows_view(rows@) == old_view,
            strictly_sorted(names_of(old_view)),
            key@ == kv,
            k@ == kv,
            forall|j: int| 0 <= j < i ==> seq_less(#[trigger] old_view[j].0, kv),
        ensures
            i <= rows@.len(),
            rows_view(rows@) == old_view,
            forall|j: int| 0 <= j < i ==> seq_less(#[trigger] old_view[j].0, kv),
            i < rows@.len() ==> !seq_less(old_view[i as int].0, kv),
        decreases rows.len() - i,
    {
        let here = chars_of(rows[i].0.as_str());
        assert(here@ == old_view[i as int].0);
        if !less_chars(here.as_slice(), key.as_slice()) {
            break;
        }
        i += 1;
    }
    let ghost pos = i as int;
    proof {
        assert forall|j: int| 0 <= j < old_view.len() && j != pos implies old_view[j].0 != kv by {
            assert(names_of(old_view)[j] == old_view[j].0);
            if j < pos {
                assert(seq_less(old_view[j].0, kv));
                lemma_less_irreflexive(kv);
            } else {
                assert(names_of(old_view)[pos] == old_view[pos].0);
                assert(seq_less(old_view[pos].0, old_view[j].0));
                if seq_less(kv, old_view[pos].0) {
                    lemma_less_transitive(kv, old_view[pos].0, old_view[j].0);
                    lemma_less_irreflexive(kv);
                } else {
                    lemma_less_total(old_view[pos].0, kv);
                    if old_view[pos].0 == kv {
                        lemma_less_irreflexive(kv);
                    }
                }
            }
        }
    }
    if i < rows.len() && str_eq(rows[i].0.as_str(), k.as_str()) {
        rows.set(i, (k, value));
        let ghost v = rows_view(rows@);
        assert(v =~= old_view.update(pos, (kv, value)));
        proof {
            assert(names_of(v) =~= names_of(old_view));
            lemma_find_name_at(v, pos);
            assert forall|other: Seq<char>| other != kv implies #[trigger] find_name(v, other)
                == find_name(old_view, other) by {
                lemma_same_rows(old_view, v, other);
            }
        }
    } else {
        proof {
            if pos < old_view.len() {
                lemma_less_total(old_view[pos].0, kv);
            }
        }
        rows.insert(i, (k, value));
        let ghost v = rows_view(rows@);
        assert(v =~= old_view.insert(pos, (kv, value)));
        proof {
            let n = names_of(v);
            assert forall|a: int, b: int| 0 <= a < b < n.len() implies seq_less(n[a], n[b]) by {
                assert(names_of(old_view).len() == old_view.len());
                if b < pos {
                    assert(n[a] == names_of(old_view)[a] && n[b] == names_of(old_view)[b]);
                } else if b == pos {
                    assert(n[a] == old_view[a].0);
                } else if a == pos {
                    assert(n[b] == old_view[b - 1].0);
                    assert(names_of(old_view)[pos] == old_view[pos].0);
                    assert(names_of(old_view)[b - 1] == old_view[b - 1].0);
                    if b - 1 > pos {
                        lemma_less_transitive(kv, old_view[pos].0, old_view[b - 1].0);
                    }
                } else if a < pos {
                    assert(n[a] == old_view[a].0);
                    assert(n[b] == old_view[b - 1].0);
                    assert(names_of(old_view)[pos] == old_view[pos].0);
                    assert(names_of(old_view)[b - 1] == old_view[b - 1].0);
                    lemma_less_transitive(old_view[a].0, kv, old_view[pos].0);
                    if b - 1 > pos {
                        lemma_less_transitive(old_view[a].0, old_view[pos].0, old_view[b - 1].0);
                    }
                } else {
                    assert(n[a] == names_of(old_view)[a - 1]);
                    assert(n[b] == names_of(old_view)[b - 1]);
                }
            }
            lemma_find_name_at(v, pos);
            assert forall|other: Seq<char>| other != kv implies #[trigger] find_name(v, other)
                == find_name(old_view, other) by {
                if exists|j: int| 0 <= j < old_view.len() && old_view[j].0 == other {
                    let j = choose|j: int| 0 <= j < old_view.len() && old_view[j].0 == other;
                    lemma_find_name_at(old_view, j);
                    if j < pos {
                        assert(v[j] == old_view[j]);
                        lemma_find_name_at(v, j);
                    } else {
                        assert(v[j + 1] == old_view[j]);
                        lemma_find_name_at(v, j + 1);
                    }
                } else {
                    lemma_find_name_absent(old_view, other);
                    assert forall|j: int| 0 <= j < v.len() implies v[j].0 != other by {
                        if j < pos {
                            assert(v[j] == old_view[j]);
                        } else if j > pos {
                            assert(v[j] == old_view[j - 1]);
                        }
                    }
                    lemma_find_name_absent(v, other);
                }
            }
        }
    }
}


proof fn lemma_same_rows<T>(a: Seq<(Seq<char>, T)>, b: Seq<(Seq<char>, T)>, k: Seq<char>)
    requires
        a.len() == b.len(),
        forall|j: int| 0 <= j < a.len() ==> a[j].0 == b[j].0,
        forall|j: int| 0 <= j < a.len() && a[j].0 == k ==> a[j] == b[j],
    ensures
        find_name(a, k) == find_name(b, k),
    decreases a.len(),
{
    if a.len() > 0 {
        lemma_same_rows(a.drop_first(), b.drop_first(), k);
    }
}

/// Rows of values kept in increasing order of their names, one row per name.
#[derive(Clone, Debug)]
pub struct ByName<T> {
    rows: Vec<(String, T)>,
}

impl<T> ByName<T> {
    /// The rows, in increasing order of name.
    pub closed spec fn view(&self) -> Seq<(Seq<char>, T)> {
        rows_view(self.rows@)
    }

    /// The invariant: names strictly increase.
    pub open spec fn wf(&self) -> bool {
        strictly_sorted(names_of(self.view()))
    }

    /// The value held under `k`.
    pub open spec fn lookup(&self, k: Seq<char>) -> Option<T> {
        find_name(self.view(), k)
    }

    pub fn new() -> (r: ByName<T>)
        ensures
            r.wf(),
            r.view().len() == 0,
    {
        let r = ByName { rows: Vec::new() };
        assert(r.view() =~= Seq::<(Seq<char>, T)>::empty());
        assert(names_of(r.view()) =~= Seq::<Seq<char>>::empty());
        r
    }

    pub fn len(&self) -> (r: usize)
        ensures
            r == self.view().len(),
    {
        self.rows.len()
    }

    /// The `i`-th row in order of name.
    pub fn entry(&self, i: usize) -> (r: (&str, &T))
        requires
            i < self.view().len(),
        ensures
            r.0@ == self.view()[i as int].0,
            *r.1 == self.view()[i as int].1,
    {
        let e = &self.rows[i];
        (e.0.as_str(), &e.1)
    }

    /// The value held under `k`.
    pub fn get(&self, k: &str) -> (r: Option<&T>)
        requires
            self.wf(),
        ensures
            match r {
                Some(v) => self.lookup(k@) == Some(*v),
                None => self.lookup(k@) is None,
            },
    {
        let mut i: usize = 0;
        while i < self.rows.len()
            invariant
                self.wf(),
                i <= self.rows@.len(),
                forall|j: int| 0 <= j < i ==> self.view()[j].0 != k@,
            decreases self.rows.len() - i,
        {
            if str_eq(self.rows[i].0.as_str(), k) {
                proof {
                    lemma_find_name_at(self.view(), i as int);
                }
                return Some(&self.rows[i].1);
            }
            i += 1;
        }
        proof {
            lemma_find_name_absent(self.view(), k@);
        }
        None
    }

    /// Holds `value` under `k`, in place of what `k` held before.
    pub fn insert(&mut self, k: String, value: T)
        requires
            old(self).wf(),
        ensures
            final(self).wf(),
            final(self).lookup(k@) == Some(value),
            forall|other: Seq<char>|
                other != k@ ==> #[trigger] final(self).lookup(other) == old(self).lookup(other),
    {
        insert_row(&mut self.rows, k, value);
    }

}

} // verus!
