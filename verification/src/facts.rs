//! Facts learned about tools.
//!
//! Some inputs of a build are not written in any manifest: whether a tool
//! is on `PATH`, what a compiler calls itself. They are the state of the
//! machine the build ran on; unless recorded they must be asked again each
//! time. The facts belong to the tools, not to a project, so they live in
//! the user's cache directory, one per line as `<key>\t<value>`. A key holds
//! the identity of the tool it is about, so a replaced tool simply leaves
//! its old facts unread. Facts that cannot be written are given up silently:
//! only the saving is lost, never an answer.

use vstd::prelude::*;
use crate::paths::{join, path_join};
use crate::strs::{assoc_get, NameMap};
use crate::text::{
    chars_of, from_chars, lemma_split_on_extend, lemma_split_on_push_sep, lemma_split_once_join,
    lines, lines_of, owned, push_char, push_str, split_on, split_once, split_once_chars, strip_cr,
};

verus! {

/// The version of the facts' format.
pub const FORMAT: &'static str = "v1";

/// The name of the file that holds the facts.
pub const FILE: &'static str = "facts";

/// A cap on the number of facts. Facts are small and their number is
/// bounded by the number of tools; the cap only stops a broken way of
/// making keys from growing the file without end. Beyond it nothing is
/// saved: old facts can be asked again.
pub const MAX_ENTRIES: usize = 4096;

/// The character that stands in a key for a tab or a line break.
pub open spec fn key_char(c: char) -> char {
    if c == '\t' || c == '\n' || c == '\r' {
        '\u{1f}'
    } else {
        c
    }
}

/// A key made to fit on a line: a tab or line break in it would split the
/// line elsewhere and turn it into another key.
pub open spec fn normalize_key(k: Seq<char>) -> Seq<char> {
    k.map_values(|c: char| key_char(c))
}

/// The character that stands in a value for a tab or a line break.
pub open spec fn value_char(c: char) -> char {
    if c == '\t' || c == '\n' || c == '\r' {
        ' '
    } else {
        c
    }
}

/// A value folded onto one line.
pub open spec fn fold_value(v: Seq<char>) -> Seq<char> {
    v.map_values(|c: char| value_char(c))
}

/// The fact that lines hold for `k`: the value of the last line whose part
/// before its first tab is `k`. Lines without a tab are skipped.
pub open spec fn fact_in(ls: Seq<Seq<char>>, k: Seq<char>) -> Option<Seq<char>>
    decreases ls.len(),
{
    if ls.len() == 0 {
        None
    } else {
        match split_once(ls.last(), '\t') {
            Some((a, b)) => if a == k {
                Some(b)
            } else {
                fact_in(ls.drop_last(), k)
            },
            None => fact_in(ls.drop_last(), k),
        }
    }
}

/// The text that holds facts: one `<key>\t<value>` line each.
pub open spec fn render_facts(t: Seq<(Seq<char>, Seq<char>)>) -> Seq<char>
    decreases t.len(),
{
    if t.len() == 0 {
        Seq::empty()
    } else {
        render_facts(t.drop_last()) + t.last().0 + seq!['\t'] + t.last().1 + seq!['\n']
    }
}

/// The directory of the facts under a cache directory.
pub open spec fn facts_dir(cache: Seq<char>) -> Seq<char> {
    path_join(path_join(path_join(cache, "dowel"@), "facts"@), "v1"@)
}

/// Facts learned about tools.
pub struct Facts {
    dir: String,
    entries: NameMap,
    /// Whether anything was learned since reading, so that saving has
    /// something to write.
    dirty: bool,
}

fn map_chars(s: &str, fold: bool) -> (r: String)
    ensures
        r@ == if fold {
            fold_value(s@)
        } else {
            normalize_key(s@)
        },
{
    let cs = chars_of(s);
    let mut out: Vec<char> = Vec::new();
    let mut i: usize = 0;
    while i < cs.len()
        invariant
            cs@ == s@,
            i <= cs@.len(),
            out@.len() == i,
            forall|j: int|
                0 <= j < i ==> #[trigger] out@[j] == if fold {
                    value_char(cs@[j])
                } else {
                    key_char(cs@[j])
                },
        decreases cs.len() - i,
    {
        let c = cs[i];
        let d = if c == '\t' || c == '\n' || c == '\r' {
            if fold {
                ' '
            } else {
                '\u{1f}'
            }
        } else {
            c
        };
        out.push(d);
        i = i + 1;
    }
    let r = from_chars(out.as_slice());
    proof {
        if fold {
            assert(r@ =~= fold_value(s@));
        } else {
            assert(r@ =~= normalize_key(s@));
        }
    }
    r
}

impl Facts {
    pub closed spec fn location(&self) -> Seq<char> {
        self.dir@
    }

    /// The facts, in increasing order of key.
    pub closed spec fn table(&self) -> Seq<(Seq<char>, Seq<char>)> {
        self.entries.entries()
    }

    /// The fact held for the (normalized) key `k`.
    pub open spec fn value_of(&self, k: Seq<char>) -> Option<Seq<char>> {
        assoc_get(self.table(), k)
    }

    /// Whether anything was learned since the facts were read.
    pub closed spec fn learned(&self) -> bool {
        self.dirty
    }

    #[verifier::type_invariant]
    closed spec fn inv(self) -> bool {
        self.entries.sorted() && self.entries.keys_distinct()
    }

    /// Where the facts live under the user's cache directory `cache`.
    pub fn dir_under(cache: &str) -> (r: String)
        ensures
            r@ == facts_dir(cache@),
    {
        let a = join(cache, "dowel");
        let b = join(a.as_str(), "facts");
        join(b.as_str(), FORMAT)
    }

    /// The facts kept in `dir`, whose file held `text` if it could be read.
    /// A line without a tab is dropped and takes no other line with it.
    pub fn open(dir: String, text: Option<&str>) -> (r: Facts)
        ensures
            r.location() == dir@,
            !r.learned(),
            forall|i: int, j: int| 0 <= i < j < r.table().len() ==> r.table()[i].0 != r.table()[j].0,
            forall|k: Seq<char>|
                #[trigger] r.value_of(k) == match text {
                    Some(t) => fact_in(lines_of(t@), k),
                    None => None,
                },
    {
        let mut entries = NameMap::new();
        if let Some(t) = text {
            let ls = lines(t);
            let ghost all = lines_of(t@);
            let mut i: usize = 0;
            assert(all.take(0) =~= Seq::<Seq<char>>::empty());
            while i < ls.len()
                invariant
                    all == lines_of(t@),
                    ls@.len() == all.len(),
                    forall|j: int| 0 <= j < ls@.len() ==> #[trigger] ls@[j]@ == all[j],
                    i <= ls@.len(),
                    entries.keys_distinct(),
                    entries.sorted(),
                    forall|k: Seq<char>| #[trigger]
                        entries.lookup(k) == fact_in(all.take(i as int), k),
                decreases ls@.len() - i,
            {
                assert(all.take(i + 1).drop_last() =~= all.take(i as int));
                assert(all.take(i + 1).last() == ls@[i as int]@);
                match split_once_chars(ls[i].as_slice(), '\t') {
                    Some((a, b)) => {
                        let k = from_chars(a.as_slice());
                        let v = from_chars(b.as_slice());
                        entries.insert(k, v);
                    },
                    None => {},
                }
                i = i + 1;
            }
            assert(all.take(i as int) =~= all);
        }
        let r = Facts { dir, entries, dirty: false };
        assert forall|k: Seq<char>|
            #[trigger] r.value_of(k) == match text {
                Some(t) => fact_in(lines_of(t@), k),
                None => None,
            } by {
            assert(r.value_of(k) == entries.lookup(k));
        }
        r
    }

    /// The fact for `key`.
    pub fn get(&self, key: &str) -> (r: Option<&str>)
        ensures
            match r {
                Some(v) => self.value_of(normalize_key(key@)) == Some(v@),
                None => self.value_of(normalize_key(key@)) is None,
            },
    {
        let k = map_chars(key, false);
        match self.entries.get(k.as_str()) {
            Some(v) => Some(v.as_str()),
            None => None,
        }
    }

    /// Learns a fact. The key is normalized and the value folded onto one
    /// line: one broken line would make every line after it unreadable.
    pub fn set(&mut self, key: String, value: String)
        ensures
            final(self).value_of(normalize_key(key@)) == Some(fold_value(value@)),
            forall|k: Seq<char>|
                k != normalize_key(key@) ==> #[trigger] final(self).value_of(k) == old(self).value_of(
                    k,
                ),
            final(self).learned(),
            final(self).location() == old(self).location(),
    {
        proof {
            use_type_invariant(&*self);
        }
        let k = map_chars(key.as_str(), false);
        let v = map_chars(value.as_str(), true);
        let ghost before = *self;
        let mut entries = NameMap::new();
        std::mem::swap(&mut entries, &mut self.entries);
        let ghost taken = entries;
        entries.insert(k, v);
        self.entries = entries;
        self.dirty = true;
        assert forall|k2: Seq<char>|
            k2 != normalize_key(key@) implies #[trigger] self.value_of(k2) == before.value_of(k2) by {
            assert(self.value_of(k2) == entries.lookup(k2));
            assert(before.value_of(k2) == taken.lookup(k2));
        }
    }

    pub fn len(&self) -> (r: usize)
        ensures
            r == self.table().len(),
    {
        self.entries.len()
    }

    pub fn is_empty(&self) -> (r: bool)
        ensures
            r == (self.table().len() == 0),
    {
        self.entries.len() == 0
    }

    /// The text to write when saving, or `None` when nothing was learned
    /// (a run that only read leaves the disk alone) or when there are more
    /// facts than the cap.
    pub fn to_save(&self) -> (r: Option<String>)
        ensures
            match r {
                Some(t) => self.learned() && self.table().len() <= MAX_ENTRIES && t@ == render_facts(
                    self.table(),
                ),
                None => !self.learned() || self.table().len() > MAX_ENTRIES,
            },
    {
        if !self.dirty {
            return None;
        }
        if self.entries.len() > MAX_ENTRIES {
            return None;
        }
        let mut text = String::new();
        let ghost t = self.table();
        let n = self.entries.len();
        let mut i: usize = 0;
        assert(t.take(0) =~= Seq::<(Seq<char>, Seq<char>)>::empty());
        while i < n
            invariant
                t == self.table(),
                n == t.len(),
                i <= n,
                text@ == render_facts(t.take(i as int)),
            decreases n - i,
        {
            let (k, v) = self.entries.entry(i);
            push_str(&mut text, k);
            push_char(&mut text, '\t');
            push_str(&mut text, v);
            push_char(&mut text, '\n');
            assert(t.take(i + 1).drop_last() =~= t.take(i as int));
            assert(text@ =~= render_facts(t.take(i + 1)));
            i = i + 1;
        }
        assert(t.take(i as int) =~= t);
        Some(text)
    }
}

spec fn fact_line(e: (Seq<char>, Seq<char>)) -> Seq<char> {
    e.0 + seq!['\t'] + e.1
}

spec fn free_of(s: Seq<char>, c: char) -> bool {
    forall|j: int| 0 <= j < s.len() ==> s[j] != c
}

/// Whether a fact survives being written on a line: a key without a tab or
/// a line break, and a value without a line break that does not end with a
/// carriage return.
pub open spec fn fits_on_a_line(e: (Seq<char>, Seq<char>)) -> bool {
    &&& forall|j: int| 0 <= j < e.0.len() ==> e.0[j] != '\t' && e.0[j] != '\n'
    &&& forall|j: int| 0 <= j < e.1.len() ==> e.1[j] != '\n'
    &&& !(e.1.len() > 0 && e.1.last() == '\r')
}

proof fn lemma_assoc_push(a: Seq<(Seq<char>, Seq<char>)>, e: (Seq<char>, Seq<char>), k: Seq<char>)
    ensures
        assoc_get(a.push(e), k) == if assoc_get(a, k) is Some {
            assoc_get(a, k)
        } else if e.0 == k {
            Some(e.1)
        } else {
            None
        },
    decreases a.len(),
{
    let b = a.push(e);
    if a.len() > 0 {
        assert(b[0] == a[0]);
        assert(b.drop_first() =~= a.drop_first().push(e));
        lemma_assoc_push(a.drop_first(), e, k);
        if a[0].0 == k {
            assert(assoc_get(b, k) == Some(a[0].1));
            assert(assoc_get(a, k) == Some(a[0].1));
        } else {
            assert(assoc_get(b, k) == assoc_get(b.drop_first(), k));
            assert(assoc_get(a, k) == assoc_get(a.drop_first(), k));
        }
    } else {
        assert(b[0] == e);
        assert(b.len() == 1);
        assert(b.drop_first() =~= Seq::<(Seq<char>, Seq<char>)>::empty());
        assert(assoc_get(Seq::<(Seq<char>, Seq<char>)>::empty(), k) is None);
        assert(assoc_get(a, k) is None);
        if e.0 != k {
            assert(assoc_get(b, k) == assoc_get(b.drop_first(), k));
        }
    }
}

proof fn lemma_assoc_absent(a: Seq<(Seq<char>, Seq<char>)>, k: Seq<char>)
    requires
        forall|i: int| 0 <= i < a.len() ==> a[i].0 != k,
    ensures
        assoc_get(a, k) is None,
    decreases a.len(),
{
    if a.len() > 0 {
        lemma_assoc_absent(a.drop_first(), k);
    }
}

proof fn lemma_split_facts(t: Seq<(Seq<char>, Seq<char>)>)
    requires
        forall|i: int| 0 <= i < t.len() ==> fits_on_a_line(#[trigger] t[i]),
    ensures
        split_on(render_facts(t), '\n') == t.map_values(|e: (Seq<char>, Seq<char>)| fact_line(e))
            + seq![Seq::<char>::empty()],
    decreases t.len(),
{
    if t.len() == 0 {
        assert(t.map_values(|e: (Seq<char>, Seq<char>)| fact_line(e)) =~= Seq::<Seq<char>>::empty());
        assert(Seq::<Seq<char>>::empty() + seq![Seq::<char>::empty()] =~= seq![Seq::<char>::empty()]);
    } else {
        let u = t.drop_last();
        let e = t.last();
        let l = fact_line(e);
        lemma_split_facts(u);
        let x = render_facts(u);
        assert(free_of(l, '\n')) by {
            assert forall|j: int| 0 <= j < l.len() implies l[j] != '\n' by {
                if j < e.0.len() {
                    assert(l[j] == e.0[j]);
                } else if j > e.0.len() {
                    assert(l[j] == e.1[j - e.0.len() - 1]);
                }
            }
        }
        lemma_split_on_extend(x, l, '\n');
        lemma_split_on_push_sep(x + l, '\n');
        assert(render_facts(t) =~= (x + l).push('\n'));
        assert(t.map_values(|e: (Seq<char>, Seq<char>)| fact_line(e)) =~= u.map_values(
            |e: (Seq<char>, Seq<char>)| fact_line(e),
        ).push(l));
        assert(split_on(render_facts(t), '\n') =~= t.map_values(
            |e: (Seq<char>, Seq<char>)| fact_line(e),
        ) + seq![Seq::<char>::empty()]);
    }
}

proof fn lemma_facts_lines(t: Seq<(Seq<char>, Seq<char>)>)
    requires
        forall|i: int| 0 <= i < t.len() ==> fits_on_a_line(#[trigger] t[i]),
    ensures
        lines_of(render_facts(t)) == t.map_values(|e: (Seq<char>, Seq<char>)| fact_line(e)),
{
    lemma_split_facts(t);
    let ls = t.map_values(|e: (Seq<char>, Seq<char>)| fact_line(e));
    let text = render_facts(t);
    if t.len() == 0 {
        assert(lines_of(text) =~= ls);
    } else {
        assert(text.last() == '\n');
        assert forall|i: int| 0 <= i < ls.len() implies strip_cr(ls[i]) == ls[i] by {
            let e = t[i];
            assert(fits_on_a_line(e));
            if e.1.len() > 0 {
                assert(ls[i].last() == e.1.last());
            } else {
                assert(ls[i].last() == '\t');
            }
        }
        assert(lines_of(text) =~= ls);
    }
}

proof fn lemma_fact_in_lines(t: Seq<(Seq<char>, Seq<char>)>, k: Seq<char>)
    requires
        forall|i: int| 0 <= i < t.len() ==> fits_on_a_line(#[trigger] t[i]),
        forall|i: int, j: int| 0 <= i < j < t.len() ==> t[i].0 != t[j].0,
    ensures
        fact_in(t.map_values(|e: (Seq<char>, Seq<char>)| fact_line(e)), k) == assoc_get(t, k),
    decreases t.len(),
{
    if t.len() > 0 {
        let u = t.drop_last();
        let e = t.last();
        lemma_fact_in_lines(u, k);
        let ls = t.map_values(|e: (Seq<char>, Seq<char>)| fact_line(e));
        assert(ls.drop_last() =~= u.map_values(|e: (Seq<char>, Seq<char>)| fact_line(e)));
        assert(fits_on_a_line(e));
        lemma_split_once_join(e.0, '\t', e.1);
        assert(ls.last() == e.0 + seq!['\t'] + e.1);
        assert(t =~= u.push(e));
        lemma_assoc_push(u, e, k);
        if e.0 == k {
            lemma_assoc_absent(u, k);
        }
    }
}

/// A saved fact reads back: opening the saved text gives every key the
/// value it had, for facts whose keys are distinct and fit on a line.
pub proof fn law_a_saved_fact_reads_back(t: Seq<(Seq<char>, Seq<char>)>, k: Seq<char>)
    requires
        forall|i: int| 0 <= i < t.len() ==> fits_on_a_line(#[trigger] t[i]),
        forall|i: int, j: int| 0 <= i < j < t.len() ==> t[i].0 != t[j].0,
    ensures
        fact_in(lines_of(render_facts(t)), k) == assoc_get(t, k),
{
    lemma_facts_lines(t);
    lemma_fact_in_lines(t, k);
}

} // verus!
