//! The model of a workspace: identifiers of packages and targets, labels,
//! dependency kinds, and the table of names that resolving references
//! reads.

use vstd::prelude::*;
use crate::schema::{kind_text, lookup, rows_for, row_of, Block, PropDef, TableKind};
use crate::strs::{find_name, ByName};
use crate::text::{is_space_char, chars_of, is_space, owned, push_char, push_str, str_eq};

verus! {

#[derive(Clone, Copy, PartialEq, Eq, Structural, PartialOrd, Ord, Hash, Debug)]
pub struct PackageId(pub usize);

#[derive(Clone, Copy, PartialEq, Eq, Structural, PartialOrd, Ord, Hash, Debug)]
pub struct TargetId(pub usize);

/// `<package>:<target>`, as shown and as `dowel why` takes it.
pub open spec fn label_text(package_name: Seq<char>, target_name: Seq<char>) -> Seq<char> {
    package_name + ":"@ + target_name
}

pub fn label(package_name: &str, target_name: &str) -> (r: String)
    ensures
        r@ == label_text(package_name@, target_name@),
{
    let mut s = owned(package_name);
    push_str(&mut s, ":");
    push_str(&mut s, target_name);
    s
}

/// Why a case name cannot be used, if it cannot.
pub open spec fn case_name_text(name: Seq<char>) -> Option<Seq<char>> {
    if name.len() == 0 {
        Some("a case needs a name"@)
    } else if name.contains('/') {
        Some("`/` separates the target from the case in `<package>:<target>/<case>`"@)
    } else if exists|i: int| 0 <= i < name.len() && is_space(name[i]) {
        Some("whitespace splits the label for anything that reads it by words"@)
    } else {
        None
    }
}

pub fn case_name_problem(name: &str) -> (r: Option<&'static str>)
    ensures
        match r {
            Some(m) => case_name_text(name@) == Some(m@),
            None => case_name_text(name@) is None,
        },
{
    let cs = chars_of(name);
    if cs.len() == 0 {
        return Some("a case needs a name");
    }
    let mut i: usize = 0;
    while i < cs.len()
        invariant
            cs@ == name@,
            i <= cs@.len(),
            forall|j: int| 0 <= j < i ==> cs@[j] != '/',
        decreases cs.len() - i,
    {
        if cs[i] == '/' {
            assert(name@[i as int] == '/');
            return Some("`/` separates the target from the case in `<package>:<target>/<case>`");
        }
        i = i + 1;
    }
    let mut j: usize = 0;
    while j < cs.len()
        invariant
            cs@ == name@,
            !name@.contains('/'),
            j <= cs@.len(),
            forall|k: int| 0 <= k < j ==> !is_space(cs@[k]),
        decreases cs.len() - j,
    {
        if is_space_char(cs[j]) {
            return Some("whitespace splits the label for anything that reads it by words");
        }
        j = j + 1;
    }
    None
}

/// How a dependency is supplied.
#[derive(Clone, Debug)]
pub enum DepKind {
    /// A local path; nothing to fetch.
    Path(String),
    /// A git repository pinned at a full 40-digit commit sha, checked when
    /// read. Branches and tags are not pinned and are not accepted.
    Git { url: String, rev: String },
    /// Resolved through the system's pkg-config; the value is the lowest
    /// version accepted.
    PkgConfig { min_version: String },
    /// An archive pinned by the sha256 of its content, 64 hex digits.
    Tarball { url: String, sha256: String },
    /// A way of supplying that is not implemented; already diagnosed.
    Unsupported(&'static str),
}

/// What one dependency of a package resolved to.
#[derive(Clone, PartialEq, Eq, Debug)]
pub enum DepResolution {
    /// The name of the package it resolved to.
    Package(String),
    /// An optional dependency whose feature is off: it was not loaded.
    Inactive,
    /// A way of supplying that is not implemented; already diagnosed.
    AlreadyReported,
}

pub open spec fn resolution_text(r: DepResolution) -> Seq<char> {
    match r {
        DepResolution::Package(p) => p@,
        DepResolution::Inactive => "<inactive>"@,
        DepResolution::AlreadyReported => "<reported>"@,
    }
}

/// A package found through pkg-config.
pub struct Resolved {
    pub version: String,
    /// The words of `--cflags`, `-I...` among them.
    pub cflags: Vec<String>,
    /// The words of `--libs`, `-L...` and `-l...` among them.
    pub libs: Vec<String>,
}

/// What the end of a run wrote to the store, counted for tests and for
/// observation.
#[derive(Clone, Copy, Default, PartialEq, Eq, Debug)]
pub struct Saved {
    pub written: usize,
    pub restored: usize,
    pub skipped_diagnostics: usize,
}

/// The definition of a property, by name: a block property first, then a
/// property of the target itself.
pub fn prop_def(name: &str) -> (r: Option<PropDef>)
    ensures
        match r {
            Some(p) => row_of(p).0 == name@ && (rows_for(Block::Public).contains(row_of(p))
                || rows_for(Block::Root).contains(row_of(p))),
            None => forall|i: int| 0 <= i < rows_for(Block::Public).len() ==> (#[trigger] rows_for(Block::Public)[i]).0 != name@,
        },
        r is None ==> forall|i: int| 0 <= i < rows_for(Block::Root).len() ==> (#[trigger] rows_for(Block::Root)[i]).0 != name@,
        (exists|i: int| 0 <= i < rows_for(Block::Public).len() && (#[trigger] rows_for(Block::Public)[i]).0 == name@)
            ==> (r matches Some(p) && rows_for(Block::Public).contains(row_of(p))),
{
    match lookup(Block::Public, name) {
        Some(p) => Some(p),
        None => lookup(Block::Root, name),
    }
}

/// The names the resolution of references reads, for every package: its
/// targets with their kinds, and its dependencies with what they resolved
/// to, each in declaration order. It holds no values; it follows the shape
/// of the tree, so editing one file leaves it alone unless a target's name
/// changes.
pub struct NameTable {
    /// Package name to its targets.
    pub targets: ByName<Vec<(String, TableKind)>>,
    /// Package name to its declared dependencies and their resolutions.
    pub deps: ByName<Vec<(String, DepResolution)>>,
}

/// A package's targets: each as a separator, its name, a separator and its kind.
pub open spec fn targets_part(items: Seq<(String, TableKind)>) -> Seq<char>
    decreases items.len(),
{
    if items.len() == 0 {
        Seq::empty()
    } else {
        targets_part(items.drop_last()) + seq!['\u{1}'] + items.last().0@ + seq!['\u{2}'] + kind_text(
            items.last().1,
        )
    }
}

/// A package's dependencies: each as a separator, its name, a separator and
/// what it resolved to.
pub open spec fn deps_part(items: Seq<(String, DepResolution)>) -> Seq<char>
    decreases items.len(),
{
    if items.len() == 0 {
        Seq::empty()
    } else {
        deps_part(items.drop_last()) + seq!['\u{1}'] + items.last().0@ + seq!['\u{2}']
            + resolution_text(items.last().1)
    }
}

/// One line per package: its name, then its targets.
pub open spec fn targets_text(rows: Seq<(Seq<char>, Vec<(String, TableKind)>)>) -> Seq<char>
    decreases rows.len(),
{
    if rows.len() == 0 {
        Seq::empty()
    } else {
        targets_text(rows.drop_last()) + rows.last().0 + targets_part(rows.last().1@) + seq!['\n']
    }
}

/// One line per package: its name, then its dependencies.
pub open spec fn deps_text(rows: Seq<(Seq<char>, Vec<(String, DepResolution)>)>) -> Seq<char>
    decreases rows.len(),
{
    if rows.len() == 0 {
        Seq::empty()
    } else {
        deps_text(rows.drop_last()) + rows.last().0 + deps_part(rows.last().1@) + seq!['\n']
    }
}

impl NameTable {
    pub fn new() -> (r: NameTable)
        ensures
            r.wf(),
            r.targets.view().len() == 0,
            r.deps.view().len() == 0,
    {
        NameTable { targets: ByName::new(), deps: ByName::new() }
    }

    pub open spec fn wf(&self) -> bool {
        self.targets.wf() && self.deps.wf()
    }

    /// The text a fingerprint of the table is taken from: one line per
    /// package, packages in order of name, targets and then dependencies.
    /// The same content gives the same text, whatever order it was put in.
    pub open spec fn canonical_text(&self) -> Seq<char> {
        targets_text(self.targets.view()) + deps_text(self.deps.view())
    }

    pub fn canonical(&self) -> (r: String)
        ensures
            r@ == self.canonical_text(),
    {
        let mut out = String::new();
        let ghost trows = self.targets.view();
        let mut i: usize = 0;
        assert(trows.take(0) =~= Seq::<(Seq<char>, Vec<(String, TableKind)>)>::empty());
        while i < self.targets.len()
            invariant
                trows == self.targets.view(),
                i <= trows.len(),
                out@ == targets_text(trows.take(i as int)),
            decreases trows.len() - i,
        {
            let (pkg, items) = self.targets.entry(i);
            push_str(&mut out, pkg);
            let ghost before = out@;
            let mut j: usize = 0;
            assert(items@.take(0) =~= Seq::<(String, TableKind)>::empty());
            while j < items.len()
                invariant
                    j <= items@.len(),
                    out@ == before + targets_part(items@.take(j as int)),
                decreases items@.len() - j,
            {
                push_char(&mut out, '\u{1}');
                push_str(&mut out, items[j].0.as_str());
                push_char(&mut out, '\u{2}');
                push_str(&mut out, items[j].1.name());
                assert(items@.take(j + 1).drop_last() =~= items@.take(j as int));
                assert(out@ =~= before + targets_part(items@.take(j + 1)));
                j = j + 1;
            }
            assert(items@.take(j as int) =~= items@);
            push_char(&mut out, '\n');
            assert(trows.take(i + 1).drop_last() =~= trows.take(i as int));
            assert(out@ =~= targets_text(trows.take(i + 1)));
            i = i + 1;
        }
        assert(trows.take(i as int) =~= trows);
        let ghost head = out@;
        let ghost drows = self.deps.view();
        let mut i: usize = 0;
        assert(drows.take(0) =~= Seq::<(Seq<char>, Vec<(String, DepResolution)>)>::empty());
        assert(out@ =~= head + deps_text(drows.take(0)));
        while i < self.deps.len()
            invariant
                drows == self.deps.view(),
                i <= drows.len(),
                out@ == head + deps_text(drows.take(i as int)),
            decreases drows.len() - i,
        {
            let (pkg, items) = self.deps.entry(i);
            push_str(&mut out, pkg);
            let ghost before = out@;
            let mut j: usize = 0;
            assert(items@.take(0) =~= Seq::<(String, DepResolution)>::empty());
            while j < items.len()
                invariant
                    j <= items@.len(),
                    out@ == before + deps_part(items@.take(j as int)),
                decreases items@.len() - j,
            {
                push_char(&mut out, '\u{1}');
                push_str(&mut out, items[j].0.as_str());
                push_char(&mut out, '\u{2}');
                match &items[j].1 {
                    DepResolution::Package(p) => push_str(&mut out, p.as_str()),
                    DepResolution::Inactive => push_str(&mut out, "<inactive>"),
                    DepResolution::AlreadyReported => push_str(&mut out, "<reported>"),
                }
                assert(items@.take(j + 1).drop_last() =~= items@.take(j as int));
                assert(out@ =~= before + deps_part(items@.take(j + 1)));
                j = j + 1;
            }
            assert(items@.take(j as int) =~= items@);
            push_char(&mut out, '\n');
            assert(drows.take(i + 1).drop_last() =~= drows.take(i as int));
            assert(out@ =~= head + deps_text(drows.take(i + 1)));
            i = i + 1;
        }
        assert(drows.take(i as int) =~= drows);
        out
    }

    /// The targets of `pkg`, if the package is known.
    pub open spec fn targets_of(&self, pkg: Seq<char>) -> Seq<(String, TableKind)> {
        match self.targets.lookup(pkg) {
            Some(v) => v@,
            None => Seq::empty(),
        }
    }

    /// The dependencies of `pkg`, if the package is known.
    pub open spec fn deps_of(&self, pkg: Seq<char>) -> Seq<(String, DepResolution)> {
        match self.deps.lookup(pkg) {
            Some(v) => v@,
            None => Seq::empty(),
        }
    }

    /// Whether `pkg` has a target named `name`.
    pub fn target_in(&self, pkg: &str, name: &str) -> (r: bool)
        requires
            self.wf(),
        ensures
            r == exists|i: int| 0 <= i < self.targets_of(pkg@).len() && (#[trigger] self.targets_of(pkg@)[i]).0@ == name@,
    {
        let ts = match self.targets.get(pkg) {
            Some(ts) => ts,
            None => {
                return false;
            },
        };
        assert(self.targets_of(pkg@) == ts@);
        let mut i: usize = 0;
        while i < ts.len()
            invariant
                self.targets_of(pkg@) == ts@,
                i <= ts@.len(),
                forall|j: int| 0 <= j < i ==> (#[trigger] ts@[j]).0@ != name@,
            decreases ts@.len() - i,
        {
            if str_eq(ts[i].0.as_str(), name) {
                assert(self.targets_of(pkg@) == ts@);
                assert(self.targets_of(pkg@)[i as int].0@ == name@);
                return true;
            }
            i = i + 1;
        }
        false
    }

    /// The names of the targets of `pkg`, in declaration order.
    pub fn target_names(&self, pkg: &str) -> (r: Vec<&str>)
        requires
            self.wf(),
        ensures
            r@.len() == self.targets_of(pkg@).len(),
            forall|i: int| 0 <= i < r@.len() ==> (#[trigger] r@[i])@ == self.targets_of(pkg@)[i].0@,
    {
        let mut out: Vec<&str> = Vec::new();
        if let Some(ts) = self.targets.get(pkg) {
            let mut i: usize = 0;
            while i < ts.len()
                invariant
                    i <= ts@.len(),
                    out@.len() == i,
                    forall|j: int| 0 <= j < i ==> (#[trigger] out@[j])@ == ts@[j].0@,
                decreases ts@.len() - i,
            {
                out.push(ts[i].0.as_str());
                i = i + 1;
            }
        }
        out
    }

    /// The names of the dependencies of `pkg`, in declaration order.
    pub fn dep_names(&self, pkg: &str) -> (r: Vec<&str>)
        requires
            self.wf(),
        ensures
            r@.len() == self.deps_of(pkg@).len(),
            forall|i: int| 0 <= i < r@.len() ==> (#[trigger] r@[i])@ == self.deps_of(pkg@)[i].0@,
    {
        let mut out: Vec<&str> = Vec::new();
        if let Some(ds) = self.deps.get(pkg) {
            let mut i: usize = 0;
            while i < ds.len()
                invariant
                    i <= ds@.len(),
                    out@.len() == i,
                    forall|j: int| 0 <= j < i ==> (#[trigger] out@[j])@ == ds@[j].0@,
                decreases ds@.len() - i,
            {
                out.push(ds[i].0.as_str());
                i = i + 1;
            }
        }
        out
    }

    /// What the dependency `name` of `pkg` resolved to: the first
    /// declaration of that name.
    pub fn resolve_dep(&self, pkg: &str, name: &str) -> (r: Option<&DepResolution>)
        requires
            self.wf(),
        ensures
            match r {
                Some(d) => exists|i: int|
                    0 <= i < self.deps_of(pkg@).len() && self.deps_of(pkg@)[i].0@ == name@
                        && self.deps_of(pkg@)[i].1 == *d && forall|j: int|
                        0 <= j < i ==> (#[trigger] self.deps_of(pkg@)[j]).0@ != name@,
                None => forall|i: int|
                    0 <= i < self.deps_of(pkg@).len() ==> (#[trigger] self.deps_of(pkg@)[i]).0@ != name@,
            },
    {
        let ds = match self.deps.get(pkg) {
            Some(ds) => ds,
            None => {
                return None;
            },
        };
        assert(self.deps_of(pkg@) == ds@);
        let mut i: usize = 0;
        while i < ds.len()
            invariant
                self.deps_of(pkg@) == ds@,
                i <= ds@.len(),
                forall|j: int| 0 <= j < i ==> (#[trigger] ds@[j]).0@ != name@,
            decreases ds@.len() - i,
        {
            if str_eq(ds[i].0.as_str(), name) {
                assert(self.deps_of(pkg@) == ds@);
                assert(self.deps_of(pkg@)[i as int].0@ == name@);
                return Some(&ds[i].1);
            }
            i = i + 1;
        }
        None
    }

    /// The labels of the libraries that package `pkg` supplies, in
    /// declaration order.
    pub fn libs_of(&self, pkg: &str) -> (r: Vec<String>)
        requires
            self.wf(),
        ensures
            r@.map_values(|s: String| s@) == self.targets_of(pkg@).filter(
                |t: (String, TableKind)| t.1 == TableKind::Lib,
            ).map_values(|t: (String, TableKind)| label_text(pkg@, t.0@)),
    {
        let mut out: Vec<String> = Vec::new();
        let ghost all = self.targets_of(pkg@);
        let ghost is_lib = |t: (String, TableKind)| t.1 == TableKind::Lib;
        let ghost show = |t: (String, TableKind)| label_text(pkg@, t.0@);
        match self.targets.get(pkg) {
            Some(ts) => {
                let mut i: usize = 0;
                assert(ts@.take(0) =~= Seq::<(String, TableKind)>::empty());
                proof {
                    reveal(Seq::filter);
                }
                assert(out@.map_values(|s: String| s@) =~= ts@.take(0).filter(is_lib).map_values(show));
                while i < ts.len()
                    invariant
                        all == ts@,
                        is_lib == (|t: (String, TableKind)| t.1 == TableKind::Lib),
                        show == (|t: (String, TableKind)| label_text(pkg@, t.0@)),
                        i <= ts@.len(),
                        out@.map_values(|s: String| s@) == ts@.take(i as int).filter(is_lib).map_values(show),
                    decreases ts@.len() - i,
                {
                    proof {
                        reveal(Seq::filter);
                        assert(ts@.take(i + 1).drop_last() =~= ts@.take(i as int));
                        assert(ts@.take(i + 1).last() == ts@[i as int]);
                    }
                    if ts[i].1 == TableKind::Lib {
                        let l = label(pkg, ts[i].0.as_str());
                        let ghost before = out@;
                        out.push(l);
                        assert(out@.map_values(|s: String| s@) =~= before.map_values(|s: String| s@).push(l@));
                    }
                    i = i + 1;
                }
                assert(ts@.take(i as int) =~= ts@);
            },
            None => {
                proof {
                    reveal(Seq::filter);
                }
                assert(out@.map_values(|s: String| s@) =~= all.filter(is_lib).map_values(show));
            },
        }
        out
    }
}

} // verus!
