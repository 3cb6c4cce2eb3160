//! Reading `dowel.toml`: the package, its toolchains, features and
//! dependencies, and the diagnostics of what it gets wrong.

use vstd::prelude::*;
use crate::config::Style;
use crate::document::strings_view;
use crate::model::{DepKind, PackageId};
use crate::text::{lemma_split_once_none, split_once};
use crate::strs::{find_name, lemma_find_name_absent, lemma_find_name_at, lemma_less_irreflexive, names_of, seq_less, strictly_sorted, ByName, NameSet};
use crate::text::{copy_string, owned, push_str, str_eq};
use crate::value::{FileId, Site, Span};

verus! {

// --- toolchain declarations ------------------------------------------------------

/// One tool's declaration.
#[derive(Debug)]
pub struct ToolDecl {
    /// The command that starts it.
    pub command: String,
    /// Where it was declared.
    pub site: Site,
}

pub open spec fn tool_m(t: ToolDecl) -> (Seq<char>, Site) {
    (t.command@, t.site)
}

impl ToolDecl {
    pub fn copy(&self) -> (r: ToolDecl)
        ensures
            tool_m(r) == tool_m(*self),
    {
        ToolDecl { command: copy_string(&self.command), site: self.site }
    }
}

/// Where a toolchain to fetch comes from: an archive pinned by its digest.
#[derive(Debug)]
pub struct ToolchainSource {
    pub url: String,
    pub sha256: String,
    /// Where `url` was written.
    pub site: Site,
}

pub open spec fn source_m(s: ToolchainSource) -> (Seq<char>, Seq<char>, Site) {
    (s.url@, s.sha256@, s.site)
}

impl ToolchainSource {
    pub fn copy(&self) -> (r: ToolchainSource)
        ensures
            source_m(r) == source_m(*self),
    {
        ToolchainSource { url: copy_string(&self.url), sha256: copy_string(&self.sha256), site: self.site }
    }
}

/// The contents of one `[toolchain]` or `[toolchain.<triple>]` table.
#[derive(Debug)]
pub struct ToolchainDecl {
    /// Where the table's header was written.
    pub site: Option<Site>,
    /// Tool name to declaration; a tool not declared falls back to the
    /// table of defaults.
    pub tools: ByName<ToolDecl>,
    /// How arguments are spelled; derived from the triple when absent.
    pub style: Option<Style>,
    /// A toolchain to fetch; absent, the tools are looked for on the machine.
    pub source: Option<ToolchainSource>,
    /// The sysroot, relative to a fetched toolchain's root.
    pub sysroot: Option<String>,
}

/// A toolchain declaration as plain values.
pub struct DeclM {
    pub site: Option<Site>,
    pub tools: Map<Seq<char>, (Seq<char>, Site)>,
    pub style: Option<Style>,
    pub source: Option<(Seq<char>, Seq<char>, Site)>,
    pub sysroot: Option<Seq<char>>,
}

/// What rows hold, name by name.
pub open spec fn rows_map<T>(rows: Seq<(Seq<char>, T)>) -> Map<Seq<char>, T> {
    Map::new(|k: Seq<char>| find_name(rows, k) is Some, |k: Seq<char>| find_name(rows, k)->0)
}

/// Looking a name up in rows with one more at the end.
pub proof fn lemma_find_name_push<T>(s: Seq<(Seq<char>, T)>, r: (Seq<char>, T), k: Seq<char>)
    ensures
        find_name(s.push(r), k) == (match find_name(s, k) {
            Some(v) => Some(v),
            None => if r.0 == k {
                Some(r.1)
            } else {
                None
            },
        }),
    decreases s.len(),
{
    if s.len() > 0 {
        assert(s.push(r).drop_first() =~= s.drop_first().push(r));
        assert(s.push(r)[0] == s[0]);
        lemma_find_name_push(s.drop_first(), r, k);
        if s[0].0 != k {
            assert(find_name(s.push(r), k) == find_name(s.push(r).drop_first(), k));
            assert(find_name(s, k) == find_name(s.drop_first(), k));
        }
    } else {
        assert(s.push(r).drop_first() =~= Seq::<(Seq<char>, T)>::empty());
        assert(s.push(r)[0] == r);
    }
}

impl ToolchainDecl {
    /// The declaration's invariant: the tools are kept by name.
    pub open spec fn wf(&self) -> bool {
        self.tools.wf()
    }

    /// The declared tools, name by name.
    pub open spec fn tools_m(&self) -> Map<Seq<char>, (Seq<char>, Site)> {
        rows_map(self.tools.view()).map_values(|t: ToolDecl| tool_m(t))
    }

    proof fn lemma_tools_m(&self, k: Seq<char>)
        ensures
            self.tools_m().contains_key(k) == (self.tools.lookup(k) is Some),
            self.tools.lookup(k) is Some ==> self.tools_m()[k] == tool_m(self.tools.lookup(k)->0),
    {
        assert(rows_map(self.tools.view()).contains_key(k) == (self.tools.lookup(k) is Some));
    }

    /// The declaration of a tool, by its name in the table of tools.
    pub fn tool(&self, name: &str) -> (r: Option<&ToolDecl>)
        requires
            self.wf(),
        ensures
            match r {
                Some(t) => self.tools_m().contains_key(name@) && self.tools_m()[name@] == tool_m(*t),
                None => !self.tools_m().contains_key(name@),
            },
    {
        self.tools.get(name)
    }

    /// Declares a tool, in place of an earlier declaration of it.
    pub fn set_tool(&mut self, name: &str, command: String, site: Site)
        requires
            old(self).wf(),
        ensures
            final(self).wf(),
            decl_m(*final(self)) == (DeclM {
                tools: decl_m(*old(self)).tools.insert(name@, (command@, site)),
                ..decl_m(*old(self))
            }),
    {
        let ghost before = *self;
        self.tools.insert(owned(name), ToolDecl { command, site });
        let ghost target = before.tools_m().insert(name@, (command@, site));
        assert forall|k: Seq<char>|
            #![trigger self.tools_m().dom().contains(k)]
            #![trigger target.dom().contains(k)]
            self.tools_m().dom().contains(k) == target.dom().contains(k)
            && (self.tools_m().dom().contains(k) ==> self.tools_m()[k] == target[k]) by {
            self.lemma_tools_m(k);
            before.lemma_tools_m(k);
        }
        assert(self.tools_m() =~= target);
    }

    /// Takes from `other` what this declaration lacks; what it has stays.
    pub fn fill_from(&mut self, other: &ToolchainDecl)
        requires
            old(self).wf(),
            other.wf(),
        ensures
            final(self).wf(),
            decl_m(*final(self)) == filled(decl_m(*old(self)), decl_m(*other)),
    {
        let ghost mine = self.tools_m();
        let ghost theirs = other.tools.view();
        let mut i: usize = 0;
        while i < other.tools.len()
            invariant
                self.wf(),
                other.wf(),
                theirs == other.tools.view(),
                i <= theirs.len(),
                self.tools_m() == rows_map(theirs.take(i as int)).map_values(|t: ToolDecl| tool_m(t))
                    .union_prefer_right(mine),
                self.site == old(self).site,
                self.style == old(self).style,
                self.source == old(self).source,
                self.sysroot == old(self).sysroot,
            decreases theirs.len() - i,
        {
            let (name, decl) = other.tools.entry(i);
            let ghost before = self.tools_m();
            proof {
                assert(theirs.take(i + 1) =~= theirs.take(i as int).push(theirs[i as int]));
                assert forall|k: Seq<char>|
                    #[trigger] find_name(theirs.take(i + 1), k) == (match find_name(theirs.take(i as int), k) {
                        Some(v) => Some(v),
                        None => if theirs[i as int].0 == k {
                            Some(theirs[i as int].1)
                        } else {
                            None
                        },
                    }) by {
                    lemma_find_name_push(theirs.take(i as int), theirs[i as int], k);
                }
            }
            let ghost prev = *self;
            let ghost target = rows_map(theirs.take(i + 1)).map_values(|t: ToolDecl| tool_m(t))
                .union_prefer_right(mine);
            if self.tools.get(name).is_none() {
                self.tools.insert(owned(name), decl.copy());
            }
            assert forall|k: Seq<char>|
                #![trigger self.tools_m().dom().contains(k)]
                #![trigger target.dom().contains(k)]
                self.tools_m().dom().contains(k) == target.dom().contains(k) && (self.tools_m().dom().contains(k)
                    ==> self.tools_m()[k] == target[k]) by {
                self.lemma_tools_m(k);
                prev.lemma_tools_m(k);
                assert(rows_map(theirs.take(i as int)).contains_key(k) == (find_name(theirs.take(i as int), k) is Some));
                assert(rows_map(theirs.take(i + 1)).contains_key(k) == (find_name(theirs.take(i + 1), k) is Some));
            }
            assert(self.tools_m() =~= target);
            i += 1;
        }
        assert(theirs.take(i as int) =~= theirs);
        if self.style.is_none() {
            self.style = other.style;
        }
        if self.source.is_none() {
            self.source = match &other.source {
                Some(s) => Some(s.copy()),
                None => None,
            };
        }
        if self.sysroot.is_none() {
            self.sysroot = match &other.sysroot {
                Some(s) => Some(copy_string(s)),
                None => None,
            };
        }
        if self.site.is_none() {
            self.site = other.site;
        }
        assert(decl_m(*self).tools =~= filled(decl_m(*old(self)), decl_m(*other)).tools);
    }

    /// For the unmarked `[toolchain]`: taken whole while nothing is
    /// declared yet, else filled in.
    pub fn fill_from_or_replace(&mut self, other: ToolchainDecl)
        requires
            old(self).wf(),
            other.wf(),
        ensures
            final(self).wf(),
            decl_m(*final(self)) == (if is_blank_decl(decl_m(*old(self))) {
                decl_m(other)
            } else {
                filled(decl_m(*old(self)), decl_m(other))
            }),
    {
        if self.site.is_none() && self.tools.len() == 0 && self.style.is_none() {
            proof {
                assert(decl_m(*self).tools =~= Map::<Seq<char>, (Seq<char>, Site)>::empty());
            }
            *self = other;
        } else {
            proof {
                if self.tools.view().len() > 0 {
                    lemma_find_name_at(self.tools.view(), 0);
                    assert(decl_m(*self).tools.contains_key(self.tools.view()[0].0));
                }
            }
            self.fill_from(&other);
        }
    }

    pub fn copy(&self) -> (r: ToolchainDecl)
        requires
            self.wf(),
        ensures
            r.wf(),
            decl_m(r) == decl_m(*self),
    {
        let mut r = ToolchainDecl::default();
        r.fill_from(self);
        assert(decl_m(r).tools =~= decl_m(*self).tools);
        r
    }
}

impl Default for ToolchainDecl {
    fn default() -> (r: ToolchainDecl)
        ensures
            r.wf(),
            decl_m(r) == blank_decl(),
    {
        let r = ToolchainDecl { site: None, tools: ByName::new(), style: None, source: None, sysroot: None };
        assert(decl_m(r).tools =~= Map::<Seq<char>, (Seq<char>, Site)>::empty());
        r
    }
}

pub open spec fn decl_m(d: ToolchainDecl) -> DeclM {
    DeclM {
        site: d.site,
        tools: d.tools_m(),
        style: d.style,
        source: match d.source {
            Some(s) => Some(source_m(s)),
            None => None,
        },
        sysroot: match d.sysroot {
            Some(s) => Some(s@),
            None => None,
        },
    }
}

/// A declaration with nothing in it.
pub open spec fn blank_decl() -> DeclM {
    DeclM { site: None, tools: Map::empty(), style: None, source: None, sysroot: None }
}

/// Whether nothing that decides a toolchain is declared yet.
pub open spec fn is_blank_decl(d: DeclM) -> bool {
    d.site is None && d.tools == Map::<Seq<char>, (Seq<char>, Site)>::empty() && d.style is None
}

/// What `fill_from` gives: what `mine` declares, and the rest from `theirs`.
pub open spec fn filled(mine: DeclM, theirs: DeclM) -> DeclM {
    DeclM {
        site: if mine.site is None { theirs.site } else { mine.site },
        tools: theirs.tools.union_prefer_right(mine.tools),
        style: if mine.style is None { theirs.style } else { mine.style },
        source: if mine.source is None { theirs.source } else { mine.source },
        sysroot: if mine.sysroot is None { theirs.sysroot } else { mine.sysroot },
    }
}

// --- packages ----------------------------------------------------------------------

/// One dependency of a package.
#[derive(Debug)]
pub struct Dependency {
    pub name: String,
    pub kind: DepKind,
    pub optional: bool,
    /// The `[[dependencies]]` header.
    pub site: Site,
    /// The line that names the source (`path`, `git`, `url` or `version`);
    /// the header when there is none.
    pub source_site: Site,
}

/// What `dowel.toml` declares about one package.
#[derive(Debug)]
pub struct Package {
    pub id: PackageId,
    pub name: String,
    pub version: String,
    /// `[package] description`: one line; empty, the name stands for it.
    pub description: String,
    /// The directory of the manifest, against which `dir()` and `glob()`
    /// resolve.
    pub root: String,
    pub manifest_file: FileId,
    pub build_file: Option<FileId>,
    pub deps: Vec<Dependency>,
    /// Feature name to the other features it enables.
    pub features: ByName<Vec<String>>,
    /// The `[features]` header.
    pub features_site: Option<Site>,
    /// Groups of features that cannot be enabled together, with where each
    /// was declared. Features stay additive: this is a declared constraint.
    pub exclusive: Vec<(Vec<String>, Site)>,
    /// `[package] targets`: the triples this tree is meant for; empty, any.
    pub targets: Vec<String>,
    /// Where `targets = [...]` was written.
    pub targets_site: Option<Site>,
    /// The unmarked `[toolchain]`, for builds for the host.
    pub toolchain: ToolchainDecl,
    /// `[toolchain.<triple>]`, by triple.
    pub toolchains: ByName<ToolchainDecl>,
    /// `[package] toolchains`: the relative path of a shared toolchain file,
    /// and where it was written.
    pub toolchains_path: Option<(String, Site)>,
}

/// The features, name by name, as the names they enable.
pub open spec fn features_m(p: Package) -> Map<Seq<char>, Seq<Seq<char>>> {
    rows_map(p.features.view()).map_values(|v: Vec<String>| strings_view(v@))
}

/// The toolchains by triple, as plain values.
pub open spec fn toolchains_m(p: Package) -> Map<Seq<char>, DeclM> {
    rows_map(p.toolchains.view()).map_values(|d: ToolchainDecl| decl_m(d))
}

impl Package {
    /// The package's invariant: every table by name is kept in order.
    pub open spec fn wf(&self) -> bool {
        &&& self.features.wf()
        &&& self.toolchains.wf()
        &&& self.toolchain.wf()
        &&& forall|k: Seq<char>| #[trigger] self.toolchains.lookup(k) matches Some(d) ==> d.wf()
    }

    /// The toolchain declaration that applies to a build for `triple`: the
    /// triple's own first; the unmarked one only for the host, which
    /// `is_host` says this triple is; none for another triple without one.
    pub fn toolchain_for(&self, triple: &str, is_host: bool) -> (r: Option<&ToolchainDecl>)
        requires
            self.wf(),
        ensures
            match r {
                Some(d) => match self.toolchains.lookup(triple@) {
                    Some(x) => *d == x,
                    None => is_host && *d == self.toolchain,
                },
                None => self.toolchains.lookup(triple@) is None && !is_host,
            },
    {
        if let Some(d) = self.toolchains.get(triple) {
            return Some(d);
        }
        if is_host {
            return Some(&self.toolchain);
        }
        None
    }
}

// --- features ----------------------------------------------------------------------

/// The features one package enables: its own, and those it forwards to its
/// dependencies as `dep/feat`.
#[derive(Debug)]
pub struct Features {
    /// The features enabled in this package.
    pub own: NameSet,
    /// Dependency name to the features enabled in it, with where each was
    /// declared.
    pub forwarded: ByName<Vec<(String, Site)>>,
}

/// What a feature enables; nothing for one not declared.
pub open spec fn enables(p: Package, f: Seq<char>) -> Seq<Seq<char>> {
    if features_m(p).contains_key(f) {
        features_m(p)[f]
    } else {
        Seq::empty()
    }
}

/// The features resolving starts from: those asked for, then the defaults
/// unless they are turned off.
pub open spec fn starts_of(p: Package, requested: Seq<Seq<char>>, use_default: bool) -> Seq<Seq<char>> {
    requested + (if use_default {
        enables(p, "default"@)
    } else {
        Seq::empty()
    })
}

/// A name of this package's own features: not `default`, not `dep/feat`.
pub open spec fn plain(f: Seq<char>) -> bool {
    f != "default"@ && split_once(f, '/') is None
}

/// Whether a set holds every plain name of `s`.
pub open spec fn holds_plain(t: Set<Seq<char>>, s: Seq<Seq<char>>) -> bool {
    forall|i: int| 0 <= i < s.len() && plain(#[trigger] s[i]) ==> t.contains(s[i])
}

/// Whether a set holds, with each feature, the plain features it enables.
pub open spec fn closed_under(p: Package, t: Set<Seq<char>>) -> bool {
    forall|f: Seq<char>| #[trigger] t.contains(f) ==> holds_plain(t, enables(p, f))
}

/// Whether a set holds the plain features asked for and is closed: every
/// such set holds what resolving enables.
pub open spec fn admissible(p: Package, st: Seq<Seq<char>>, t: Set<Seq<char>>) -> bool {
    holds_plain(t, st) && closed_under(p, t)
}

/// Whether `x` is asked for or enabled by one of `own`.
pub open spec fn reached(p: Package, st: Seq<Seq<char>>, own: Set<Seq<char>>, x: Seq<char>) -> bool {
    st.contains(x) || exists|f: Seq<char>| own.contains(f) && #[trigger] enables(p, f).contains(x)
}

/// The features forwarded to dependencies, as plain values.
pub open spec fn forwarded_m(f: Features) -> Map<Seq<char>, Seq<(Seq<char>, Site)>> {
    rows_map(f.forwarded.view()).map_values(|v: Vec<(String, Site)>| pairs_view(v@))
}

pub open spec fn pairs_view(v: Seq<(String, Site)>) -> Seq<(Seq<char>, Site)> {
    v.map_values(|x: (String, Site)| (x.0@, x.1))
}

/// Whether `feat` is forwarded to `dep`.
pub open spec fn forwards(f: Features, dep: Seq<char>, feat: Seq<char>) -> bool {
    forwarded_m(f).contains_key(dep) && exists|i: int|
        0 <= i < forwarded_m(f)[dep].len() && (#[trigger] forwarded_m(f)[dep][i]).0 == feat
}

/// Where a forwarded feature is said to be declared: the `[features]`
/// header, or the start of the manifest.
pub open spec fn features_site_of(p: Package) -> Site {
    match p.features_site {
        Some(s) => s,
        None => Site { file: p.manifest_file, span: Span { start: 0, end: 0 } },
    }
}

/// The total length of what the features not in `done` enable: a bound on
/// what resolving can still push.
pub open spec fn pending(rows: Seq<(Seq<char>, Vec<String>)>, done: Set<Seq<char>>) -> int
    decreases rows.len(),
{
    if rows.len() == 0 {
        0
    } else {
        pending(rows.drop_last(), done) + if done.contains(rows.last().0) {
            0
        } else {
            rows.last().1@.len() as int
        }
    }
}

proof fn lemma_pending_nonneg(rows: Seq<(Seq<char>, Vec<String>)>, done: Set<Seq<char>>)
    ensures
        pending(rows, done) >= 0,
    decreases rows.len(),
{
    if rows.len() > 0 {
        lemma_pending_nonneg(rows.drop_last(), done);
    }
}

/// Marking one more feature done takes what it enables off the bound.
proof fn lemma_pending_done(rows: Seq<(Seq<char>, Vec<String>)>, done: Set<Seq<char>>, f: Seq<char>)
    requires
        strictly_sorted(names_of(rows)),
        !done.contains(f),
    ensures
        pending(rows, done.insert(f)) == pending(rows, done) - match find_name(rows, f) {
            Some(v) => v@.len() as int,
            None => 0,
        },
    decreases rows.len(),
{
    if rows.len() > 0 {
        let d = rows.drop_last();
        assert(strictly_sorted(names_of(d))) by {
            assert forall|a: int, b: int| 0 <= a < b < d.len() implies seq_less(names_of(d)[a], names_of(d)[b]) by {
                assert(names_of(d)[a] == names_of(rows)[a]);
                assert(names_of(d)[b] == names_of(rows)[b]);
            }
        }
        lemma_pending_done(d, done, f);
        assert(rows =~= d.push(rows.last()));
        lemma_find_name_push(d, rows.last(), f);
        if rows.last().0 == f {
            // The last name is after every other, so `f` is not among them.
            assert forall|j: int| 0 <= j < d.len() implies d[j].0 != f by {
                assert(names_of(rows)[j] == d[j].0);
                assert(names_of(rows)[rows.len() - 1] == rows.last().0);
                assert(seq_less(names_of(rows)[j], names_of(rows)[rows.len() - 1]));
                lemma_less_irreflexive(f);
            }
            lemma_find_name_absent(d, f);
        }
    }
}

/// A copy of a list of named sites.
fn copy_pairs(v: &Vec<(String, Site)>) -> (r: Vec<(String, Site)>)
    ensures
        pairs_view(r@) == pairs_view(v@),
{
    let mut r: Vec<(String, Site)> = Vec::new();
    let mut i: usize = 0;
    while i < v.len()
        invariant
            i <= v@.len(),
            pairs_view(r@) == pairs_view(v@.take(i as int)),
        decreases v.len() - i,
    {
        let ghost prev = r@;
        let c = copy_string(&v[i].0);
        r.push((c, v[i].1));
        assert(r@ == prev.push((c, v@[i as int].1)));
        assert(v@.take(i + 1) =~= v@.take(i as int).push(v@[i as int]));
        assert(pairs_view(r@) =~= pairs_view(prev).push((c@, v@[i as int].1)));
        assert(pairs_view(v@.take(i + 1)) =~= pairs_view(v@.take(i as int)).push((v@[i as int].0@, v@[i as int].1)));
        i += 1;
    }
    assert(v@.take(i as int) =~= v@);
    r
}

/// Appends copies of `from` to `to`.
fn push_all(to: &mut Vec<String>, from: &Vec<String>)
    ensures
        strings_view(final(to)@) == strings_view(old(to)@) + strings_view(from@),
{
    let mut j: usize = 0;
    while j < from.len()
        invariant
            j <= from@.len(),
            strings_view(to@) == strings_view(old(to)@) + strings_view(from@).take(j as int),
        decreases from.len() - j,
    {
        let ghost prev = to@;
        let c = copy_string(&from[j]);
        to.push(c);
        assert(to@ == prev.push(c));
        assert(strings_view(to@) =~= strings_view(prev).push(c@));
        assert(strings_view(from@).take(j + 1) =~= strings_view(from@).take(j as int).push(from@[j as int]@));
        j += 1;
    }
    assert(strings_view(from@).take(j as int) =~= strings_view(from@));
}

/// Resolves the features to enable, and parts them into this package's own
/// and those forwarded to dependencies. `default` is taken unless
/// `use_default` is off; what a feature enables is followed until nothing
/// new is reached.
pub fn resolve(pkg: &Package, requested: &[String], use_default: bool) -> (out: Features)
    requires
        pkg.wf(),
    ensures
        out.own.wf(),
        out.forwarded.wf(),
        ({
            let st = starts_of(*pkg, strings_view(requested@), use_default);
            let own = out.own.view().to_set();
            &&& holds_plain(own, st)
            &&& closed_under(*pkg, own)
            &&& forall|t: Set<Seq<char>>| #[trigger] admissible(*pkg, st, t) ==> own.subset_of(t)
            &&& forall|x: Seq<char>| own.contains(x) ==> plain(x)
            &&& forall|dep: Seq<char>, feat: Seq<char>|
                #[trigger] forwards(out, dep, feat) <==> exists|x: Seq<char>|
                    reached(*pkg, st, own, x) && #[trigger] split_once(x, '/') == Some((dep, feat))
            &&& forall|dep: Seq<char>, i: int|
                forwarded_m(out).contains_key(dep) && 0 <= i < forwarded_m(out)[dep].len()
                    ==> (#[trigger] forwarded_m(out)[dep][i]).1 == features_site_of(*pkg)
        }),
{
    let ghost rq = strings_view(requested@);
    let ghost st = starts_of(*pkg, rq, use_default);
    let ghost rows = pkg.features.view();
    let mut out = Features { own: NameSet::new(), forwarded: ByName::new() };
    let mut stack: Vec<String> = Vec::new();
    let mut k: usize = 0;
    while k < requested.len()
        invariant
            k <= requested@.len(),
            rq == strings_view(requested@),
            strings_view(stack@) == rq.take(k as int),
        decreases requested.len() - k,
    {
        let ghost prev = stack@;
        let c = copy_string(&requested[k]);
        stack.push(c);
        assert(stack@ == prev.push(c));
        assert(strings_view(stack@) =~= strings_view(prev).push(c@));
        assert(rq.take(k + 1) =~= rq.take(k as int).push(requested@[k as int]@));
        k += 1;
    }
    assert(rq.take(k as int) =~= rq);
    if use_default {
        match pkg.features.get("default") {
            Some(defaults) => {
                push_all(&mut stack, defaults);
            },
            None => {},
        }
    }
    assert(strings_view(stack@) =~= st);
    let mut seen = NameSet::new();
    assert(out.own.view().to_set() =~= Set::<Seq<char>>::empty());
    assert(seen.view().to_set() =~= Set::<Seq<char>>::empty());
    proof {
        lemma_pending_nonneg(rows, out.own.view().to_set());
        assert forall|dep: Seq<char>, feat: Seq<char>| !forwards(out, dep, feat) by {}
    }
    while stack.len() > 0
        invariant
            pkg.wf(),
            rows == pkg.features.view(),
            st == starts_of(*pkg, rq, use_default),
            out.own.wf(),
            seen.wf(),
            out.forwarded.wf(),
            forall|x: Seq<char>|
                #![trigger out.own.view().to_set().contains(x)]
                #![trigger seen.view().to_set().contains(x)]
                out.own.view().to_set().contains(x) <==> seen.view().to_set().contains(x) && plain(x),
            forall|x: Seq<char>| #[trigger] seen.view().to_set().contains(x) ==> x != "default"@,
            forall|i: int|
                0 <= i < st.len() ==> #[trigger] st[i] == "default"@ || seen.view().to_set().contains(st[i])
                    || strings_view(stack@).contains(st[i]),
            forall|f: Seq<char>, i: int|
                #![trigger out.own.view().to_set().contains(f), enables(*pkg, f)[i]]
                out.own.view().to_set().contains(f) && 0 <= i < enables(*pkg, f).len() ==> enables(*pkg, f)[i]
                    == "default"@ || seen.view().to_set().contains(enables(*pkg, f)[i]) || strings_view(
                    stack@,
                ).contains(enables(*pkg, f)[i]),
            forall|x: Seq<char>|
                seen.view().to_set().contains(x) || strings_view(stack@).contains(x) ==> #[trigger] reached(
                    *pkg,
                    st,
                    out.own.view().to_set(),
                    x,
                ),
            forall|t: Set<Seq<char>>|
                #[trigger] admissible(*pkg, st, t) ==> out.own.view().to_set().subset_of(t) && holds_plain(
                    t,
                    strings_view(stack@),
                ),
            forall|dep: Seq<char>, feat: Seq<char>|
                #[trigger] forwards(out, dep, feat) <==> exists|x: Seq<char>|
                    seen.view().to_set().contains(x) && #[trigger] split_once(x, '/') == Some((dep, feat)),
            forall|dep: Seq<char>, i: int|
                forwarded_m(out).contains_key(dep) && 0 <= i < forwarded_m(out)[dep].len()
                    ==> (#[trigger] forwarded_m(out)[dep][i]).1 == features_site_of(*pkg),
            pending(rows, out.own.view().to_set()) >= 0,
        decreases pending(rows, out.own.view().to_set()) + stack@.len(),
    {
        let ghost sv = strings_view(stack@);
        let ghost own0 = out.own.view().to_set();
        let ghost seen0 = seen.view().to_set();
        let ghost out0 = out;
        let f = stack.pop().unwrap();
        proof {
            assert(sv =~= strings_view(stack@).push(f@));
            assert forall|x: Seq<char>| sv.contains(x) implies x == f@ || strings_view(stack@).contains(x) by {
                let j = choose|j: int| 0 <= j < sv.len() && sv[j] == x;
                if j < sv.len() - 1 {
                    assert(strings_view(stack@)[j] == x);
                }
            }
        }
        proof {
            lemma_step_common(*pkg, st, sv, strings_view(stack@), own0, seen0, f@);
        }
        if str_eq(f.as_str(), "default") {
            proof {
                assert forall|x: Seq<char>| seen0.insert(f@).contains(x) && x != "default"@ implies seen0.contains(x) by {}
            }
            continue;
        }
        let added = seen.insert(copy_string(&f));
        if !added {
            proof {
                assert(seen.view().to_set() =~= seen0.insert(f@));
            }
            continue;
        }
        let cs = crate::text::chars_of(f.as_str());
        match crate::text::split_once_chars(cs.as_slice(), '/') {
            Some((dep, feat)) => {
                let site = match pkg.features_site {
                    Some(s) => s,
                    None => Site::new(pkg.manifest_file, Span::empty()),
                };
                let dep_s = crate::text::from_chars(dep.as_slice());
                let mut list = match out.forwarded.get(dep_s.as_str()) {
                    Some(v) => copy_pairs(v),
                    None => Vec::new(),
                };
                let ghost before = pairs_view(list@);
                proof {
                    lemma_forwarded_at(out0, dep@);
                    assert(dep_s@ == dep@);
                    assert(before == (if forwarded_m(out0).contains_key(dep@) {
                        forwarded_m(out0)[dep@]
                    } else {
                        Seq::<(Seq<char>, Site)>::empty()
                    }));
                }
                list.push((crate::text::from_chars(feat.as_slice()), site));
                assert(pairs_view(list@) =~= before.push((feat@, site)));
                let ghost newlist = pairs_view(list@);
                out.forwarded.insert(dep_s, list);
                proof {
                    let seen1 = seen.view().to_set();
                    assert(seen1 == seen0.insert(f@));
                    assert(split_once(f@, '/') == Some((dep@, feat@)));
                    assert(out.own.view().to_set() == own0);
                    assert forall|d: Seq<char>, ft: Seq<char>|
                        #[trigger] forwards(out, d, ft) <==> exists|x: Seq<char>|
                            seen1.contains(x) && #[trigger] split_once(x, '/') == Some((d, ft)) by {
                        lemma_forwarded_at(out, d);
                        lemma_forwarded_at(out0, d);
                        if d == dep@ {
                            assert(forwarded_m(out)[d] == newlist);
                            if forwards(out, d, ft) {
                                let i = choose|i: int| 0 <= i < forwarded_m(out)[d].len() && (#[trigger] forwarded_m(out)[d][i]).0 == ft;
                                if i < before.len() {
                                    assert(forwarded_m(out0)[d][i].0 == ft);
                                    assert(forwards(out0, d, ft));
                                } else {
                                    assert(ft == feat@);
                                    assert(seen1.contains(f@));
                                }
                            }
                            if exists|x: Seq<char>| seen1.contains(x) && #[trigger] split_once(x, '/') == Some((d, ft)) {
                                let x = choose|x: Seq<char>| seen1.contains(x) && #[trigger] split_once(x, '/') == Some((d, ft));
                                if x == f@ {
                                    assert(forwarded_m(out)[d][before.len() as int].0 == ft);
                                } else {
                                    assert(seen0.contains(x));
                                    assert(forwards(out0, d, ft));
                                    let i = choose|i: int| 0 <= i < forwarded_m(out0)[d].len() && (#[trigger] forwarded_m(out0)[d][i]).0 == ft;
                                    assert(forwarded_m(out)[d][i].0 == ft);
                                }
                            }
                        } else {
                            assert(out.forwarded.lookup(d) == out0.forwarded.lookup(d));
                            assert(forwarded_m(out).contains_key(d) == forwarded_m(out0).contains_key(d));
                            if forwarded_m(out).contains_key(d) {
                                assert(forwarded_m(out)[d] == forwarded_m(out0)[d]);
                            }
                            assert(forwards(out, d, ft) == forwards(out0, d, ft));
                            if exists|x: Seq<char>| seen1.contains(x) && #[trigger] split_once(x, '/') == Some((d, ft)) {
                                let x = choose|x: Seq<char>| seen1.contains(x) && #[trigger] split_once(x, '/') == Some((d, ft));
                                assert(x != f@);
                                assert(seen0.contains(x));
                            }
                        }
                    }
                    assert forall|d: Seq<char>, i: int|
                        forwarded_m(out).contains_key(d) && 0 <= i < forwarded_m(out)[d].len()
                            implies (#[trigger] forwarded_m(out)[d][i]).1 == features_site_of(*pkg) by {
                        lemma_forwarded_at(out, d);
                        lemma_forwarded_at(out0, d);
                        if d == dep@ && i < before.len() {
                            assert(forwarded_m(out)[d][i] == forwarded_m(out0)[d][i]);
                        }
                    }
                    lemma_step_common(*pkg, st, sv, strings_view(stack@), own0, seen0, f@);
                }
            },
            None => {
                out.own.insert(copy_string(&f));
                let ghost own1 = out.own.view().to_set();
                let ghost rest = strings_view(stack@);
                proof {
                    assert(own1 == own0.insert(f@));
                    assert(!own0.contains(f@));
                    lemma_pending_done(rows, own0, f@);
                    lemma_features_at(*pkg, f@);
                }
                match pkg.features.get(f.as_str()) {
                    Some(en) => {
                        push_all(&mut stack, en);
                    },
                    None => {},
                }
                proof {
                    let seen1 = seen.view().to_set();
                    let sv1 = strings_view(stack@);
                    assert(seen1 == seen0.insert(f@));
                    assert(sv1 == rest + enables(*pkg, f@));
                    assert(plain(f@));
                    lemma_pending_nonneg(rows, own1);
                    lemma_step_plain(*pkg, st, sv, rest, sv1, own0, seen0, f@);
                    assert forall|d: Seq<char>, ft: Seq<char>|
                        #[trigger] forwards(out, d, ft) <==> exists|x: Seq<char>|
                            seen1.contains(x) && #[trigger] split_once(x, '/') == Some((d, ft)) by {
                        assert(forwards(out, d, ft) == forwards(out0, d, ft));
                        if exists|x: Seq<char>| seen1.contains(x) && #[trigger] split_once(x, '/') == Some((d, ft)) {
                            let x = choose|x: Seq<char>| seen1.contains(x) && #[trigger] split_once(x, '/') == Some((d, ft));
                            assert(x != f@);
                            assert(seen0.contains(x));
                        }
                    }
                }
            },
        }
    }
    proof {
        let own = out.own.view().to_set();
        let seen_s = seen.view().to_set();
        assert(strings_view(stack@).len() == 0);
        assert forall|i: int| 0 <= i < st.len() && plain(#[trigger] st[i]) implies own.contains(st[i]) by {
            assert(seen_s.contains(st[i]));
        }
        assert forall|f: Seq<char>| #[trigger] own.contains(f) implies holds_plain(own, enables(*pkg, f)) by {
            assert forall|i: int| 0 <= i < enables(*pkg, f).len() && plain(#[trigger] enables(*pkg, f)[i])
                implies own.contains(enables(*pkg, f)[i]) by {
                assert(seen_s.contains(enables(*pkg, f)[i]));
            }
        }
        assert forall|dep: Seq<char>, feat: Seq<char>|
            #[trigger] forwards(out, dep, feat) <==> exists|x: Seq<char>|
                reached(*pkg, st, own, x) && #[trigger] split_once(x, '/') == Some((dep, feat)) by {
            if exists|x: Seq<char>| reached(*pkg, st, own, x) && #[trigger] split_once(x, '/') == Some((dep, feat)) {
                let x = choose|x: Seq<char>| reached(*pkg, st, own, x) && #[trigger] split_once(x, '/') == Some((dep, feat));
                assert(x != "default"@) by {
                    reveal_strlit("default");
                    lemma_split_once_none("default"@, '/');
                }
                if st.contains(x) {
                    let i = choose|i: int| 0 <= i < st.len() && st[i] == x;
                    assert(seen_s.contains(st[i]));
                } else {
                    let g = choose|g: Seq<char>| own.contains(g) && #[trigger] enables(*pkg, g).contains(x);
                    let i = choose|i: int| 0 <= i < enables(*pkg, g).len() && enables(*pkg, g)[i] == x;
                    assert(seen_s.contains(enables(*pkg, g)[i]));
                }
            }
        }
    }
    out
}

/// What the forwarded features of one dependency are.
proof fn lemma_forwarded_at(f: Features, dep: Seq<char>)
    ensures
        forwarded_m(f).contains_key(dep) == (f.forwarded.lookup(dep) is Some),
        f.forwarded.lookup(dep) matches Some(v) ==> forwarded_m(f)[dep] == pairs_view(v@),
{
    assert(rows_map(f.forwarded.view()).contains_key(dep) == (find_name(f.forwarded.view(), dep) is Some));
}

/// What a feature enables, by the row that declares it.
proof fn lemma_features_at(p: Package, f: Seq<char>)
    ensures
        p.features.lookup(f) matches Some(v) ==> enables(p, f) == strings_view(v@),
        p.features.lookup(f) is None ==> enables(p, f) == Seq::<Seq<char>>::empty(),
{
    assert(rows_map(p.features.view()).contains_key(f) == (find_name(p.features.view(), f) is Some));
}

/// Taking `f` off the stack into `seen` keeps what every name reached
/// and every closed set holds: the part of a step that does not depend on
/// what `f` is.
proof fn lemma_step_common(
    p: Package,
    st: Seq<Seq<char>>,
    sv: Seq<Seq<char>>,
    rest: Seq<Seq<char>>,
    own: Set<Seq<char>>,
    seen: Set<Seq<char>>,
    f: Seq<char>,
)
    requires
        sv == rest.push(f),
        forall|i: int| 0 <= i < st.len() ==> #[trigger] st[i] == "default"@ || seen.contains(st[i]) || sv.contains(st[i]),
        forall|g: Seq<char>, i: int|
            #![trigger own.contains(g), enables(p, g)[i]]
            own.contains(g) && 0 <= i < enables(p, g).len() ==> enables(p, g)[i] == "default"@ || seen.contains(enables(p, g)[i])
                || sv.contains(enables(p, g)[i]),
        forall|x: Seq<char>| seen.contains(x) || sv.contains(x) ==> #[trigger] reached(p, st, own, x),
        forall|t: Set<Seq<char>>| #[trigger] admissible(p, st, t) ==> own.subset_of(t) && holds_plain(t, sv),
    ensures
        forall|i: int| 0 <= i < st.len() ==> #[trigger] st[i] == "default"@ || seen.insert(f).contains(st[i]) || rest.contains(st[i]),
        forall|g: Seq<char>, i: int|
            #![trigger own.contains(g), enables(p, g)[i]]
            own.contains(g) && 0 <= i < enables(p, g).len() ==> enables(p, g)[i] == "default"@ || seen.insert(f).contains(
                enables(p, g)[i],
            ) || rest.contains(enables(p, g)[i]),
        forall|x: Seq<char>| seen.insert(f).contains(x) || rest.contains(x) ==> #[trigger] reached(p, st, own, x),
        forall|t: Set<Seq<char>>| #[trigger] admissible(p, st, t) ==> own.subset_of(t) && holds_plain(t, rest),
{
    assert forall|x: Seq<char>| sv.contains(x) implies x == f || rest.contains(x) by {
        let j = choose|j: int| 0 <= j < sv.len() && sv[j] == x;
        if j < rest.len() {
            assert(rest[j] == x);
        }
    }
    assert forall|x: Seq<char>| rest.contains(x) implies sv.contains(x) by {
        let j = choose|j: int| 0 <= j < rest.len() && rest[j] == x;
        assert(sv[j] == x);
    }
    assert(sv[rest.len() as int] == f);
    assert forall|t: Set<Seq<char>>| #[trigger] admissible(p, st, t) implies own.subset_of(t) && holds_plain(t, rest) by {
        assert(own.subset_of(t) && holds_plain(t, sv));
        assert forall|i: int| 0 <= i < rest.len() && plain(#[trigger] rest[i]) implies t.contains(rest[i]) by {
            assert(sv[i] == rest[i]);
            assert(plain(sv[i]));
        }
    }
}

/// Taking a plain feature `f` into `own` and its enables onto the stack.
proof fn lemma_step_plain(
    p: Package,
    st: Seq<Seq<char>>,
    sv: Seq<Seq<char>>,
    rest: Seq<Seq<char>>,
    sv1: Seq<Seq<char>>,
    own: Set<Seq<char>>,
    seen: Set<Seq<char>>,
    f: Seq<char>,
)
    requires
        sv == rest.push(f),
        sv1 == rest + enables(p, f),
        plain(f),
        forall|i: int| 0 <= i < st.len() ==> #[trigger] st[i] == "default"@ || seen.contains(st[i]) || sv.contains(st[i]),
        forall|g: Seq<char>, i: int|
            #![trigger own.contains(g), enables(p, g)[i]]
            own.contains(g) && 0 <= i < enables(p, g).len() ==> enables(p, g)[i] == "default"@ || seen.contains(enables(p, g)[i])
                || sv.contains(enables(p, g)[i]),
        forall|x: Seq<char>| seen.contains(x) || sv.contains(x) ==> #[trigger] reached(p, st, own, x),
        forall|t: Set<Seq<char>>| #[trigger] admissible(p, st, t) ==> own.subset_of(t) && holds_plain(t, sv),
    ensures
        forall|i: int| 0 <= i < st.len() ==> #[trigger] st[i] == "default"@ || seen.insert(f).contains(st[i]) || sv1.contains(st[i]),
        forall|g: Seq<char>, i: int|
            #![trigger own.insert(f).contains(g), enables(p, g)[i]]
            own.insert(f).contains(g) && 0 <= i < enables(p, g).len() ==> enables(p, g)[i] == "default"@
                || seen.insert(f).contains(enables(p, g)[i]) || sv1.contains(enables(p, g)[i]),
        forall|x: Seq<char>| seen.insert(f).contains(x) || sv1.contains(x) ==> #[trigger] reached(p, st, own.insert(f), x),
        forall|t: Set<Seq<char>>| #[trigger] admissible(p, st, t) ==> own.insert(f).subset_of(t) && holds_plain(t, sv1),
{
    lemma_step_common(p, st, sv, rest, own, seen, f);
    assert forall|x: Seq<char>| rest.contains(x) implies sv1.contains(x) by {
        let j = choose|j: int| 0 <= j < rest.len() && rest[j] == x;
        assert(sv1[j] == x);
    }
    assert forall|i: int| 0 <= i < enables(p, f).len() implies sv1.contains(#[trigger] enables(p, f)[i]) by {
        assert(sv1[rest.len() + i] == enables(p, f)[i]);
    }
    assert forall|g: Seq<char>, i: int|
        #![trigger own.insert(f).contains(g), enables(p, g)[i]]
        own.insert(f).contains(g) && 0 <= i < enables(p, g).len() implies enables(p, g)[i] == "default"@
            || seen.insert(f).contains(enables(p, g)[i]) || sv1.contains(enables(p, g)[i]) by {
        if g != f {
            assert(own.contains(g));
        }
    }
    assert forall|x: Seq<char>| seen.insert(f).contains(x) || sv1.contains(x) implies #[trigger] reached(p, st, own.insert(f), x) by {
        if sv1.contains(x) && !rest.contains(x) {
            let j = choose|j: int| 0 <= j < sv1.len() && sv1[j] == x;
            assert(enables(p, f)[j - rest.len()] == x);
            assert(own.insert(f).contains(f) && enables(p, f).contains(x));
        } else {
            assert(reached(p, st, own, x));
            if !st.contains(x) {
                let g = choose|g: Seq<char>| own.contains(g) && #[trigger] enables(p, g).contains(x);
                assert(own.insert(f).contains(g));
            }
        }
    }
    assert forall|t: Set<Seq<char>>| #[trigger] admissible(p, st, t) implies own.insert(f).subset_of(t) && holds_plain(t, sv1) by {
        assert(own.subset_of(t) && holds_plain(t, sv));
        assert(sv[rest.len() as int] == f);
        assert(plain(sv[rest.len() as int]));
        assert(t.contains(f));
        assert(holds_plain(t, enables(p, f)));
        assert forall|i: int| 0 <= i < sv1.len() && plain(#[trigger] sv1[i]) implies t.contains(sv1[i]) by {
            if i < rest.len() {
                assert(sv[i] == sv1[i]);
                assert(plain(sv[i]));
            } else {
                assert(enables(p, f)[i - rest.len()] == sv1[i]);
                assert(plain(enables(p, f)[i - rest.len()]));
            }
        }
    }
}

// --- packages as plain values --------------------------------------------------------

/// How a dependency is supplied, as plain values.
pub enum DepKindM {
    Path(Seq<char>),
    Git(Seq<char>, Seq<char>),
    PkgConfig(Seq<char>),
    Tarball(Seq<char>, Seq<char>),
    Unsupported(Seq<char>),
}

pub open spec fn dep_kind_m(k: DepKind) -> DepKindM {
    match k {
        DepKind::Path(p) => DepKindM::Path(p@),
        DepKind::Git { url, rev } => DepKindM::Git(url@, rev@),
        DepKind::PkgConfig { min_version } => DepKindM::PkgConfig(min_version@),
        DepKind::Tarball { url, sha256 } => DepKindM::Tarball(url@, sha256@),
        DepKind::Unsupported(why) => DepKindM::Unsupported(why@),
    }
}

/// A dependency as plain values.
pub struct DepM {
    pub name: Seq<char>,
    pub kind: DepKindM,
    pub optional: bool,
    pub site: Site,
    pub source_site: Site,
}

pub open spec fn dep_m(d: Dependency) -> DepM {
    DepM { name: d.name@, kind: dep_kind_m(d.kind), optional: d.optional, site: d.site, source_site: d.source_site }
}

/// A package as plain values.
pub struct PackageM {
    pub id: PackageId,
    pub name: Seq<char>,
    pub version: Seq<char>,
    pub description: Seq<char>,
    pub root: Seq<char>,
    pub manifest_file: FileId,
    pub build_file: Option<FileId>,
    pub deps: Seq<DepM>,
    pub features: Map<Seq<char>, Seq<Seq<char>>>,
    pub features_site: Option<Site>,
    pub exclusive: Seq<(Seq<Seq<char>>, Site)>,
    pub targets: Seq<Seq<char>>,
    pub targets_site: Option<Site>,
    pub toolchain: DeclM,
    pub toolchains: Map<Seq<char>, DeclM>,
    pub toolchains_path: Option<(Seq<char>, Site)>,
}

pub open spec fn groups_view(v: Seq<(Vec<String>, Site)>) -> Seq<(Seq<Seq<char>>, Site)> {
    v.map_values(|g: (Vec<String>, Site)| (strings_view(g.0@), g.1))
}

pub open spec fn package_m(p: Package) -> PackageM {
    PackageM {
        id: p.id,
        name: p.name@,
        version: p.version@,
        description: p.description@,
        root: p.root@,
        manifest_file: p.manifest_file,
        build_file: p.build_file,
        deps: p.deps@.map_values(|d: Dependency| dep_m(d)),
        features: features_m(p),
        features_site: p.features_site,
        exclusive: groups_view(p.exclusive@),
        targets: strings_view(p.targets@),
        targets_site: p.targets_site,
        toolchain: decl_m(p.toolchain),
        toolchains: toolchains_m(p),
        toolchains_path: match p.toolchains_path {
            Some((s, site)) => Some((s@, site)),
            None => None,
        },
    }
}

/// The toolchain declared for one triple.
pub proof fn lemma_toolchains_at(p: Package, k: Seq<char>)
    ensures
        toolchains_m(p).contains_key(k) == (p.toolchains.lookup(k) is Some),
        p.toolchains.lookup(k) matches Some(d) ==> toolchains_m(p)[k] == decl_m(d),
{
    assert(rows_map(p.toolchains.view()).contains_key(k) == (find_name(p.toolchains.view(), k) is Some));
}

/// The features declared under one name.
pub proof fn lemma_features_m_at(p: Package, k: Seq<char>)
    ensures
        features_m(p).contains_key(k) == (p.features.lookup(k) is Some),
        p.features.lookup(k) matches Some(v) ==> features_m(p)[k] == strings_view(v@),
{
    assert(rows_map(p.features.view()).contains_key(k) == (find_name(p.features.view(), k) is Some));
}

/// The features to enable in this package: `default` unless it is turned
/// off, and what each enables, until nothing new is reached. Features
/// forwarded to dependencies as `dep/feat` are not among them.
pub fn resolve_features(pkg: &Package, requested: &[String], use_default: bool) -> (r: NameSet)
    requires
        pkg.wf(),
    ensures
        r.wf(),
        ({
            let st = starts_of(*pkg, strings_view(requested@), use_default);
            let own = r.view().to_set();
            &&& holds_plain(own, st)
            &&& closed_under(*pkg, own)
            &&& forall|t: Set<Seq<char>>| #[trigger] admissible(*pkg, st, t) ==> own.subset_of(t)
            &&& forall|x: Seq<char>| own.contains(x) ==> plain(x)
        }),
{
    resolve(pkg, requested, use_default).own
}

/// Whether a dependency takes part: an optional one only with its feature.
pub fn is_active(dep: &Dependency, features: &NameSet) -> (r: bool)
    ensures
        r == (!dep.optional || features.view().contains(dep.name@)),
{
    !dep.optional || features.contains(dep.name.as_str())
}

} // verus!
