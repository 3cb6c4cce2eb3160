//! Resolving what a target writes in `deps`. Each `target("x")` and
//! `dep("x")` becomes the labels it stands for, or a diagnostic that says
//! why it cannot. Edges appear only after specialising: `dep("zlib") when
//! feature.zlib` is an edge in some configurations and not in others.

use vstd::prelude::*;
use crate::config::Config;
use crate::diag::{diag_m, diags_m, push_diag, DiagM, Diagnostic, Severity};
use crate::manifest::joined;
use crate::model::{label, label_text, DepResolution, NameTable};
use crate::schema::{Block, TableKind};
use crate::specialize::{first_index, lemma_first_index, specialize, specialized};
use crate::target::{PropMap, TargetDecl};
use crate::text::{chars_of, copy_string, from_chars, owned, push_str, split_once, split_once_chars};
use crate::value::{nearest_site_of, Data, FileId, Origin, Prov, Site, Span, Value};
use crate::value_model::{lemma_values_m, steps_m, value_m, value_text, values_m, DataM, OriginM, ValueM};

verus! {

/// The package of a label `<package>:<target>`: what stands before the
/// first `:`, empty where there is none.
pub open spec fn package_of_label(l: Seq<char>) -> Seq<char> {
    match split_once(l, ':') {
        Some((p, _)) => p,
        None => Seq::empty(),
    }
}

pub fn package_of(label: &str) -> (r: String)
    ensures
        r@ == package_of_label(label@),
{
    let cs = chars_of(label);
    match split_once_chars(cs.as_slice(), ':') {
        Some((p, _)) => from_chars(p.as_slice()),
        None => String::new(),
    }
}

/// The nearest site of a chain of steps: the first step that has one.
pub open spec fn nearest_site_m(chain: Seq<(OriginM, Option<Site>)>) -> Option<Site>
    decreases chain.len(),
{
    if chain.len() == 0 {
        None
    } else if chain[0].1 is Some {
        chain[0].1
    } else {
        nearest_site_m(chain.drop_first())
    }
}

pub proof fn lemma_nearest_site_m(chain: Seq<(Origin, Option<Site>)>)
    ensures
        nearest_site_of(chain) == nearest_site_m(steps_m(chain)),
    decreases chain.len(),
{
    if chain.len() > 0 {
        assert(steps_m(chain).drop_first() =~= steps_m(chain.drop_first()));
        lemma_nearest_site_m(chain.drop_first());
    }
}

/// Where a value was written, or `fallback` where no step says.
pub open spec fn site_or(v: ValueM, fallback: Site) -> Site {
    match nearest_site_m(v.prov) {
        Some(s) => s,
        None => fallback,
    }
}

/// The start of the first file, for a label with nowhere better to point.
pub open spec fn nowhere() -> Site {
    Site { file: FileId(0), span: Span { start: 0, end: 0 } }
}

/// Where a value was written, or `fallback`.
fn site_of(item: &Value, fallback: Site) -> (r: Site)
    ensures
        r == site_or(value_m(*item), fallback),
{
    proof {
        lemma_nearest_site_m(item.prov.view());
    }
    match item.prov.nearest_site() {
        Some(s) => s,
        None => fallback,
    }
}

/// The names as a diagnostic lists them: separated by `, `, or `(none)`.
pub open spec fn listing(names: Seq<Seq<char>>) -> Seq<char> {
    if names.len() == 0 {
        "(none)"@
    } else {
        joined(names, ", "@)
    }
}

pub open spec fn strs_m(s: Seq<&str>) -> Seq<Seq<char>> {
    s.map_values(|x: &str| x@)
}

fn names_listing(names: &[&str]) -> (r: String)
    ensures
        r@ == listing(strs_m(names@)),
{
    if names.len() == 0 {
        return owned("(none)");
    }
    let mut r = String::new();
    let mut i: usize = 0;
    while i < names.len()
        invariant
            i <= names@.len(),
            r@ == joined(strs_m(names@).take(i as int), ", "@),
        decreases names.len() - i,
    {
        assert(strs_m(names@).take(i + 1).drop_last() =~= strs_m(names@).take(i as int));
        if i > 0 {
            push_str(&mut r, ", ");
        }
        push_str(&mut r, names[i]);
        proof {
            if i == 0 {
                assert(r@ =~= strs_m(names@).take(1)[0]);
            }
        }
        i += 1;
    }
    assert(strs_m(names@).take(i as int) =~= strs_m(names@));
    r
}

/// A diagnostic with one primary label and the given notes.
pub open spec fn error_m(code: Seq<char>, message: Seq<char>, at: Site, label: Seq<char>, notes: Seq<Seq<char>>) -> DiagM {
    DiagM { code, severity: Severity::Error, message, labels: seq![(at, label, true)], notes }
}

/// `target("name")` names no target of the package.
pub open spec fn unknown_target_m(name: Seq<char>, names: Seq<Seq<char>>, at: Site) -> DiagM {
    error_m(
        "unknown-target"@,
        "no target named `"@ + name + "`"@,
        at,
        "no target with this name in the same package"@,
        seq!["targets in this package: "@ + listing(names)],
    )
}

/// `dep("name")` names no dependency that the manifest declares.
pub open spec fn undeclared_dep_m(name: Seq<char>, names: Seq<Seq<char>>, at: Site) -> DiagM {
    error_m(
        "undeclared-dependency"@,
        "dependency `"@ + name + "` is not declared in `dowel.toml`"@,
        at,
        "undeclared dependency"@,
        seq![
            "declared in `dowel.toml`: "@ + listing(names),
            "use `target(\"...\")` to refer to a target in the same package"@,
        ],
    )
}

/// `dep("name")` names an optional dependency whose feature is off.
pub open spec fn inactive_dep_m(name: Seq<char>, at: Site) -> DiagM {
    error_m(
        "inactive-dependency"@,
        "`"@ + name + "` is optional and its feature is not enabled"@,
        at,
        "this dependency is not part of the current configuration"@,
        seq![
            "write `dep(\""@ + name + "\") when feature."@ + name
                + "` so the reference appears with the feature"@,
            "or enable it with `--features="@ + name
                + "`, or drop `optional` from its declaration"@,
        ],
    )
}

/// `dep("name")` resolved to a package that has no library.
pub open spec fn empty_dep_m(name: Seq<char>, at: Site) -> DiagM {
    error_m(
        "empty-dependency"@,
        "dependency `"@ + name + "` has no lib target"@,
        at,
        "this dependency supplies nothing"@,
        Seq::empty(),
    )
}

/// An item of `deps` that is no reference at all.
pub open spec fn invalid_dep_m(shown: Seq<char>, at: Site) -> DiagM {
    error_m(
        "invalid-dependency"@,
        "element of `deps` is not a dependency reference: "@ + shown,
        at,
        "write `dep(\"...\")` or `target(\"...\")`"@,
        Seq::empty(),
    )
}

fn error_with_label(code: &'static str, message: String, at: Site, label: &str) -> (d: Diagnostic)
    ensures
        diag_m(d) == error_m(code@, message@, at, label@, Seq::empty()),
{
    let mut d = Diagnostic::error(code, message);
    d.label(at, owned(label), true);
    assert(diag_m(d).labels =~= seq![(at, label@, true)]);
    d
}

/// `target("name")` names no target of the package; `names` are those it has.
pub fn unknown_target(name: &str, names: &[&str], item: &Value) -> (d: Diagnostic)
    ensures
        diag_m(d) == unknown_target_m(name@, strs_m(names@), site_or(value_m(*item), nowhere())),
{
    let mut msg = owned("no target named `");
    push_str(&mut msg, name);
    push_str(&mut msg, "`");
    let at = site_of(item, Site::new(FileId(0), Span::empty()));
    let mut d = error_with_label("unknown-target", msg, at, "no target with this name in the same package");
    let mut note = owned("targets in this package: ");
    push_str(&mut note, names_listing(names).as_str());
    d.note(note);
    assert(diag_m(d).notes =~= seq!["targets in this package: "@ + listing(strs_m(names@))]);
    d
}

/// `dep("name")` names no declared dependency; `names` are those declared.
pub fn undeclared_dep(name: &str, names: &[&str], item: &Value) -> (d: Diagnostic)
    ensures
        diag_m(d) == undeclared_dep_m(name@, strs_m(names@), site_or(value_m(*item), nowhere())),
{
    let mut msg = owned("dependency `");
    push_str(&mut msg, name);
    push_str(&mut msg, "` is not declared in `dowel.toml`");
    let at = site_of(item, Site::new(FileId(0), Span::empty()));
    let mut d = error_with_label("undeclared-dependency", msg, at, "undeclared dependency");
    let mut note = owned("declared in `dowel.toml`: ");
    push_str(&mut note, names_listing(names).as_str());
    d.note(note);
    d.note(owned("use `target(\"...\")` to refer to a target in the same package"));
    assert(diag_m(d).notes =~= seq![
        "declared in `dowel.toml`: "@ + listing(strs_m(names@)),
        "use `target(\"...\")` to refer to a target in the same package"@,
    ]);
    d
}

/// `dep("name")` names an optional dependency whose feature is off.
pub fn inactive_dep(name: &str, item: &Value) -> (d: Diagnostic)
    ensures
        diag_m(d) == inactive_dep_m(name@, site_or(value_m(*item), nowhere())),
{
    let mut msg = owned("`");
    push_str(&mut msg, name);
    push_str(&mut msg, "` is optional and its feature is not enabled");
    let at = site_of(item, Site::new(FileId(0), Span::empty()));
    let mut d = error_with_label(
        "inactive-dependency",
        msg,
        at,
        "this dependency is not part of the current configuration",
    );
    let mut first = owned("write `dep(\"");
    push_str(&mut first, name);
    push_str(&mut first, "\") when feature.");
    push_str(&mut first, name);
    push_str(&mut first, "` so the reference appears with the feature");
    d.note(first);
    let mut second = owned("or enable it with `--features=");
    push_str(&mut second, name);
    push_str(&mut second, "`, or drop `optional` from its declaration");
    d.note(second);
    assert(diag_m(d).notes =~= seq![
        "write `dep(\""@ + name@ + "\") when feature."@ + name@
            + "` so the reference appears with the feature"@,
        "or enable it with `--features="@ + name@
            + "`, or drop `optional` from its declaration"@,
    ]);
    d
}

/// `dep("name")` resolved to a package that has no library.
pub fn empty_dep(name: &str, item: &Value) -> (d: Diagnostic)
    ensures
        diag_m(d) == empty_dep_m(name@, site_or(value_m(*item), nowhere())),
{
    let mut msg = owned("dependency `");
    push_str(&mut msg, name);
    push_str(&mut msg, "` has no lib target");
    let at = site_of(item, Site::new(FileId(0), Span::empty()));
    error_with_label("empty-dependency", msg, at, "this dependency supplies nothing")
}

/// An item of `deps` that is no reference at all.
pub fn invalid_dep(item: &Value) -> (d: Diagnostic)
    ensures
        diag_m(d) == invalid_dep_m(value_text(value_m(*item)), site_or(value_m(*item), nowhere())),
{
    let mut msg = owned("element of `deps` is not a dependency reference: ");
    push_str(&mut msg, item.display().as_str());
    let at = site_of(item, Site::new(FileId(0), Span::empty()));
    error_with_label("invalid-dependency", msg, at, "write `dep(\"...\")` or `target(\"...\")`")
}

/// One resolved edge as plain values: the label depended on, the block
/// that declared it, and where it was written.
pub type EdgeM = (Seq<char>, Block, Site);

pub open spec fn edges_m(e: Seq<(String, Block, Site)>) -> Seq<EdgeM> {
    e.map_values(|x: (String, Block, Site)| (x.0@, x.1, x.2))
}

/// What dependency `name` resolved to: that of its first declaration.
pub open spec fn dep_resolution(ds: Seq<(String, DepResolution)>, name: Seq<char>) -> Option<DepResolution> {
    match first_index(ds, |d: (String, DepResolution)| d.0@ == name) {
        Some(i) => Some(ds[i].1),
        None => None,
    }
}

/// The labels of the libraries that package `pkg` supplies.
pub open spec fn lib_labels(names: NameTable, pkg: Seq<char>) -> Seq<Seq<char>> {
    names.targets_of(pkg).filter(|t: (String, TableKind)| t.1 == TableKind::Lib).map_values(
        |t: (String, TableKind)| label_text(pkg, t.0@),
    )
}

/// The items of a `deps` value: those of a list, none of an error, or the
/// value itself.
pub open spec fn dep_items_m(v: ValueM) -> Seq<ValueM> {
    match v.data {
        DataM::List(items) => items,
        DataM::Error => Seq::empty(),
        _ => seq![v],
    }
}

/// What one item of `deps` in package `pkg` contributes: edges, or a
/// diagnostic. `fallback` is where the target was declared.
pub open spec fn item_outcome(pkg: Seq<char>, names: NameTable, item: ValueM, fallback: Site, block: Block) -> (Seq<EdgeM>, Seq<DiagM>) {
    let site = site_or(item, fallback);
    let at = site_or(item, nowhere());
    match item.data {
        DataM::Target(n) => if exists|i: int| 0 <= i < names.targets_of(pkg).len() && (#[trigger] names.targets_of(pkg)[i]).0@ == n {
            (seq![(label_text(pkg, n), block, site)], Seq::empty())
        } else {
            (Seq::empty(), seq![unknown_target_m(n, names.targets_of(pkg).map_values(|t: (String, TableKind)| t.0@), at)])
        },
        DataM::Dep(n) => match dep_resolution(names.deps_of(pkg), n) {
            None => (Seq::empty(), seq![undeclared_dep_m(n, names.deps_of(pkg).map_values(|d: (String, DepResolution)| d.0@), at)]),
            Some(DepResolution::Inactive) => (Seq::empty(), seq![inactive_dep_m(n, at)]),
            Some(DepResolution::AlreadyReported) => (Seq::empty(), Seq::empty()),
            Some(DepResolution::Package(to)) => {
                let libs = lib_labels(names, to@);
                (
                    libs.map_values(|l: Seq<char>| (l, block, site)),
                    if libs.len() == 0 { seq![empty_dep_m(n, at)] } else { Seq::empty() },
                )
            },
        },
        DataM::Error => (Seq::empty(), Seq::empty()),
        _ => (Seq::empty(), seq![invalid_dep_m(value_text(item), at)]),
    }
}

/// What the items contribute, one after another.
pub open spec fn items_outcome(pkg: Seq<char>, names: NameTable, items: Seq<ValueM>, fallback: Site, block: Block) -> (Seq<EdgeM>, Seq<DiagM>)
    decreases items.len(),
{
    if items.len() == 0 {
        (Seq::empty(), Seq::empty())
    } else {
        let a = items_outcome(pkg, names, items.drop_last(), fallback, block);
        let b = item_outcome(pkg, names, items.last(), fallback, block);
        (a.0 + b.0, a.1 + b.1)
    }
}

/// The items of a `deps` value, each a copy.
pub fn dep_items(value: &Value) -> (r: Vec<Value>)
    ensures
        r@.len() == dep_items_m(value_m(*value)).len(),
        forall|i: int| 0 <= i < r@.len() ==> value_m(#[trigger] r@[i]) == dep_items_m(value_m(*value))[i],
{
    match &value.data {
        Data::List(items) => {
            proof {
                lemma_values_m(items@);
            }
            let mut out: Vec<Value> = Vec::new();
            let mut i: usize = 0;
            while i < items.len()
                invariant
                    i <= items@.len(),
                    out@.len() == i,
                    values_m(items@).len() == items@.len(),
                    forall|j: int| 0 <= j < i ==> value_m(#[trigger] out@[j]) == value_m(items@[j]),
                decreases items.len() - i,
            {
                out.push(items[i].copy());
                i += 1;
            }
            out
        },
        Data::Error => Vec::new(),
        _ => {
            let mut out: Vec<Value> = Vec::new();
            out.push(value.copy());
            out
        },
    }
}

/// Appends what one item of `deps` contributes.
fn resolve_item(
    pkg: &str,
    names: &NameTable,
    item: &Value,
    fallback: Site,
    block: Block,
    edges: &mut Vec<(String, Block, Site)>,
    diags: &mut Vec<Diagnostic>,
)
    requires
        names.wf(),
    ensures
        edges_m(final(edges)@) == edges_m(old(edges)@) + item_outcome(pkg@, *names, value_m(*item), fallback, block).0,
        diags_m(final(diags)@) == diags_m(old(diags)@) + item_outcome(pkg@, *names, value_m(*item), fallback, block).1,
{
    let ghost out = item_outcome(pkg@, *names, value_m(*item), fallback, block);
    let site = site_of(item, fallback);
    match &item.data {
        Data::Target(name) => {
            if names.target_in(pkg, name.as_str()) {
                let l = label(pkg, name.as_str());
                edges.push((l, block, site));
                assert(edges_m(edges@) =~= edges_m(old(edges)@) + out.0);
                assert(diags_m(diags@) =~= diags_m(old(diags)@) + out.1);
            } else {
                let ns = names.target_names(pkg);
                assert(strs_m(ns@) =~= names.targets_of(pkg@).map_values(|t: (String, TableKind)| t.0@));
                let d = unknown_target(name.as_str(), ns.as_slice(), item);
                push_diag(diags, d);
                assert(edges_m(edges@) =~= edges_m(old(edges)@) + out.0);
                assert(diags_m(diags@) =~= diags_m(old(diags)@) + out.1);
            }
        },
        Data::Dep(name) => {
            let found = names.resolve_dep(pkg, name.as_str());
            let ghost ds = names.deps_of(pkg@);
            let ghost p = |d: (String, DepResolution)| d.0@ == name@;
            proof {
                lemma_first_index(ds, p);
            }
            match found {
                None => {
                    assert(dep_resolution(ds, name@) is None);
                    let ns = names.dep_names(pkg);
                    assert(strs_m(ns@) =~= ds.map_values(|d: (String, DepResolution)| d.0@));
                    push_diag(diags, undeclared_dep(name.as_str(), ns.as_slice(), item));
                    assert(edges_m(edges@) =~= edges_m(old(edges)@) + out.0);
                    assert(diags_m(diags@) =~= diags_m(old(diags)@) + out.1);
                },
                Some(r) => {
                    proof {
                        let i = choose|i: int|
                            0 <= i < ds.len() && ds[i].0@ == name@ && ds[i].1 == *r && forall|j: int|
                                0 <= j < i ==> (#[trigger] ds[j]).0@ != name@;
                        match first_index(ds, p) {
                            Some(k) => {
                                assert(!(k < i));
                                assert(!(i < k));
                            },
                            None => {
                                assert(!p(ds[i]));
                            },
                        }
                        assert(dep_resolution(ds, name@) == Some(*r));
                    }
                    match r {
                        DepResolution::Inactive => {
                            push_diag(diags, inactive_dep(name.as_str(), item));
                            assert(edges_m(edges@) =~= edges_m(old(edges)@) + out.0);
                            assert(diags_m(diags@) =~= diags_m(old(diags)@) + out.1);
                        },
                        DepResolution::AlreadyReported => {
                            assert(edges_m(edges@) =~= edges_m(old(edges)@) + out.0);
                            assert(diags_m(diags@) =~= diags_m(old(diags)@) + out.1);
                        },
                        DepResolution::Package(to) => {
                            let libs = names.libs_of(to.as_str());
                            let ghost ls = lib_labels(*names, to@);
                            assert(libs@.map_values(|x: String| x@) == ls);
                            if libs.len() == 0 {
                                push_diag(diags, empty_dep(name.as_str(), item));
                            }
                            assert(diags_m(diags@) =~= diags_m(old(diags)@) + out.1);
                            let ghost start = edges@;
                            let mut i: usize = 0;
                            while i < libs.len()
                                invariant
                                    i <= libs@.len(),
                                    libs@.map_values(|x: String| x@) == ls,
                                    edges_m(edges@) == edges_m(start) + ls.take(i as int).map_values(
                                        |l: Seq<char>| (l, block, site),
                                    ),
                                decreases libs.len() - i,
                            {
                                assert(libs@[i as int]@ == ls[i as int]);
                                let ghost before = edges@;
                                edges.push((copy_string(&libs[i]), block, site));
                                assert(edges_m(edges@) =~= edges_m(before).push((ls[i as int], block, site)));
                                assert(ls.take(i + 1) =~= ls.take(i as int).push(ls[i as int]));
                                assert(ls.take(i + 1).map_values(|l: Seq<char>| (l, block, site)) =~= ls.take(
                                    i as int,
                                ).map_values(|l: Seq<char>| (l, block, site)).push((ls[i as int], block, site)));
                                assert(edges_m(edges@) =~= edges_m(start) + ls.take(i + 1).map_values(
                                    |l: Seq<char>| (l, block, site),
                                ));
                                i += 1;
                            }
                            assert(ls.take(i as int) =~= ls);
                            assert(edges_m(edges@) =~= edges_m(old(edges)@) + out.0);
                        },
                    }
                },
            }
        },
        Data::Error => {
            assert(edges_m(edges@) =~= edges_m(old(edges)@) + out.0);
            assert(diags_m(diags@) =~= diags_m(old(diags)@) + out.1);
        },
        _ => {
            push_diag(diags, invalid_dep(item));
            assert(edges_m(edges@) =~= edges_m(old(edges)@) + out.0);
            assert(diags_m(diags@) =~= diags_m(old(diags)@) + out.1);
        },
    }
}

/// What the `deps` of one block contributes: nothing where the block has
/// none or its condition is false here, else what its items contribute.
pub open spec fn block_outcome(pkg: Seq<char>, names: NameTable, props: PropMap, cfg: Config, fallback: Site, block: Block) -> (Seq<EdgeM>, Seq<DiagM>) {
    match props.lookup("deps"@) {
        None => (Seq::empty(), Seq::empty()),
        Some(v) => match specialized(cfg, value_m(v)) {
            None => (Seq::empty(), Seq::empty()),
            Some(s) => items_outcome(pkg, names, dep_items_m(s), fallback, block),
        },
    }
}

/// What a target's `deps` resolve to: those of `public`, then those of
/// `private`.
pub open spec fn deps_outcome(label: Seq<char>, decl: TargetDecl, cfg: Config, names: NameTable) -> (Seq<EdgeM>, Seq<DiagM>) {
    let pkg = package_of_label(label);
    let a = block_outcome(pkg, names, decl.public, cfg, decl.site, Block::Public);
    let b = block_outcome(pkg, names, decl.private, cfg, decl.site, Block::Private);
    (a.0 + b.0, a.1 + b.1)
}

/// Resolved dependencies of a target.
pub struct Deps {
    /// The label depended on, the block that declared it, where it was
    /// written.
    pub edges: Vec<(String, Block, Site)>,
    pub diagnostics: Vec<Diagnostic>,
}

/// Appends what the `deps` of one block contribute.
fn resolve_block(
    pkg: &str,
    names: &NameTable,
    props: &PropMap,
    cfg: &Config,
    fallback: Site,
    block: Block,
    edges: &mut Vec<(String, Block, Site)>,
    diags: &mut Vec<Diagnostic>,
)
    requires
        names.wf(),
        props.wf(),
    ensures
        edges_m(final(edges)@) == edges_m(old(edges)@) + block_outcome(pkg@, *names, *props, *cfg, fallback, block).0,
        diags_m(final(diags)@) == diags_m(old(diags)@) + block_outcome(pkg@, *names, *props, *cfg, fallback, block).1,
{
    let value = match props.get("deps") {
        Some(v) => v,
        None => {
            assert(edges_m(edges@) =~= edges_m(old(edges)@) + Seq::<EdgeM>::empty());
            assert(diags_m(diags@) =~= diags_m(old(diags)@) + Seq::<DiagM>::empty());
            return;
        },
    };
    let value = match specialize(value, cfg) {
        Some(v) => v,
        None => {
            assert(edges_m(edges@) =~= edges_m(old(edges)@) + Seq::<EdgeM>::empty());
            assert(diags_m(diags@) =~= diags_m(old(diags)@) + Seq::<DiagM>::empty());
            return;
        },
    };
    let items = dep_items(&value);
    let ghost ms = dep_items_m(value_m(value));
    let ghost e0 = edges_m(edges@);
    let ghost d0 = diags_m(diags@);
    let mut i: usize = 0;
    assert(ms.take(0) =~= Seq::<ValueM>::empty());
    assert(e0 + Seq::<EdgeM>::empty() =~= e0);
    assert(d0 + Seq::<DiagM>::empty() =~= d0);
    while i < items.len()
        invariant
            names.wf(),
            i <= items@.len(),
            items@.len() == ms.len(),
            forall|j: int| 0 <= j < items@.len() ==> value_m(#[trigger] items@[j]) == ms[j],
            edges_m(edges@) == e0 + items_outcome(pkg@, *names, ms.take(i as int), fallback, block).0,
            diags_m(diags@) == d0 + items_outcome(pkg@, *names, ms.take(i as int), fallback, block).1,
        decreases items.len() - i,
    {
        let ghost ea = edges_m(edges@);
        let ghost da = diags_m(diags@);
        resolve_item(pkg, names, &items[i], fallback, block, edges, diags);
        proof {
            assert(ms.take(i + 1).drop_last() =~= ms.take(i as int));
            assert(ms.take(i + 1).last() == ms[i as int]);
            let prev = items_outcome(pkg@, *names, ms.take(i as int), fallback, block);
            let one = item_outcome(pkg@, *names, ms[i as int], fallback, block);
            assert(edges_m(edges@) =~= e0 + (prev.0 + one.0));
            assert(diags_m(diags@) =~= d0 + (prev.1 + one.1));
        }
        i += 1;
    }
    assert(ms.take(i as int) =~= ms);
}

/// The dependencies that the target `label`, declared as `declared`,
/// writes in `deps`, resolved through the table of names. `cfg` is the
/// configuration as it stands for the target's package
/// ([`Config::for_package`]): `feature.<name>` asks whether the feature is
/// on in the package that declares it. Edges come in the order written,
/// `public` before `private`; what cannot be resolved is a diagnostic.
pub fn deps(label: &str, declared: &TargetDecl, cfg: &Config, names: &NameTable) -> (r: Deps)
    requires
        names.wf(),
        declared.public.wf(),
        declared.private.wf(),
    ensures
        edges_m(r.edges@) == deps_outcome(label@, *declared, *cfg, *names).0,
        diags_m(r.diagnostics@) == deps_outcome(label@, *declared, *cfg, *names).1,
{
    let pkg = package_of(label);
    let mut edges: Vec<(String, Block, Site)> = Vec::new();
    let mut diagnostics: Vec<Diagnostic> = Vec::new();
    assert(edges_m(edges@) =~= Seq::<EdgeM>::empty());
    assert(diags_m(diagnostics@) =~= Seq::<DiagM>::empty());
    resolve_block(pkg.as_str(), names, &declared.public, cfg, declared.site, Block::Public, &mut edges, &mut diagnostics);
    resolve_block(pkg.as_str(), names, &declared.private, cfg, declared.site, Block::Private, &mut edges, &mut diagnostics);
    Deps { edges, diagnostics }
}

/// Whether target `t` of a package is a library.
pub open spec fn is_lib() -> spec_fn((String, TableKind)) -> bool {
    |t: (String, TableKind)| t.1 == TableKind::Lib
}

/// A `dep(...)` on a package links every library the package declares, and
/// nothing else: one edge, from the item's site and in the item's block, to
/// each of its libraries, in the order the package declares them; a
/// package without one is diagnosed instead.
pub proof fn law_dep_links_every_lib(
    pkg: Seq<char>,
    names: NameTable,
    item: ValueM,
    fallback: Site,
    block: Block,
    n: Seq<char>,
    to: String,
)
    requires
        item.data == DataM::Dep(n),
        dep_resolution(names.deps_of(pkg), n) == Some(DepResolution::Package(to)),
    ensures
        ({
            let es = item_outcome(pkg, names, item, fallback, block).0;
            let ds = item_outcome(pkg, names, item, fallback, block).1;
            let ts = names.targets_of(to@);
            &&& forall|j: int| 0 <= j < ts.len() && (#[trigger] ts[j]).1 == TableKind::Lib ==> es.contains(
                (label_text(to@, ts[j].0@), block, site_or(item, fallback)),
            )
            &&& forall|k: int| 0 <= k < es.len() ==> (#[trigger] es[k]).1 == block && es[k].2 == site_or(item, fallback)
                && exists|j: int| 0 <= j < ts.len() && ts[j].1 == TableKind::Lib && es[k].0 == label_text(to@, ts[j].0@)
            &&& (exists|j: int| 0 <= j < ts.len() && ts[j].1 == TableKind::Lib) ==> ds.len() == 0
            &&& es.len() == ts.filter(is_lib()).len()
            &&& forall|k: int| 0 <= k < es.len() ==> (#[trigger] es[k]).0 == label_text(to@, ts.filter(is_lib())[k].0@)
        }),
{
    broadcast use vstd::seq_lib::group_filter_ensures;

    let ts = names.targets_of(to@);
    let site = site_or(item, fallback);
    let f = ts.filter(is_lib());
    assert(ts.filter(|t: (String, TableKind)| t.1 == TableKind::Lib) == f);
    let libs = f.map_values(|t: (String, TableKind)| label_text(to@, t.0@));
    let es = libs.map_values(|l: Seq<char>| (l, block, site));
    assert(item_outcome(pkg, names, item, fallback, block).0 == es);
    assert forall|j: int| 0 <= j < ts.len() && (#[trigger] ts[j]).1 == TableKind::Lib implies es.contains(
        (label_text(to@, ts[j].0@), block, site),
    ) by {
        ts.lemma_filter_contains(is_lib(), j);
        let k = choose|k: int| 0 <= k < f.len() && f[k] == ts[j];
        assert(es[k] == (label_text(to@, ts[j].0@), block, site));
    }
    assert forall|k: int| 0 <= k < es.len() implies (#[trigger] es[k]).1 == block && es[k].2 == site
        && exists|j: int| 0 <= j < ts.len() && ts[j].1 == TableKind::Lib && es[k].0 == label_text(to@, ts[j].0@) by {
        assert(f.contains(f[k]));
        ts.lemma_filter_contains_rev(is_lib(), f[k]);
        let j = choose|j: int| 0 <= j < ts.len() && ts[j] == f[k];
        assert(es[k].0 == label_text(to@, f[k].0@));
    }
    if exists|j: int| 0 <= j < ts.len() && ts[j].1 == TableKind::Lib {
        let j = choose|j: int| 0 <= j < ts.len() && ts[j].1 == TableKind::Lib;
        ts.lemma_filter_contains(is_lib(), j);
        assert(f.len() > 0);
    }
}

} // verus!
