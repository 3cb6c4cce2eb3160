//! One step of walking a workspace: a package was read, and what follows
//! from it is decided here. Its features are resolved, and each of its
//! dependencies becomes what to do next: visit a local path, fetch a
//! pinned checkout or archive, use one already fetched, or ask pkg-config.
//! An optional dependency whose feature is off is not read at all. Reading
//! directories, fetching and running pkg-config stay with the caller, which
//! performs the actions and hands the packages it reads back here.

use vstd::prelude::*;
use crate::model::DepKind;
use crate::document::strings_view;
use crate::package::{
    admissible, closed_under, features_site_of, forwarded_m, forwards, holds_plain, is_active, plain, reached,
    resolve, starts_of, Dependency, Features, Package,
};
use crate::text::split_once;
use crate::strs::NameSet;
use crate::text::copy_string;
use crate::value::Site;

verus! {

/// What to do for one dependency.
#[derive(Debug)]
pub enum DepAction {
    /// Read the package at `rel`, relative to the depending package.
    Visit { rel: String, from: Site },
    /// Fetch the repository `url` at commit `rev` and read it.
    Fetch { name: String, url: String, rev: String, from: Site },
    /// Read the checkout of `rev` if one was fetched before; fetch nothing.
    Existing { name: String, rev: String, from: Site },
    /// Fetch the archive `url`, check it against `sha256`, and read it.
    FetchArchive { name: String, url: String, sha256: String, from: Site },
    /// Read the archive unpacked before for `sha256`, if there is one.
    ExistingArchive { name: String, sha256: String, from: Site },
    /// Resolve the package through pkg-config.
    PkgConfig { name: String, min_version: String, from: Site },
}

/// An action as plain values: a tag, the strings it carries, and the site.
pub type ActionM = (nat, Seq<Seq<char>>, Site);

pub open spec fn action_m(a: DepAction) -> ActionM {
    match a {
        DepAction::Visit { rel, from } => (0, seq![rel@], from),
        DepAction::Fetch { name, url, rev, from } => (1, seq![name@, url@, rev@], from),
        DepAction::Existing { name, rev, from } => (2, seq![name@, rev@], from),
        DepAction::FetchArchive { name, url, sha256, from } => (3, seq![name@, url@, sha256@], from),
        DepAction::ExistingArchive { name, sha256, from } => (4, seq![name@, sha256@], from),
        DepAction::PkgConfig { name, min_version, from } => (5, seq![name@, min_version@], from),
    }
}

pub open spec fn actions_m(s: Seq<DepAction>) -> Seq<ActionM> {
    s.map_values(|a: DepAction| action_m(a))
}

/// What one dependency asks for, given the package's own features and the
/// dependencies already resolved once (`done`). A remote source is fetched
/// and diagnosed once, when `fetching`; otherwise, and after the first
/// time, only what was fetched before is read. pkg-config is asked once.
pub open spec fn dep_action(
    d: Dependency,
    own: Seq<Seq<char>>,
    fetching: bool,
    done: Set<Seq<char>>,
) -> Option<ActionM> {
    let first = !done.contains(d.name@);
    if d.optional && !own.contains(d.name@) {
        None
    } else {
        match d.kind {
            DepKind::Path(rel) => Some((0, seq![rel@], d.source_site)),
            DepKind::Git { url, rev } => if fetching && first {
                Some((1, seq![d.name@, url@, rev@], d.source_site))
            } else {
                Some((2, seq![d.name@, rev@], d.source_site))
            },
            DepKind::Tarball { url, sha256 } => if fetching && first {
                Some((3, seq![d.name@, url@, sha256@], d.source_site))
            } else {
                Some((4, seq![d.name@, sha256@], d.source_site))
            },
            DepKind::PkgConfig { min_version } => if fetching && first {
                Some((5, seq![d.name@, min_version@], d.source_site))
            } else {
                None
            },
            DepKind::Unsupported(_) => None,
        }
    }
}

/// Whether resolving `d` marks it as resolved once: every active remote
/// source does, fetched or not.
pub open spec fn marks_done(d: Dependency, own: Seq<Seq<char>>) -> bool {
    (!d.optional || own.contains(d.name@)) && match d.kind {
        DepKind::Git { .. } => true,
        DepKind::Tarball { .. } => true,
        DepKind::PkgConfig { .. } => true,
        _ => false,
    }
}

/// The actions for the dependencies, in declaration order, and the names
/// resolved once after them.
pub open spec fn dep_actions(
    deps: Seq<Dependency>,
    own: Seq<Seq<char>>,
    fetching: bool,
    done: Set<Seq<char>>,
) -> (Seq<ActionM>, Set<Seq<char>>)
    decreases deps.len(),
{
    if deps.len() == 0 {
        (Seq::empty(), done)
    } else {
        let (acts, seen) = dep_actions(deps.drop_last(), own, fetching, done);
        let d = deps.last();
        let next = if marks_done(d, own) {
            seen.insert(d.name@)
        } else {
            seen
        };
        match dep_action(d, own, fetching, seen) {
            Some(a) => (acts.push(a), next),
            None => (acts, next),
        }
    }
}

/// Whether `out` is what resolving the features of `pkg` gives: its own
/// features are the least set that holds what is asked and is closed under
/// what each feature enables, and a dependency's feature is forwarded when
/// something reached enables it.
pub open spec fn resolves(pkg: Package, requested: Seq<Seq<char>>, use_default: bool, out: Features) -> bool {
    let st = starts_of(pkg, requested, use_default);
    let own = out.own.view().to_set();
    &&& holds_plain(own, st)
    &&& closed_under(pkg, own)
    &&& forall|t: Set<Seq<char>>| #[trigger] admissible(pkg, st, t) ==> own.subset_of(t)
    &&& forall|x: Seq<char>| own.contains(x) ==> plain(x)
    &&& forall|dep: Seq<char>, feat: Seq<char>|
        #[trigger] forwards(out, dep, feat) <==> exists|x: Seq<char>|
            reached(pkg, st, own, x) && #[trigger] split_once(x, '/') == Some((dep, feat))
    &&& forall|dep: Seq<char>, i: int|
        forwarded_m(out).contains_key(dep) && 0 <= i < forwarded_m(out)[dep].len()
            ==> (#[trigger] forwarded_m(out)[dep][i]).1 == features_site_of(pkg)
}

/// What a package that was read leads to.
pub struct WalkStep {
    /// Its features, resolved: its own, and what it forwards to each
    /// dependency.
    pub features: Features,
    /// What to do for its dependencies, in declaration order.
    pub actions: Vec<DepAction>,
}

fn copy_site(s: &Site) -> (r: Site)
    ensures
        r == *s,
{
    *s
}

/// Decides what follows from having read `pkg`: its features, from
/// `requested` and the `default` feature when `use_default`; and an action
/// for each active dependency. `done` holds the dependencies of this
/// package resolved once before, and gains those resolved now.
pub fn walk_step(
    pkg: &Package,
    requested: &[String],
    use_default: bool,
    fetching: bool,
    done: &mut NameSet,
) -> (r: WalkStep)
    requires
        pkg.wf(),
        old(done).wf(),
    ensures
        final(done).wf(),
        r.features.own.wf(),
        r.features.forwarded.wf(),
        resolves(*pkg, strings_view(requested@), use_default, r.features),
        actions_m(r.actions@) == dep_actions(pkg.deps@, r.features.own.view(), fetching, old(done).view().to_set()).0,
        final(done).view().to_set() == dep_actions(pkg.deps@, r.features.own.view(), fetching, old(done).view().to_set()).1,
{
    let features = resolve(pkg, requested, use_default);
    let ghost own = features.own.view();
    let ghost start = done.view().to_set();
    let mut actions: Vec<DepAction> = Vec::new();
    let mut i: usize = 0;
    assert(pkg.deps@.take(0) =~= Seq::<Dependency>::empty());
    while i < pkg.deps.len()
        invariant
            i <= pkg.deps@.len(),
            done.wf(),
            own == features.own.view(),
            actions_m(actions@) == dep_actions(pkg.deps@.take(i as int), own, fetching, start).0,
            done.view().to_set() == dep_actions(pkg.deps@.take(i as int), own, fetching, start).1,
        decreases pkg.deps.len() - i,
    {
        let d = &pkg.deps[i];
        let ghost seen = done.view().to_set();
        proof {
            assert(pkg.deps@.take(i + 1).drop_last() =~= pkg.deps@.take(i as int));
            assert(pkg.deps@.take(i + 1).last() == pkg.deps@[i as int]);
        }
        let ghost before = actions_m(actions@);
        if is_active(d, &features.own) {
            let first = !done.contains(d.name.as_str());
            let from = copy_site(&d.source_site);
            match &d.kind {
                DepKind::Path(rel) => {
                    actions.push(DepAction::Visit { rel: copy_string(rel), from });
                },
                DepKind::Git { url, rev } => {
                    done.insert(copy_string(&d.name));
                    if fetching && first {
                        actions.push(
                            DepAction::Fetch {
                                name: copy_string(&d.name),
                                url: copy_string(url),
                                rev: copy_string(rev),
                                from,
                            },
                        );
                    } else {
                        actions.push(DepAction::Existing { name: copy_string(&d.name), rev: copy_string(rev), from });
                    }
                },
                DepKind::Tarball { url, sha256 } => {
                    done.insert(copy_string(&d.name));
                    if fetching && first {
                        actions.push(
                            DepAction::FetchArchive {
                                name: copy_string(&d.name),
                                url: copy_string(url),
                                sha256: copy_string(sha256),
                                from,
                            },
                        );
                    } else {
                        actions.push(
                            DepAction::ExistingArchive { name: copy_string(&d.name), sha256: copy_string(sha256), from },
                        );
                    }
                },
                DepKind::PkgConfig { min_version } => {
                    done.insert(copy_string(&d.name));
                    if fetching && first {
                        actions.push(
                            DepAction::PkgConfig {
                                name: copy_string(&d.name),
                                min_version: copy_string(min_version),
                                from,
                            },
                        );
                    }
                },
                DepKind::Unsupported(_) => {},
            }
        }
        assert(actions_m(actions@) =~= dep_actions(pkg.deps@.take(i + 1), own, fetching, start).0);
        i += 1;
    }
    assert(pkg.deps@.take(i as int) =~= pkg.deps@);
    WalkStep { features, actions }
}

} // verus!
