//! Targets and the properties they declare. The values stored here are not
//! specialised yet: `match` and postfix `when` are still in them. The
//! configuration comes in when actions are made, which is why switching
//! `--release` does not evaluate the manifests again.

use vstd::prelude::*;
use crate::schema::{Block, TableKind};
use crate::strs::ByName;
use crate::value::{Site, Value};

verus! {

/// Property name to declared value.
pub type PropMap = ByName<Value>;

/// `[test.<name>.harness]`: the executable lists its own cases; only how
/// to ask is read from here.
#[derive(Debug)]
pub struct HarnessDecl {
    /// Field name to value.
    pub fields: ByName<Value>,
    pub site: Site,
}

/// One item of `[test.<name>.cases]`: another run of the same executable.
/// The value is not specialised, so a case can exist in some
/// configurations only.
#[derive(Debug)]
pub struct CaseDecl {
    /// The case's name; its label is `<package>:<target>/<name>`.
    pub name: String,
    /// The case itself: an inline table, or a `match` or `when` around one.
    pub value: Value,
    pub site: Site,
}

/// A tool run over an artifact: a transform in `artifacts`, a report in
/// `inspect`. Neither propagates: a target does it to its own artifact.
#[derive(Debug)]
pub struct ArtifactDecl {
    /// The extension of the output of a transform, or the name a report
    /// is shown under.
    pub suffix: String,
    /// The name of the tool, from the table of tools.
    pub tool: String,
    /// The arguments given to the tool, not specialised.
    pub args: Option<Value>,
    /// Where the item was written.
    pub site: Site,
    /// Where `tool = "..."` was written.
    pub tool_site: Site,
}

/// The targets one file declares. Which session they belong to is not
/// part of it: the same text gives the same declarations.
#[derive(Debug)]
pub struct TargetDecl {
    pub kind: TableKind,
    pub name: String,
    /// Where the `[lib.foo]` header was written.
    pub site: Site,
    /// Properties that do not propagate, such as `sources`.
    pub root: PropMap,
    /// Properties that propagate to dependents.
    pub public: PropMap,
    /// Properties of the target's own compilation only.
    pub private: PropMap,
    /// `[<kind>.<name>.artifacts]`, in declaration order.
    pub artifacts: Vec<ArtifactDecl>,
    /// `[<kind>.<name>.inspect]`, in declaration order.
    pub inspections: Vec<ArtifactDecl>,
    /// `[test.<name>.cases]`, in declaration order; empty, the target is
    /// one test itself.
    pub cases: Vec<CaseDecl>,
    /// `[test.<name>.harness]`; never together with `cases`.
    pub harness: Option<HarnessDecl>,
}

/// The properties a target declares in a block.
pub open spec fn block_of(t: TargetDecl, block: Block) -> PropMap {
    match block {
        Block::Root => t.root,
        Block::Public => t.public,
        Block::Private => t.private,
    }
}

impl TargetDecl {
    /// A declaration with only its name and where it was written.
    pub fn bare(kind: TableKind, name: String, site: Site) -> (r: TargetDecl)
        ensures
            r.kind == kind,
            r.name@ == name@,
            r.site == site,
            r.root.wf() && r.root.view().len() == 0,
            r.public.wf() && r.public.view().len() == 0,
            r.private.wf() && r.private.view().len() == 0,
            r.artifacts@.len() == 0,
            r.inspections@.len() == 0,
            r.cases@.len() == 0,
            r.harness is None,
    {
        TargetDecl {
            kind,
            name,
            site,
            root: ByName::new(),
            public: ByName::new(),
            private: ByName::new(),
            artifacts: Vec::new(),
            inspections: Vec::new(),
            cases: Vec::new(),
            harness: None,
        }
    }

    /// The properties of a block.
    pub fn props(&self, block: Block) -> (r: &PropMap)
        ensures
            *r == block_of(*self, block),
    {
        match block {
            Block::Root => &self.root,
            Block::Public => &self.public,
            Block::Private => &self.private,
        }
    }

    /// The properties of a block, to change them; the other blocks stay.
    pub fn props_mut(&mut self, block: Block) -> (r: &mut PropMap)
        ensures
            *r == block_of(*old(self), block),
            *final(self) == (match block {
                Block::Root => TargetDecl { root: *final(r), ..*old(self) },
                Block::Public => TargetDecl { public: *final(r), ..*old(self) },
                Block::Private => TargetDecl { private: *final(r), ..*old(self) },
            }),
    {
        match block {
            Block::Root => &mut self.root,
            Block::Public => &mut self.public,
            Block::Private => &mut self.private,
        }
    }
}

} // verus!
