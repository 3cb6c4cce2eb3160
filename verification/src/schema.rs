//! The schema: which properties a table may hold, their types, and the rule
//! by which the values that reach a property are merged into one. Each
//! property declares its rule, so that adding a property adds no checking
//! code.

use vstd::prelude::*;
use crate::text::str_eq;
use crate::value::Type;

verus! {

/// How the values that reach one property are folded into one.
#[derive(Clone, Copy, PartialEq, Eq, Structural, Debug)]
pub enum Merge {
    /// Union, ordered along the dependency graph.
    Union,
    /// Concatenation, keeping the order.
    Append,
    /// Fails, showing both provenances, when differing values arrive.
    ErrorOnConflict,
    /// Fails unless all agree; ABI labels are checked this way.
    MustEqual,
    /// The last one wins; only for properties that do not propagate.
    Replace,
    /// The highest in the order of a closed vocabulary, such as a
    /// language standard: building with the highest standard in the
    /// closure satisfies what every target asks for.
    Max,
}

pub open spec fn merge_text(m: Merge) -> Seq<char> {
    match m {
        Merge::Union => "union"@,
        Merge::Append => "append"@,
        Merge::ErrorOnConflict => "error_on_conflict"@,
        Merge::MustEqual => "must_equal"@,
        Merge::Replace => "replace"@,
        Merge::Max => "max"@,
    }
}

impl Merge {
    pub fn name(self) -> (r: &'static str)
        ensures
            r@ == merge_text(self),
    {
        match self {
            Merge::Union => "union",
            Merge::Append => "append",
            Merge::ErrorOnConflict => "error_on_conflict",
            Merge::MustEqual => "must_equal",
            Merge::Replace => "replace",
            Merge::Max => "max",
        }
    }
}

/// The ABI label that names the C boundary rather than a language. A public
/// surface that is only `extern "C"` carries it; it matches any label.
pub const C_ABI: &'static str = "c";

/// The kind of a target table. A closed vocabulary: an unknown kind fails
/// the type check.
#[derive(Clone, Copy, PartialEq, Eq, Structural, Debug)]
pub enum TableKind {
    Lib,
    Bin,
    Test,
    Bench,
    /// A reusable unit (not recursive). Not implemented yet.
    Template,
    /// A toolchain description. Not implemented yet.
    Toolchain,
    /// A wrapper that runs an artifact.
    Runner,
}

pub open spec fn kind_text(k: TableKind) -> Seq<char> {
    match k {
        TableKind::Lib => "lib"@,
        TableKind::Bin => "bin"@,
        TableKind::Test => "test"@,
        TableKind::Bench => "bench"@,
        TableKind::Template => "template"@,
        TableKind::Toolchain => "toolchain"@,
        TableKind::Runner => "runner"@,
    }
}

impl TableKind {
    pub const ALL: [TableKind; 7] = [
        TableKind::Lib,
        TableKind::Bin,
        TableKind::Test,
        TableKind::Bench,
        TableKind::Template,
        TableKind::Toolchain,
        TableKind::Runner,
    ];

    pub fn parse(s: &str) -> (r: Option<TableKind>)
        ensures
            match r {
                Some(k) => kind_text(k) == s@,
                None => forall|k: TableKind| kind_text(k) != s@,
            },
    {
        proof {
            reveal_strlit("lib");
            reveal_strlit("bin");
            reveal_strlit("test");
            reveal_strlit("bench");
            reveal_strlit("template");
            reveal_strlit("toolchain");
            reveal_strlit("runner");
        }
        if str_eq(s, "lib") {
            Some(TableKind::Lib)
        } else if str_eq(s, "bin") {
            Some(TableKind::Bin)
        } else if str_eq(s, "test") {
            Some(TableKind::Test)
        } else if str_eq(s, "bench") {
            Some(TableKind::Bench)
        } else if str_eq(s, "template") {
            Some(TableKind::Template)
        } else if str_eq(s, "toolchain") {
            Some(TableKind::Toolchain)
        } else if str_eq(s, "runner") {
            Some(TableKind::Runner)
        } else {
            assert forall|k: TableKind| kind_text(k) != s@ by {
                match k {
                    TableKind::Lib => {},
                    TableKind::Bin => {},
                    TableKind::Test => {},
                    TableKind::Bench => {},
                    TableKind::Template => {},
                    TableKind::Toolchain => {},
                    TableKind::Runner => {},
                }
            }
            None
        }
    }

    pub fn name(self) -> (r: &'static str)
        ensures
            r@ == kind_text(self),
    {
        match self {
            TableKind::Lib => "lib",
            TableKind::Bin => "bin",
            TableKind::Test => "test",
            TableKind::Bench => "bench",
            TableKind::Template => "template",
            TableKind::Toolchain => "toolchain",
            TableKind::Runner => "runner",
        }
    }

    /// Whether the kind produces an artifact.
    pub fn is_target(self) -> (r: bool)
        ensures
            r == (self is Lib || self is Bin || self is Test || self is Bench),
    {
        match self {
            TableKind::Lib | TableKind::Bin | TableKind::Test | TableKind::Bench => true,
            _ => false,
        }
    }

    /// Whether the kind is implemented; the others are diagnosed as such.
    pub fn is_implemented(self) -> (r: bool)
        ensures
            r == (self is Lib || self is Bin || self is Test || self is Runner),
    {
        match self {
            TableKind::Lib | TableKind::Bin | TableKind::Test | TableKind::Runner => true,
            _ => false,
        }
    }
}

/// Which part of a target a property stands in. `public` and `private`
/// split by block rather than by qualifying each property name.
#[derive(Clone, Copy, PartialEq, Eq, Structural, PartialOrd, Ord, Debug)]
pub enum Block {
    /// Directly under the target; does not propagate.
    Root,
    /// Propagates to dependents.
    Public,
    /// Affects only the target's own compilation.
    Private,
}

pub open spec fn block_text(b: Block) -> Seq<char> {
    match b {
        Block::Root => "(root)"@,
        Block::Public => "public"@,
        Block::Private => "private"@,
    }
}

impl Block {
    /// The block that a table name opens; the root has no name.
    pub fn parse(s: &str) -> (r: Option<Block>)
        ensures
            r == (if s@ == "public"@ {
                Some(Block::Public)
            } else if s@ == "private"@ {
                Some(Block::Private)
            } else {
                None::<Block>
            }),
    {
        if str_eq(s, "public") {
            Some(Block::Public)
        } else if str_eq(s, "private") {
            Some(Block::Private)
        } else {
            None
        }
    }

    pub fn name(self) -> (r: &'static str)
        ensures
            r@ == block_text(self),
    {
        match self {
            Block::Root => "(root)",
            Block::Public => "public",
            Block::Private => "private",
        }
    }
}

/// The declaration of one property.
pub struct PropDef {
    pub name: &'static str,
    pub ty: Type,
    pub merge: Merge,
    pub doc: &'static str,
    /// A closed vocabulary: when present, a value outside it is diagnosed.
    /// The order means something: `Merge::Max` compares positions.
    pub domain: Option<Vec<&'static str>>,
}

/// A declaration as plain values: name, type, merge rule, documentation
/// and vocabulary.
pub type PropRow = (Seq<char>, Type, Merge, Seq<char>, Option<Seq<Seq<char>>>);

/// A vocabulary as plain values.
pub open spec fn domain_m(d: Option<Vec<&'static str>>) -> Option<Seq<Seq<char>>> {
    match d {
        Some(d) => Some(d@.map_values(|s: &'static str| s@)),
        None => None,
    }
}

pub open spec fn row_of(p: PropDef) -> PropRow {
    (p.name@, p.ty, p.merge, p.doc@, domain_m(p.domain))
}

pub open spec fn rows_of(v: Seq<PropDef>) -> Seq<PropRow> {
    v.map_values(|p: PropDef| row_of(p))
}

/// The C language standards, lowest first (`Merge::Max` compares positions).
/// GNU dialects are another axis and are left out: `c_flags = ["-std=gnu11"]`
/// comes later on the command line and wins.
pub const C_STANDARDS: [&'static str; 5] = ["c89", "c99", "c11", "c17", "c23"];

/// The C++ language standards, lowest first.
pub const CXX_STANDARDS: [&'static str; 8] = [
    "c++98",
    "c++03",
    "c++11",
    "c++14",
    "c++17",
    "c++20",
    "c++23",
    "c++26",
];

pub open spec fn c_standards() -> Seq<Seq<char>> {
    seq!["c89"@, "c99"@, "c11"@, "c17"@, "c23"@]
}

pub open spec fn cxx_standards() -> Seq<Seq<char>> {
    seq!["c++98"@, "c++03"@, "c++11"@, "c++14"@, "c++17"@, "c++20"@, "c++23"@, "c++26"@]
}

/// The signatures and descriptions of the built-in functions; the schema
/// dump and the language server's hover read the same table.
pub const FUNCTIONS: [(&'static str, &'static str, &'static str); 5] = [
    ("glob", "(Str) -> List<Path>", "files matching the pattern; expanded at plan time"),
    ("dir", "(Str) -> Path", "a directory relative to the package root"),
    ("file", "(Str) -> Path", "a file relative to the package root"),
    ("dep", "(Str) -> DepRef", "a reference to a dependency declared in dowel.toml"),
    ("target", "(Str) -> TargetRef", "a reference to a target in the same package"),
];

pub open spec fn list_of(t: Type) -> Type {
    Type::List(Box::new(t))
}

pub open spec fn set_of(t: Type) -> Type {
    Type::SetOf(Box::new(t))
}

fn list(t: Type) -> (r: Type)
    ensures
        r == list_of(t),
{
    Type::List(Box::new(t))
}

fn set(t: Type) -> (r: Type)
    ensures
        r == set_of(t),
{
    Type::SetOf(Box::new(t))
}

pub open spec fn root_rows() -> Seq<PropRow> {
    seq![
        ("sources"@, list_of(Type::Path), Merge::Append, "sources to compile. does not propagate"@, None::<Seq<Seq<char>>>),
    ]
}

/// The properties that stand directly under a target.
pub fn root_props() -> (r: Vec<PropDef>)
    ensures
        rows_of(r@) == root_rows(),
{
    let r = vec![
        PropDef {
            name: "sources",
            ty: list(Type::Path),
            merge: Merge::Append,
            doc: "sources to compile. does not propagate",
            domain: None,
        },
    ];
    assert(rows_of(r@) =~= root_rows());
    r
}

pub open spec fn runner_rows() -> Seq<PropRow> {
    seq![
        ("command"@, Type::Str, Merge::Replace, "the program that wraps the artifact, such as `qemu-riscv64`"@, None::<Seq<Seq<char>>>),
        ("args"@, list_of(Type::Str), Merge::Append, "arguments placed before the artifact path"@, None::<Seq<Seq<char>>>),
        ("transfer"@, list_of(Type::Str), Merge::Append, "command that copies the artifact. the source and destination are appended"@, None::<Seq<Seq<char>>>),
        ("remote_dir"@, Type::Str, Merge::Replace, "directory on the target machine that receives the artifact"@, None::<Seq<Seq<char>>>),
        ("host"@, Type::Str, Merge::Replace, "host part of the transfer destination, written as `<host>:<path>`"@, None::<Seq<Seq<char>>>),
    ]
}

/// The properties of `[runner.<triple>]`. A set of their own: a runner
/// produces no artifact and does not propagate, so a runner with `sources`
/// must not pass the type check.
pub fn runner_props() -> (r: Vec<PropDef>)
    ensures
        rows_of(r@) == runner_rows(),
{
    let r = vec![
        PropDef {
            name: "command",
            ty: Type::Str,
            merge: Merge::Replace,
            doc: "the program that wraps the artifact, such as `qemu-riscv64`",
            domain: None,
        },
        PropDef {
            name: "args",
            ty: list(Type::Str),
            merge: Merge::Append,
            doc: "arguments placed before the artifact path",
            domain: None,
        },
        PropDef {
            name: "transfer",
            ty: list(Type::Str),
            merge: Merge::Append,
            doc: "command that copies the artifact. the source and destination are appended",
            domain: None,
        },
        PropDef {
            name: "remote_dir",
            ty: Type::Str,
            merge: Merge::Replace,
            doc: "directory on the target machine that receives the artifact",
            domain: None,
        },
        PropDef {
            name: "host",
            ty: Type::Str,
            merge: Merge::Replace,
            doc: "host part of the transfer destination, written as `<host>:<path>`",
            domain: None,
        },
    ];
    assert(rows_of(r@) =~= runner_rows());
    r
}

pub open spec fn artifact_rows() -> Seq<PropRow> {
    seq![
        ("tool"@, Type::Str, Merge::Replace, "the toolchain tool that performs the transform, such as `objcopy`"@, None::<Seq<Seq<char>>>),
        ("args"@, list_of(Type::Str), Merge::Append, "arguments placed before the input and output paths"@, None::<Seq<Seq<char>>>),
    ]
}

/// The properties of one item of `[<kind>.<name>.artifacts]`, an inline
/// table keyed by the output's extension. The command run is
/// `<tool> <args...> <input> <output>`; input and output are not written.
pub fn artifact_props() -> (r: Vec<PropDef>)
    ensures
        rows_of(r@) == artifact_rows(),
{
    let r = vec![
        PropDef {
            name: "tool",
            ty: Type::Str,
            merge: Merge::Replace,
            doc: "the toolchain tool that performs the transform, such as `objcopy`",
            domain: None,
        },
        PropDef {
            name: "args",
            ty: list(Type::Str),
            merge: Merge::Append,
            doc: "arguments placed before the input and output paths",
            domain: None,
        },
    ];
    assert(rows_of(r@) =~= artifact_rows());
    r
}

pub open spec fn inspection_rows() -> Seq<PropRow> {
    seq![
        ("tool"@, Type::Str, Merge::Replace, "the toolchain tool that reports, such as `size`"@, None::<Seq<Seq<char>>>),
        ("args"@, list_of(Type::Str), Merge::Append, "arguments placed before the artifact path"@, None::<Seq<Seq<char>>>),
    ]
}

/// The properties of one item of `[<kind>.<name>.inspect]`. An inspection
/// makes no artifact, so it is neither incremental nor built by default.
/// The command run is `<tool> <args...> <artifact>`.
pub fn inspection_props() -> (r: Vec<PropDef>)
    ensures
        rows_of(r@) == inspection_rows(),
{
    let r = vec![
        PropDef {
            name: "tool",
            ty: Type::Str,
            merge: Merge::Replace,
            doc: "the toolchain tool that reports, such as `size`",
            domain: None,
        },
        PropDef {
            name: "args",
            ty: list(Type::Str),
            merge: Merge::Append,
            doc: "arguments placed before the artifact path",
            domain: None,
        },
    ];
    assert(rows_of(r@) =~= inspection_rows());
    r
}

pub open spec fn block_rows() -> Seq<PropRow> {
    seq![
        ("includes"@, set_of(Type::Path), Merge::Union, "include search paths. ordered along the dependency graph"@, None::<Seq<Seq<char>>>),
        ("defines"@, Type::MapOf(Box::new(Type::Val)), Merge::ErrorOnConflict, "preprocessor definitions. fails when conflicting values arrive"@, None::<Seq<Seq<char>>>),
        ("flags"@, list_of(Type::Str), Merge::Append, "compile flags for every language. order preserving"@, None::<Seq<Seq<char>>>),
        ("c_flags"@, list_of(Type::Str), Merge::Append, "compile flags for C sources only, after `flags`. order preserving"@, None::<Seq<Seq<char>>>),
        ("cxx_flags"@, list_of(Type::Str), Merge::Append, "compile flags for C++ sources only, after `flags`. order preserving"@, None::<Seq<Seq<char>>>),
        ("link_flags"@, list_of(Type::Word), Merge::Append, "link flags, order preserving. a `Path` element expands to its absolute path"@, None::<Seq<Seq<char>>>),
        ("c_std"@, Type::Str, Merge::Max, "C language standard, such as `c17`. becomes `-std=` for C sources"@, Some(c_standards())),
        ("cxx_std"@, Type::Str, Merge::Max, "C++ language standard, such as `c++20`. becomes `-std=` for C++ sources"@, Some(cxx_standards())),
        ("deps"@, list_of(Type::Unknown), Merge::Append, "dependencies. dep(...) is a package dependency, target(...) is same-package"@, None::<Seq<Seq<char>>>),
        ("abi"@, Type::AbiLabel, Merge::MustEqual, "ABI label. mismatches fail before linking; `c` names the C ABI boundary and matches any label"@, None::<Seq<Seq<char>>>),
    ]
}

/// The properties of the `public` and `private` blocks: the same set for
/// both, since the block, not the property, decides what propagates.
pub fn block_props() -> (r: Vec<PropDef>)
    ensures
        rows_of(r@) == block_rows(),
{
    let c_std: Vec<&'static str> = vec!["c89", "c99", "c11", "c17", "c23"];
    let cxx_std: Vec<&'static str> = vec![
        "c++98",
        "c++03",
        "c++11",
        "c++14",
        "c++17",
        "c++20",
        "c++23",
        "c++26",
    ];
    assert(c_std@.map_values(|s: &'static str| s@) =~= c_standards());
    assert(cxx_std@.map_values(|s: &'static str| s@) =~= cxx_standards());
    let r = vec![
        PropDef {
            name: "includes",
            ty: set(Type::Path),
            merge: Merge::Union,
            doc: "include search paths. ordered along the dependency graph",
            domain: None,
        },
        PropDef {
            name: "defines",
            ty: Type::MapOf(Box::new(Type::Val)),
            merge: Merge::ErrorOnConflict,
            doc: "preprocessor definitions. fails when conflicting values arrive",
            domain: None,
        },
        PropDef {
            name: "flags",
            ty: list(Type::Str),
            merge: Merge::Append,
            doc: "compile flags for every language. order preserving",
            domain: None,
        },
        PropDef {
            name: "c_flags",
            ty: list(Type::Str),
            merge: Merge::Append,
            doc: "compile flags for C sources only, after `flags`. order preserving",
            domain: None,
        },
        PropDef {
            name: "cxx_flags",
            ty: list(Type::Str),
            merge: Merge::Append,
            doc: "compile flags for C++ sources only, after `flags`. order preserving",
            domain: None,
        },
        PropDef {
            name: "link_flags",
            ty: list(Type::Word),
            merge: Merge::Append,
            doc: "link flags, order preserving. a `Path` element expands to its absolute path",
            domain: None,
        },
        PropDef {
            name: "c_std",
            ty: Type::Str,
            merge: Merge::Max,
            doc: "C language standard, such as `c17`. becomes `-std=` for C sources",
            domain: Some(c_std),
        },
        PropDef {
            name: "cxx_std",
            ty: Type::Str,
            merge: Merge::Max,
            doc: "C++ language standard, such as `c++20`. becomes `-std=` for C++ sources",
            domain: Some(cxx_std),
        },
        PropDef {
            name: "deps",
            ty: list(Type::Unknown),
            merge: Merge::Append,
            doc: "dependencies. dep(...) is a package dependency, target(...) is same-package",
            domain: None,
        },
        PropDef {
            name: "abi",
            ty: Type::AbiLabel,
            merge: Merge::MustEqual,
            doc: "ABI label. mismatches fail before linking; `c` names the C ABI boundary and matches any label",
            domain: None,
        },
    ];
    assert(rows_of(r@) =~= block_rows());
    r
}

/// The declarations that a block may hold.
pub open spec fn rows_for(block: Block) -> Seq<PropRow> {
    if block == Block::Root {
        root_rows()
    } else {
        block_rows()
    }
}

/// The declaration of `name` in `block`: the first row with that name.
pub fn lookup(block: Block, name: &str) -> (r: Option<PropDef>)
    ensures
        match r {
            Some(p) => exists|i: int|
                0 <= i < rows_for(block).len() && rows_for(block)[i] == row_of(p) && row_of(p).0
                    == name@ && forall|j: int| 0 <= j < i ==> (#[trigger] rows_for(block)[j]).0 != name@,
            None => forall|i: int| 0 <= i < rows_for(block).len() ==> (#[trigger] rows_for(block)[i]).0 != name@,
        },
{
    let mut props = if block == Block::Root {
        root_props()
    } else {
        block_props()
    };
    let ghost rows = rows_of(props@);
    assert(rows == rows_for(block));
    let mut i: usize = 0;
    while i < props.len()
        invariant
            rows == rows_of(props@),
            rows == rows_for(block),
            rows.len() == props@.len(),
            i <= props.len(),
            forall|j: int| 0 <= j < i ==> (#[trigger] rows[j]).0 != name@,
        decreases props.len() - i,
    {
        assert(rows[i as int] == row_of(props@[i as int]));
        if str_eq(props[i].name, name) {
            let ghost before = props@;
            let p = props.remove(i);
            assert(p == before[i as int]);
            assert(rows_for(block)[i as int] == row_of(p));
            return Some(p);
        }
        i = i + 1;
    }
    None
}

/// The names of the properties that a block may hold, in declaration order.
pub fn prop_names(block: Block) -> (r: Vec<&'static str>)
    ensures
        r@.map_values(|s: &'static str| s@) == rows_for(block).map_values(|row: PropRow| row.0),
{
    let props = if block == Block::Root {
        root_props()
    } else {
        block_props()
    };
    let ghost rows = rows_of(props@);
    let mut r: Vec<&'static str> = Vec::new();
    let mut i: usize = 0;
    while i < props.len()
        invariant
            rows == rows_of(props@),
            rows == rows_for(block),
            i <= props.len(),
            r@.len() == i,
            forall|k: int| 0 <= k < i ==> (#[trigger] r@[k])@ == rows[k].0,
        decreases props.len() - i,
    {
        proof {
            assert(rows[i as int] == row_of(props@[i as int]));
        }
        r.push(props[i].name);
        i = i + 1;
    }
    assert(r@.map_values(|s: &'static str| s@) =~= rows.map_values(|row: PropRow| row.0));
    r
}

} // verus!
