//! Reading a package from its evaluated `dowel.toml`: what each table
//! declares, and a diagnostic for each thing it gets wrong.

use vstd::prelude::*;
use crate::diag::{diag_m, diags_m, push_diag, DiagM, Diagnostic, Severity};
use crate::config::{tool_table, tools, Style};
use crate::document::tables_with_prefix;
use crate::model::{DepKind, PackageId};
use crate::strs::ByName;
use crate::package::{blank_decl, dep_kind_m, DepKindM, DepM, dep_m, Dependency, decl_m, features_m, filled, groups_view, is_blank_decl, package_m, toolchains_m, DeclM, Package, PackageM, ToolchainDecl, ToolchainSource};
use crate::strs::{find_name, lemma_find_name_absent, lemma_find_name_at, names_of};
use crate::document::{strings_view, Document, Entry, Table};
use crate::specialize::{first_index, lemma_first_index};
use crate::strs::{lemma_less_asymmetric, lemma_less_irreflexive, lemma_less_transitive, seq_less, strictly_sorted};
use crate::text::{owned, push_str, str_eq};
use crate::value::{debug_quote, debug_quoted, Data, FileId, Site, Span, Value};

verus! {

// --- looking things up in a document -----------------------------------------------

/// An entry whose key is the single segment `key`.
pub open spec fn key_is(key: Seq<char>) -> spec_fn(Entry) -> bool {
    |e: Entry| strings_view(e.key@) == seq![key]
}

/// The first entry of a table whose key is the single segment `key`.
pub open spec fn entry_at(t: Table, key: Seq<char>) -> Option<Entry> {
    match first_index(t.entries@, key_is(key)) {
        Some(i) => Some(t.entries@[i]),
        None => None,
    }
}

/// A table with exactly this path.
pub open spec fn path_is(path: Seq<Seq<char>>) -> spec_fn(Table) -> bool {
    |t: Table| strings_view(t.path@) == path
}

/// The first table of a document with exactly this path.
pub open spec fn table_at(d: Document, path: Seq<Seq<char>>) -> Option<Table> {
    match first_index(d.tables@, path_is(path)) {
        Some(i) => Some(d.tables@[i]),
        None => None,
    }
}

/// The string a value holds, if it is one.
pub open spec fn str_of(v: Value) -> Option<Seq<char>> {
    match v.data {
        Data::Str(s) => Some(s@),
        _ => None,
    }
}

/// The first item that satisfies `p` is at `j`.
pub proof fn lemma_first_at<A>(s: Seq<A>, p: spec_fn(A) -> bool, j: int)
    requires
        0 <= j < s.len(),
        p(s[j]),
        forall|m: int| 0 <= m < j ==> !p(#[trigger] s[m]),
    ensures
        first_index(s, p) == Some(j),
{
    lemma_first_index(s, p);
    if let Some(i) = first_index(s, p) {
        if i < j {
            assert(!p(s[i]));
        } else if i > j {
            assert(!p(s[j]));
        }
    }
}

/// No item satisfies `p`.
pub proof fn lemma_first_none<A>(s: Seq<A>, p: spec_fn(A) -> bool)
    requires
        forall|m: int| 0 <= m < s.len() ==> !p(#[trigger] s[m]),
    ensures
        first_index(s, p) is None,
{
    lemma_first_index(s, p);
    if let Some(i) = first_index(s, p) {
        assert(!p(s[i]));
    }
}

/// The entry of a table whose key is the single segment `key`.
pub fn entry_of<'a>(t: &'a Table, key: &str) -> (r: Option<&'a Entry>)
    ensures
        match r {
            Some(e) => entry_at(*t, key@) == Some(*e),
            None => entry_at(*t, key@) is None,
        },
{
    let r = t.entry(key);
    proof {
        match r {
            Some(e) => {
                let j = choose|j: int|
                    0 <= j < t.entries@.len() && t.entries@[j] == *e && strings_view(e.key@) == seq![key@]
                        && forall|m: int|
                        0 <= m < j ==> strings_view(#[trigger] t.entries@[m].key@) != seq![key@];
                assert forall|m: int| 0 <= m < j implies !key_is(key@)(#[trigger] t.entries@[m]) by {
                    assert(strings_view(t.entries@[m].key@) != seq![key@]);
                }
                lemma_first_at(t.entries@, key_is(key@), j);
            },
            None => {
                assert forall|m: int| 0 <= m < t.entries@.len() implies !key_is(key@)(#[trigger] t.entries@[m]) by {
                    assert(strings_view(t.entries@[m].key@) != seq![key@]);
                }
                lemma_first_none(t.entries@, key_is(key@));
            },
        }
    }
    r
}

/// The table of a document with exactly this path.
pub fn table_of<'a>(d: &'a Document, path: &[&str]) -> (r: Option<&'a Table>)
    ensures
        match r {
            Some(t) => table_at(*d, path@.map_values(|s: &str| s@)) == Some(*t),
            None => table_at(*d, path@.map_values(|s: &str| s@)) is None,
        },
{
    let ghost pv = path@.map_values(|s: &str| s@);
    let r = d.table(path);
    proof {
        assert(crate::document::strs_view(path@) == pv);
        match r {
            Some(t) => {
                let j = choose|j: int|
                    0 <= j < d.tables@.len() && d.tables@[j] == *t && strings_view(t.path@) == pv
                        && forall|m: int| 0 <= m < j ==> strings_view(#[trigger] d.tables@[m].path@) != pv;
                assert forall|m: int| 0 <= m < j implies !path_is(pv)(#[trigger] d.tables@[m]) by {
                    assert(strings_view(d.tables@[m].path@) != pv);
                }
                lemma_first_at(d.tables@, path_is(pv), j);
            },
            None => {
                assert forall|m: int| 0 <= m < d.tables@.len() implies !path_is(pv)(#[trigger] d.tables@[m]) by {
                    assert(strings_view(d.tables@[m].path@) != pv);
                }
                lemma_first_none(d.tables@, path_is(pv));
            },
        }
    }
    r
}

// --- diagnostics ---------------------------------------------------------------------

/// An error with one primary label and no notes yet.
pub open spec fn error_m(code: Seq<char>, message: Seq<char>, site: Site, label: Seq<char>) -> DiagM {
    DiagM { code, severity: Severity::Error, message, labels: seq![(site, label, true)], notes: Seq::empty() }
}

/// A diagnostic with one more note.
pub open spec fn noted(d: DiagM, note: Seq<char>) -> DiagM {
    DiagM { notes: d.notes.push(note), ..d }
}

/// A value of the wrong type.
pub open spec fn type_err_m(site: Site, field: Seq<char>, expected: Seq<char>) -> DiagM {
    error_m("type-mismatch"@, "`"@ + field + "` must be "@ + expected, site, "write "@ + expected)
}

/// An error pointing at one place.
pub fn error_at(code: &'static str, message: String, site: Site, label: String) -> (d: Diagnostic)
    ensures
        diag_m(d) == error_m(code@, message@, site, label@),
{
    let mut d = Diagnostic::error(code, message);
    d.label(site, label, true);
    assert(diag_m(d).labels =~= seq![(site, label@, true)]);
    d
}

/// `a` then `b` then `c`, as one string.
pub fn concat3(a: &str, b: &str, c: &str) -> (r: String)
    ensures
        r@ == a@ + b@ + c@,
{
    let mut r = owned(a);
    push_str(&mut r, b);
    push_str(&mut r, c);
    r
}

/// Reports a value of the wrong type.
pub fn type_err(diags: &mut Vec<Diagnostic>, site: Site, field: &str, expected: &str)
    ensures
        diags_m(final(diags)@) == diags_m(old(diags)@).push(type_err_m(site, field@, expected@)),
{
    let message = concat3("`", field, "` must be ");
    let mut message = message;
    push_str(&mut message, expected);
    let label = concat3("write ", expected, "");
    let d = error_at("type-mismatch", message, site, label);
    proof {
        reveal_strlit("type-mismatch");
        reveal_strlit("`");
        reveal_strlit("` must be ");
        reveal_strlit("write ");
        reveal_strlit("");
        assert(label@ =~= "write "@ + expected@);
    }
    push_diag(diags, d);
}

// --- lists of strings ----------------------------------------------------------------

/// The strings among `items`, in order.
pub open spec fn list_strings(items: Seq<Value>) -> Seq<Seq<char>>
    decreases items.len(),
{
    if items.len() == 0 {
        Seq::empty()
    } else {
        match str_of(items.last()) {
            Some(s) => list_strings(items.drop_last()).push(s),
            None => list_strings(items.drop_last()),
        }
    }
}

/// One type error for each item of `items` that is not a string.
pub open spec fn list_errs(items: Seq<Value>, site: Site, field: Seq<char>, expected: Seq<char>) -> Seq<DiagM>
    decreases items.len(),
{
    if items.len() == 0 {
        Seq::empty()
    } else {
        match str_of(items.last()) {
            Some(_) => list_errs(items.drop_last(), site, field, expected),
            None => list_errs(items.drop_last(), site, field, expected).push(type_err_m(site, field, expected)),
        }
    }
}

/// The strings among `items`, reporting each item that is not one.
pub fn strings_in(
    items: &[Value],
    site: Site,
    field: &str,
    expected: &str,
    diags: &mut Vec<Diagnostic>,
) -> (r: Vec<String>)
    ensures
        strings_view(r@) == list_strings(items@),
        diags_m(final(diags)@) == diags_m(old(diags)@) + list_errs(items@, site, field@, expected@),
{
    let mut r: Vec<String> = Vec::new();
    let mut i: usize = 0;
    while i < items.len()
        invariant
            i <= items@.len(),
            strings_view(r@) == list_strings(items@.take(i as int)),
            diags_m(diags@) == diags_m(old(diags)@) + list_errs(items@.take(i as int), site, field@, expected@),
        decreases items.len() - i,
    {
        assert(items@.take(i + 1).drop_last() =~= items@.take(i as int));
        match items[i].as_str() {
            Some(s) => {
                let ghost prev = r@;
                r.push(owned(s));
                assert(strings_view(r@) =~= strings_view(prev).push(s@));
            },
            None => {
                type_err(diags, site, field, expected);
            },
        }
        i += 1;
    }
    assert(items@.take(i as int) =~= items@);
    r
}

// --- `[package]` ---------------------------------------------------------------------

/// A string field of a table: its value; `dflt` and a type error when it
/// is not a string; `dflt` when it is absent.
pub open spec fn string_field(t: Table, key: Seq<char>, dflt: Seq<char>, field: Seq<char>) -> (Seq<char>, Seq<DiagM>) {
    match entry_at(t, key) {
        Some(e) => match str_of(e.value) {
            Some(s) => (s, Seq::empty()),
            None => (dflt, seq![type_err_m(e.site, field, "a string"@)]),
        },
        None => (dflt, Seq::empty()),
    }
}

/// `[package] name`, which is required.
pub open spec fn name_field(t: Table, file: FileId, dflt: Seq<char>) -> (Seq<char>, Seq<DiagM>) {
    match entry_at(t, "name"@) {
        Some(_) => string_field(t, "name"@, dflt, "package.name"@),
        None => (
            dflt,
            seq![error_m("missing-field"@, "`[package]` has no `name`"@, Site { file, span: t.site.span }, "write `name = \"...\"`"@)],
        ),
    }
}

/// `[package] targets`: the strings of the list, and where it was written.
pub open spec fn targets_field(t: Table, p: PackageM) -> (Seq<Seq<char>>, Option<Site>, Seq<DiagM>) {
    match entry_at(t, "targets"@) {
        None => (p.targets, p.targets_site, Seq::empty()),
        Some(e) => match e.value.data {
            Data::List(items) => (
                p.targets + list_strings(items@),
                Some(e.site),
                list_errs(items@, e.site, "package.targets"@, "a list of strings"@),
            ),
            _ => (p.targets, Some(e.site), seq![type_err_m(e.site, "package.targets"@, "a list of strings"@)]),
        },
    }
}

/// `[package] toolchains`: the path of a shared toolchain file.
pub open spec fn toolchains_path_field(t: Table, p: PackageM) -> (Option<(Seq<char>, Site)>, Seq<DiagM>) {
    match entry_at(t, "toolchains"@) {
        Some(e) => match str_of(e.value) {
            Some(s) => (Some((s, e.site)), Seq::empty()),
            None => (p.toolchains_path, seq![type_err_m(e.site, "package.toolchains"@, "a string"@)]),
        },
        None => (p.toolchains_path, Seq::empty()),
    }
}

/// What the `[package]` table gives, and its diagnostics.
pub open spec fn package_section(p: PackageM, doc: Document, file: FileId) -> (PackageM, Seq<DiagM>) {
    match table_at(doc, seq!["package"@]) {
        None => (
            p,
            seq![error_m("missing-table"@, "missing `[package]`"@, Site { file, span: Span { start: 0, end: 0 } }, "`dowel.toml` requires a `[package]` table"@)],
        ),
        Some(t) => {
            let (name, dn) = name_field(t, file, p.name);
            let (version, dv) = string_field(t, "version"@, p.version, "package.version"@);
            let (targets, targets_site, dt) = targets_field(t, p);
            let (description, dd) = string_field(t, "description"@, p.description, "package.description"@);
            let (toolchains_path, dp) = toolchains_path_field(t, p);
            (
                PackageM { name, version, targets, targets_site, description, toolchains_path, ..p },
                dn + dv + dt + dd + dp,
            )
        },
    }
}

/// Reads a string field into `out`.
fn read_string(t: &Table, key: &str, field: &str, out: &mut String, diags: &mut Vec<Diagnostic>)
    ensures
        final(out)@ == string_field(*t, key@, old(out)@, field@).0,
        diags_m(final(diags)@) == diags_m(old(diags)@) + string_field(*t, key@, old(out)@, field@).1,
{
    match entry_of(t, key) {
        Some(e) => match e.value.as_str() {
            Some(s) => {
                *out = owned(s);
                assert(diags_m(diags@) =~= diags_m(old(diags)@) + Seq::<DiagM>::empty());
            },
            None => {
                type_err(diags, e.site, field, "a string");
                proof {
                    reveal_strlit("a string");
                }
                assert(diags_m(diags@) =~= diags_m(old(diags)@) + seq![type_err_m(e.site, field@, "a string"@)]);
            },
        },
        None => {
            assert(diags_m(diags@) =~= diags_m(old(diags)@) + Seq::<DiagM>::empty());
        },
    }
}

/// Reads `[package] name`.
fn read_name(t: &Table, manifest_file: FileId, name: &mut String, diags: &mut Vec<Diagnostic>)
    ensures
        final(name)@ == name_field(*t, manifest_file, old(name)@).0,
        diags_m(final(diags)@) == diags_m(old(diags)@) + name_field(*t, manifest_file, old(name)@).1,
{
    match entry_of(t, "name") {
        Some(_) => {
            read_string(t, "name", "package.name", name, diags);
        },
        None => {
            let d = error_at(
                "missing-field",
                owned("`[package]` has no `name`"),
                Site::new(manifest_file, t.site.span),
                owned("write `name = \"...\"`"),
            );
            push_diag(diags, d);
            assert(diags_m(diags@) =~= diags_m(old(diags)@) + name_field(*t, manifest_file, old(name)@).1);
        },
    }
}

/// Reads `[package] targets`.
fn read_targets(
    t: &Table,
    targets: &mut Vec<String>,
    targets_site: &mut Option<Site>,
    diags: &mut Vec<Diagnostic>,
)
    ensures
        ({
            let p = PackageM { targets: strings_view(old(targets)@), targets_site: *old(targets_site), ..arbitrary() };
            &&& strings_view(final(targets)@) == targets_field(*t, p).0
            &&& *final(targets_site) == targets_field(*t, p).1
            &&& diags_m(final(diags)@) == diags_m(old(diags)@) + targets_field(*t, p).2
        }),
{
    proof {
        reveal_strlit("a list of strings");
        reveal_strlit("package.targets");
    }
    match entry_of(t, "targets") {
        Some(e) => {
            *targets_site = Some(e.site);
            match &e.value.data {
                Data::List(items) => {
                    let mut more = strings_in(items.as_slice(), e.site, "package.targets", "a list of strings", diags);
                    let ghost before = targets@;
                    targets.append(&mut more);
                    assert(strings_view(targets@) =~= strings_view(before) + list_strings(items@));
                },
                _ => {
                    type_err(diags, e.site, "package.targets", "a list of strings");
                    assert(diags_m(diags@) =~= diags_m(old(diags)@) + seq![
                        type_err_m(e.site, "package.targets"@, "a list of strings"@),
                    ]);
                },
            }
        },
        None => {
            assert(diags_m(diags@) =~= diags_m(old(diags)@) + Seq::<DiagM>::empty());
        },
    }
}

/// Reads `[package] toolchains`.
fn read_toolchains_path(t: &Table, out: &mut Option<(String, Site)>, diags: &mut Vec<Diagnostic>)
    ensures
        ({
            let p = PackageM {
                toolchains_path: match *old(out) {
                    Some((s, site)) => Some((s@, site)),
                    None => None,
                },
                ..arbitrary()
            };
            &&& (match *final(out) {
                Some((s, site)) => Some((s@, site)),
                None => None,
            }) == toolchains_path_field(*t, p).0
            &&& diags_m(final(diags)@) == diags_m(old(diags)@) + toolchains_path_field(*t, p).1
        }),
{
    proof {
        reveal_strlit("a string");
        reveal_strlit("package.toolchains");
    }
    match entry_of(t, "toolchains") {
        Some(e) => match e.value.as_str() {
            Some(s) => {
                *out = Some((owned(s), e.site));
                assert(diags_m(diags@) =~= diags_m(old(diags)@) + Seq::<DiagM>::empty());
            },
            None => {
                type_err(diags, e.site, "package.toolchains", "a string");
                assert(diags_m(diags@) =~= diags_m(old(diags)@) + seq![
                    type_err_m(e.site, "package.toolchains"@, "a string"@),
                ]);
            },
        },
        None => {
            assert(diags_m(diags@) =~= diags_m(old(diags)@) + Seq::<DiagM>::empty());
        },
    }
}

/// Reads the `[package]` table.
#[verifier::rlimit(40)]
fn read_package(pkg: &mut Package, doc: &Document, manifest_file: FileId, diags: &mut Vec<Diagnostic>)
    ensures
        package_m(*final(pkg)) == package_section(package_m(*old(pkg)), *doc, manifest_file).0,
        diags_m(final(diags)@) == diags_m(old(diags)@) + package_section(package_m(*old(pkg)), *doc, manifest_file).1,
        final(pkg).features == old(pkg).features,
        final(pkg).toolchains == old(pkg).toolchains,
        final(pkg).toolchain == old(pkg).toolchain,
{
    let ghost p0 = package_m(*pkg);
    let ghost d0 = diags_m(diags@);
    let path = ["package"];
    let found = table_of(doc, &path);
    proof {
        assert(path@.map_values(|s: &str| s@) =~= seq!["package"@]);
    }
    match found {
        None => {
            let d = error_at(
                "missing-table",
                owned("missing `[package]`"),
                Site::new(manifest_file, Span::empty()),
                owned("`dowel.toml` requires a `[package]` table"),
            );
            push_diag(diags, d);
            assert(diags_m(diags@) =~= d0 + package_section(p0, *doc, manifest_file).1);
        },
        Some(t) => {
            read_name(t, manifest_file, &mut pkg.name, diags);
            let ghost d1 = diags_m(diags@);
            read_string(t, "version", "package.version", &mut pkg.version, diags);
            let ghost d2 = diags_m(diags@);
            read_targets(t, &mut pkg.targets, &mut pkg.targets_site, diags);
            let ghost d3 = diags_m(diags@);
            read_string(t, "description", "package.description", &mut pkg.description, diags);
            let ghost d4 = diags_m(diags@);
            read_toolchains_path(t, &mut pkg.toolchains_path, diags);
            proof {
                let (name, dn) = name_field(*t, manifest_file, p0.name);
                let (version, dv) = string_field(*t, "version"@, p0.version, "package.version"@);
                let (targets, targets_site, dt) = targets_field(*t, p0);
                let (description, dd) = string_field(*t, "description"@, p0.description, "package.description"@);
                let (toolchains_path, dp) = toolchains_path_field(*t, p0);
                assert(d1 == d0 + dn);
                assert(d2 == d1 + dv);
                assert(d3 == d2 + dt);
                assert(d4 == d3 + dd);
                assert(diags_m(diags@) == d4 + dp);
                assert(diags_m(diags@) =~= d0 + (dn + dv + dt + dd + dp));
            }
        },
    }
}

// --- top-level tables ----------------------------------------------------------------

/// The tables `dowel.toml` reads.
pub const KNOWN_TABLES: [&'static str; 4] = ["package", "toolchain", "dependencies", "features"];

/// Tables reserved and not read yet: written, they are ignored, as documented.
pub const RESERVED_TABLES: [&'static str; 1] = ["policy"];

/// Tables of `dowel.build`: written in the wrong file, the diagnostic says
/// where they go.
pub const BUILD_TABLES: [&'static str; 6] = ["runner", "lib", "bin", "test", "bench", "template"];

pub open spec fn known_tables() -> Seq<Seq<char>> {
    seq!["package"@, "toolchain"@, "dependencies"@, "features"@]
}

pub open spec fn reserved_tables() -> Seq<Seq<char>> {
    seq!["policy"@]
}

pub open spec fn build_tables() -> Seq<Seq<char>> {
    seq!["runner"@, "lib"@, "bin"@, "test"@, "bench"@, "template"@]
}

/// The parts joined by `sep`.
pub open spec fn joined(parts: Seq<Seq<char>>, sep: Seq<char>) -> Seq<char>
    decreases parts.len(),
{
    if parts.len() == 0 {
        Seq::empty()
    } else if parts.len() == 1 {
        parts[0]
    } else {
        joined(parts.drop_last(), sep) + sep + parts.last()
    }
}

/// Joins strings with a separator.
pub fn join_strings(parts: &[String], sep: &str) -> (r: String)
    ensures
        r@ == joined(strings_view(parts@), sep@),
{
    let mut r = String::new();
    let mut i: usize = 0;
    while i < parts.len()
        invariant
            i <= parts@.len(),
            r@ == joined(strings_view(parts@).take(i as int), sep@),
        decreases parts.len() - i,
    {
        assert(strings_view(parts@).take(i + 1).drop_last() =~= strings_view(parts@).take(i as int));
        if i > 0 {
            push_str(&mut r, sep);
        }
        push_str(&mut r, parts[i].as_str());
        proof {
            if i == 0 {
                assert(r@ =~= strings_view(parts@).take(1)[0]);
            }
        }
        i += 1;
    }
    assert(strings_view(parts@).take(i as int) =~= strings_view(parts@));
    r
}

/// Whether a list of words holds `x`.
pub fn holds_word(words: &[&'static str], x: &str) -> (r: bool)
    ensures
        r == words@.map_values(|w: &'static str| w@).contains(x@),
{
    let ghost v = words@.map_values(|w: &'static str| w@);
    let mut i: usize = 0;
    while i < words.len()
        invariant
            i <= words@.len(),
            v == words@.map_values(|w: &'static str| w@),
            forall|j: int| 0 <= j < i ==> v[j] != x@,
        decreases words.len() - i,
    {
        if str_eq(words[i], x) {
            assert(v[i as int] == x@);
            return true;
        }
        i += 1;
    }
    false
}

/// The diagnostic of a top-level table `dowel.toml` does not read.
pub open spec fn table_diag(t: Table, file: FileId) -> Option<DiagM> {
    let path = strings_view(t.path@);
    if path.len() == 0 || known_tables().contains(path[0]) || reserved_tables().contains(path[0]) {
        None
    } else {
        let d = error_m(
            "unknown-table"@,
            "`["@ + joined(path, "."@) + "]` is not read from `dowel.toml`"@,
            Site { file, span: t.site.span },
            "this table has no meaning here"@,
        );
        Some(
            if build_tables().contains(path[0]) {
                noted(d, "`"@ + path[0] + "` tables are declared in `dowel.build`"@)
            } else {
                noted(d, "`dowel.toml` reads: package, toolchain, dependencies, features"@)
            },
        )
    }
}

/// The diagnostics of the top-level tables, in order.
pub open spec fn tables_diags(ts: Seq<Table>, file: FileId) -> Seq<DiagM>
    decreases ts.len(),
{
    if ts.len() == 0 {
        Seq::empty()
    } else {
        match table_diag(ts.last(), file) {
            Some(d) => tables_diags(ts.drop_last(), file).push(d),
            None => tables_diags(ts.drop_last(), file),
        }
    }
}

/// Reports each top-level table that `dowel.toml` does not read: a table
/// read nowhere would drop what it declares without a word.
fn check_tables(doc: &Document, manifest_file: FileId, diags: &mut Vec<Diagnostic>)
    ensures
        diags_m(final(diags)@) == diags_m(old(diags)@) + tables_diags(doc.tables@, manifest_file),
{
    let known = KNOWN_TABLES;
    let reserved = RESERVED_TABLES;
    let build = BUILD_TABLES;
    proof {
        assert(known@.map_values(|w: &'static str| w@) =~= known_tables());
        assert(reserved@.map_values(|w: &'static str| w@) =~= reserved_tables());
        assert(build@.map_values(|w: &'static str| w@) =~= build_tables());
    }
    let mut i: usize = 0;
    while i < doc.tables.len()
        invariant
            i <= doc.tables@.len(),
            known@.map_values(|w: &'static str| w@) == known_tables(),
            reserved@.map_values(|w: &'static str| w@) == reserved_tables(),
            build@.map_values(|w: &'static str| w@) == build_tables(),
            diags_m(diags@) == diags_m(old(diags)@) + tables_diags(doc.tables@.take(i as int), manifest_file),
        decreases doc.tables.len() - i,
    {
        assert(doc.tables@.take(i + 1).drop_last() =~= doc.tables@.take(i as int));
        let t = &doc.tables[i];
        if t.path.len() > 0 {
            let head = t.path[0].as_str();
            assert(strings_view(t.path@)[0] == head@);
            if !holds_word(&known, head) && !holds_word(&reserved, head) {
                let mut message = owned("`[");
                let joined_path = join_strings(t.path.as_slice(), ".");
                push_str(&mut message, joined_path.as_str());
                push_str(&mut message, "]` is not read from `dowel.toml`");
                let mut d = error_at(
                    "unknown-table",
                    message,
                    Site::new(manifest_file, t.site.span),
                    owned("this table has no meaning here"),
                );
                if holds_word(&build, head) {
                    d.note(concat3("`", head, "` tables are declared in `dowel.build`"));
                } else {
                    d.note(owned("`dowel.toml` reads: package, toolchain, dependencies, features"));
                }
                push_diag(diags, d);
                proof {
                    reveal_strlit("`[");
                    reveal_strlit("]` is not read from `dowel.toml`");
                    reveal_strlit("`");
                    reveal_strlit("` tables are declared in `dowel.build`");
                    assert(diag_m(d) == table_diag(*t, manifest_file)->0);
                }
            }
        }
        i += 1;
    }
    assert(doc.tables@.take(i as int) =~= doc.tables@);
}

// --- `[toolchain]` and `[toolchain.<triple>]` -------------------------------------------

/// The names of the tools a toolchain declares.
pub open spec fn tool_names() -> Seq<Seq<char>> {
    tool_table().map_values(|r: (Seq<char>, Seq<char>, Seq<char>)| r.0)
}

/// The tools a toolchain table declares among `names`, and a type error
/// for each that is not a string.
pub open spec fn tools_from(t: Table, label: Seq<char>, names: Seq<Seq<char>>) -> (Map<Seq<char>, (Seq<char>, Site)>, Seq<DiagM>)
    decreases names.len(),
{
    if names.len() == 0 {
        (Map::empty(), Seq::empty())
    } else {
        let (m, ds) = tools_from(t, label, names.drop_last());
        let n = names.last();
        match entry_at(t, n) {
            Some(e) => match str_of(e.value) {
                Some(s) => (m.insert(n, (s, e.site)), ds),
                None => (m, ds.push(type_err_m(e.site, label + "."@ + n, "a string"@))),
            },
            None => (m, ds),
        }
    }
}

/// A string entry of a table, with where it was written.
pub open spec fn str_entry(t: Table, key: Seq<char>) -> Option<(Seq<char>, Site)> {
    match entry_at(t, key) {
        Some(e) => match str_of(e.value) {
            Some(s) => Some((s, e.site)),
            None => None,
        },
        None => None,
    }
}

pub open spec fn is_hex(c: char) -> bool {
    ('0' <= c && c <= '9') || ('a' <= c && c <= 'f') || ('A' <= c && c <= 'F')
}

/// Exactly `n` hexadecimal digits.
pub open spec fn hex_digits(s: Seq<char>, n: int) -> bool {
    s.len() == n && forall|i: int| 0 <= i < s.len() ==> is_hex(#[trigger] s[i])
}

/// Where a toolchain to fetch comes from: `url` needs `sha256`.
pub open spec fn source_part(t: Table, label: Seq<char>) -> (Option<(Seq<char>, Seq<char>, Site)>, Seq<DiagM>) {
    match (str_entry(t, "url"@), str_entry(t, "sha256"@)) {
        (Some((url, site)), Some((sha, sha_site))) => if hex_digits(sha, 64) {
            (Some((url, sha, site)), Seq::empty())
        } else {
            (
                None,
                seq![noted(
                    error_m(
                        "unpinned-toolchain"@,
                        "`sha256` of `"@ + label + "` is not 64 hexadecimal digits"@,
                        sha_site,
                        "this is not a sha256"@,
                    ),
                    "the digest is of the archive itself, not of the unpacked tree"@,
                )],
            )
        },
        (Some((_, site)), None) => (
            None,
            seq![noted(
                noted(
                    error_m("unpinned-toolchain"@, "`"@ + label + "` names a `url` but no `sha256`"@, site, "declared here"@),
                    "a URL is a name, and the bytes behind a name can change"@,
                ),
                "add `sha256 = \"...\"`, the digest of the archive"@,
            )],
        ),
        (None, _) => (None, Seq::empty()),
    }
}

/// The sysroot a toolchain table declares.
pub open spec fn sysroot_part(t: Table, label: Seq<char>) -> (Option<Seq<char>>, Seq<DiagM>) {
    match entry_at(t, "sysroot"@) {
        Some(e) => match str_of(e.value) {
            Some(s) => (Some(s), Seq::empty()),
            None => (None, seq![type_err_m(e.site, label + ".sysroot"@, "a string"@)]),
        },
        None => (None, Seq::empty()),
    }
}

pub open spec fn parse_style(s: Seq<char>) -> Option<Style> {
    if s == "gnu"@ {
        Some(Style::Gnu)
    } else if s == "msvc"@ {
        Some(Style::Msvc)
    } else {
        None
    }
}

/// A `style` that names no argument style.
pub open spec fn style_diag(site: Site) -> DiagM {
    noted(
        noted(
            noted(
                error_m("invalid-value"@, "`style` has to name an argument style"@, site, "this is not a style"@),
                "the styles are: gnu, msvc"@,
            ),
            "the style spells the arguments dowel assembles: `-I` vs `/I`, `-o` vs `/Fo:`"@,
        ),
        "the flags you write yourself pass through untouched"@,
    )
}

/// The argument style a toolchain table declares.
pub open spec fn style_part(t: Table) -> (Option<Style>, Seq<DiagM>) {
    match entry_at(t, "style"@) {
        Some(e) => match str_of(e.value) {
            Some(s) => match parse_style(s) {
                Some(st) => (Some(st), Seq::empty()),
                None => (None, seq![style_diag(e.site)]),
            },
            None => (None, seq![style_diag(e.site)]),
        },
        None => (None, Seq::empty()),
    }
}

/// The keys a toolchain table accepts.
pub open spec fn known_keys() -> Seq<Seq<char>> {
    tool_names() + seq!["style"@, "url"@, "sha256"@, "sysroot"@]
}

/// A key a toolchain table does not accept: a misspelt tool would fall
/// back to the host's default without a word.
pub open spec fn unknown_key_diag(e: Entry, label: Seq<char>) -> DiagM {
    noted(
        error_m(
            "unknown-property"@,
            "unknown property `"@ + joined(strings_view(e.key@), "."@) + "`"@,
            e.site,
            "this key is not part of the toolchain"@,
        ),
        "`["@ + label + "]` accepts: c, cxx, ar, link, objcopy, size, nm, objdump, readelf, debug, style, url, sha256, sysroot"@,
    )
}

pub open spec fn unknown_keys(es: Seq<Entry>, label: Seq<char>) -> Seq<DiagM>
    decreases es.len(),
{
    if es.len() == 0 {
        Seq::empty()
    } else if known_keys().contains(joined(strings_view(es.last().key@), "."@)) {
        unknown_keys(es.drop_last(), label)
    } else {
        unknown_keys(es.drop_last(), label).push(unknown_key_diag(es.last(), label))
    }
}

/// What one toolchain table declares, and its diagnostics.
pub open spec fn decl_of(t: Table, label: Seq<char>) -> (DeclM, Seq<DiagM>) {
    let (tools, dt) = tools_from(t, label, tool_names());
    let (source, ds) = source_part(t, label);
    let (sysroot, dr) = sysroot_part(t, label);
    let (style, dy) = style_part(t);
    (
        DeclM { site: Some(t.site), tools, style, source, sysroot },
        dt + ds + dr + dy + unknown_keys(t.entries@, label),
    )
}

/// How a toolchain table names itself in diagnostics.
pub open spec fn tc_label(path: Seq<Seq<char>>) -> Seq<char> {
    if path.len() == 1 {
        "toolchain"@
    } else {
        "toolchain."@ + path[1]
    }
}

/// A target toolchain without a C compiler: C would fall back to the host's.
pub open spec fn missing_c_diag(triple: Seq<char>, file: FileId, t: Table) -> DiagM {
    noted(
        error_m(
            "missing-field"@,
            "toolchain `"@ + triple + "` has no `c`"@,
            Site { file, span: t.site.span },
            "a target toolchain must name its C compiler"@,
        ),
        "for example `c = \"aarch64-linux-gnu-gcc\"`"@,
    )
}

/// One toolchain table taken into the declarations read so far.
pub open spec fn tc_step(st: (DeclM, Map<Seq<char>, DeclM>), t: Table, file: FileId) -> ((DeclM, Map<Seq<char>, DeclM>), Seq<DiagM>) {
    let path = strings_view(t.path@);
    if path.len() != 1 && path.len() != 2 {
        (
            st,
            seq![error_m(
                "unknown-table"@,
                "`["@ + joined(path, "."@) + "]` is not a toolchain declaration"@,
                Site { file, span: t.site.span },
                "write `[toolchain]` or `[toolchain.<triple>]`"@,
            )],
        )
    } else {
        let (decl, dd) = decl_of(t, tc_label(path));
        if path.len() == 2 {
            let triple = path[1];
            let dc = if decl.tools.contains_key("c"@) {
                Seq::empty()
            } else {
                seq![missing_c_diag(triple, file, t)]
            };
            let merged = if st.1.contains_key(triple) {
                filled(st.1[triple], decl)
            } else {
                decl
            };
            ((st.0, st.1.insert(triple, merged)), dd + dc)
        } else {
            (
                (
                    if is_blank_decl(st.0) {
                        decl
                    } else {
                        filled(st.0, decl)
                    },
                    st.1,
                ),
                dd,
            )
        }
    }
}

/// The toolchain tables taken in order.
pub open spec fn tc_fold(st: (DeclM, Map<Seq<char>, DeclM>), ts: Seq<Table>, file: FileId) -> ((DeclM, Map<Seq<char>, DeclM>), Seq<DiagM>)
    decreases ts.len(),
{
    if ts.len() == 0 {
        (st, Seq::empty())
    } else {
        let (mid, d1) = tc_fold(st, ts.drop_last(), file);
        let (last, d2) = tc_step(mid, ts.last(), file);
        (last, d1 + d2)
    }
}

/// What the toolchain tables of a document give a package.
pub open spec fn toolchains_section(p: PackageM, doc: Document, file: FileId) -> (PackageM, Seq<DiagM>) {
    let (st, ds) = tc_fold((p.toolchain, p.toolchains), tables_with_prefix(doc.tables@, seq!["toolchain"@]), file);
    (PackageM { toolchain: st.0, toolchains: st.1, ..p }, ds)
}

/// A string entry of a table, with where it was written.
fn str_entry_of(t: &Table, key: &str) -> (r: Option<(String, Site)>)
    ensures
        match r {
            Some((s, site)) => str_entry(*t, key@) == Some((s@, site)),
            None => str_entry(*t, key@) is None,
        },
{
    match entry_of(t, key) {
        Some(e) => match e.value.as_str() {
            Some(s) => Some((owned(s), e.site)),
            None => None,
        },
        None => None,
    }
}

/// Whether `s` is exactly `n` hexadecimal digits.
pub fn is_hex_digits(s: &str, n: usize) -> (r: bool)
    ensures
        r == hex_digits(s@, n as int),
{
    let cs = crate::text::chars_of(s);
    if cs.len() != n {
        return false;
    }
    let mut i: usize = 0;
    while i < cs.len()
        invariant
            cs@ == s@,
            i <= cs@.len(),
            forall|j: int| 0 <= j < i ==> is_hex(#[trigger] cs@[j]),
        decreases cs.len() - i,
    {
        let c = cs[i];
        if !(('0' <= c && c <= '9') || ('a' <= c && c <= 'f') || ('A' <= c && c <= 'F')) {
            assert(!is_hex(s@[i as int]));
            return false;
        }
        i += 1;
    }
    true
}

/// Reads the tools of a toolchain table into a declaration with none yet.
fn read_tools(t: &Table, label: &str, decl: &mut ToolchainDecl, diags: &mut Vec<Diagnostic>)
    requires
        old(decl).wf(),
        old(decl).tools_m() == Map::<Seq<char>, (Seq<char>, Site)>::empty(),
    ensures
        final(decl).wf(),
        decl_m(*final(decl)) == (DeclM { tools: tools_from(*t, label@, tool_names()).0, ..decl_m(*old(decl)) }),
        diags_m(final(diags)@) == diags_m(old(diags)@) + tools_from(*t, label@, tool_names()).1,
{
    let names = tools();
    let ghost nv = names@.map_values(|r: (&'static str, &'static str, &'static str)| r.0@);
    proof {
        assert(nv =~= tool_names());
        reveal_strlit("a string");
        reveal_strlit(".");
    }
    let mut i: usize = 0;
    while i < names.len()
        invariant
            i <= names@.len(),
            nv == names@.map_values(|r: (&'static str, &'static str, &'static str)| r.0@),
            nv == tool_names(),
            decl.wf(),
            decl_m(*decl) == (DeclM { tools: tools_from(*t, label@, nv.take(i as int)).0, ..decl_m(*old(decl)) }),
            diags_m(diags@) == diags_m(old(diags)@) + tools_from(*t, label@, nv.take(i as int)).1,
        decreases names.len() - i,
    {
        assert(nv.take(i + 1).drop_last() =~= nv.take(i as int));
        let name = names[i].0;
        assert(nv.take(i + 1).last() == name@);
        match entry_of(t, name) {
            Some(e) => match e.value.as_str() {
                Some(s) => {
                    decl.set_tool(name, owned(s), e.site);
                },
                None => {
                    let field = concat3(label, ".", name);
                    type_err(diags, e.site, field.as_str(), "a string");
                },
            },
            None => {},
        }
        i += 1;
    }
    assert(nv.take(i as int) =~= nv);
}

/// Reads where a toolchain to fetch comes from.
fn read_source(t: &Table, label: &str, diags: &mut Vec<Diagnostic>) -> (r: Option<ToolchainSource>)
    ensures
        (match r {
            Some(src) => Some(crate::package::source_m(src)),
            None => None,
        }) == source_part(*t, label@).0,
        diags_m(final(diags)@) == diags_m(old(diags)@) + source_part(*t, label@).1,
{
    let url = str_entry_of(t, "url");
    let sha = str_entry_of(t, "sha256");
    match (url, sha) {
        (Some((url, site)), Some((sha256, sha_site))) => {
            if is_hex_digits(sha256.as_str(), 64) {
                assert(diags_m(diags@) =~= diags_m(old(diags)@) + Seq::<DiagM>::empty());
                Some(ToolchainSource { url, sha256, site })
            } else {
                let mut d = error_at(
                    "unpinned-toolchain",
                    concat3("`sha256` of `", label, "` is not 64 hexadecimal digits"),
                    sha_site,
                    owned("this is not a sha256"),
                );
                d.note(owned("the digest is of the archive itself, not of the unpacked tree"));
                push_diag(diags, d);
                proof {
                    reveal_strlit("`sha256` of `");
                    reveal_strlit("` is not 64 hexadecimal digits");
                    assert(diag_m(d) == source_part(*t, label@).1[0]);
                }
                assert(diags_m(diags@) =~= diags_m(old(diags)@) + source_part(*t, label@).1);
                None
            }
        },
        (Some((_, site)), None) => {
            let mut d = error_at(
                "unpinned-toolchain",
                concat3("`", label, "` names a `url` but no `sha256`"),
                site,
                owned("declared here"),
            );
            d.note(owned("a URL is a name, and the bytes behind a name can change"));
            d.note(owned("add `sha256 = \"...\"`, the digest of the archive"));
            push_diag(diags, d);
            proof {
                reveal_strlit("`");
                reveal_strlit("` names a `url` but no `sha256`");
                assert(diag_m(d) == source_part(*t, label@).1[0]);
            }
            assert(diags_m(diags@) =~= diags_m(old(diags)@) + source_part(*t, label@).1);
            None
        },
        (None, _) => {
            assert(diags_m(diags@) =~= diags_m(old(diags)@) + Seq::<DiagM>::empty());
            None
        },
    }
}

/// Reads the sysroot of a toolchain table.
fn read_sysroot(t: &Table, label: &str, diags: &mut Vec<Diagnostic>) -> (r: Option<String>)
    ensures
        (match r {
            Some(s) => Some(s@),
            None => None,
        }) == sysroot_part(*t, label@).0,
        diags_m(final(diags)@) == diags_m(old(diags)@) + sysroot_part(*t, label@).1,
{
    proof {
        reveal_strlit("a string");
        reveal_strlit(".sysroot");
    }
    match entry_of(t, "sysroot") {
        Some(e) => match e.value.as_str() {
            Some(s) => {
                assert(diags_m(diags@) =~= diags_m(old(diags)@) + Seq::<DiagM>::empty());
                Some(owned(s))
            },
            None => {
                let field = concat3(label, ".sysroot", "");
                type_err(diags, e.site, field.as_str(), "a string");
                proof {
                    reveal_strlit("");
                    assert(field@ =~= label@ + ".sysroot"@);
                }
                assert(diags_m(diags@) =~= diags_m(old(diags)@) + sysroot_part(*t, label@).1);
                None
            },
        },
        None => {
            assert(diags_m(diags@) =~= diags_m(old(diags)@) + Seq::<DiagM>::empty());
            None
        },
    }
}

/// The diagnostic of a `style` that names no style.
fn style_diagnostic(site: Site) -> (d: Diagnostic)
    ensures
        diag_m(d) == style_diag(site),
{
    let mut d = error_at(
        "invalid-value",
        owned("`style` has to name an argument style"),
        site,
        owned("this is not a style"),
    );
    d.note(owned("the styles are: gnu, msvc"));
    d.note(owned("the style spells the arguments dowel assembles: `-I` vs `/I`, `-o` vs `/Fo:`"));
    d.note(owned("the flags you write yourself pass through untouched"));
    d
}

/// Reads the argument style of a toolchain table.
fn read_style(t: &Table, diags: &mut Vec<Diagnostic>) -> (r: Option<Style>)
    ensures
        r == style_part(*t).0,
        diags_m(final(diags)@) == diags_m(old(diags)@) + style_part(*t).1,
{
    match entry_of(t, "style") {
        Some(e) => {
            let parsed = match e.value.as_str() {
                Some(s) => Style::parse(s),
                None => None,
            };
            match parsed {
                Some(style) => {
                    assert(diags_m(diags@) =~= diags_m(old(diags)@) + Seq::<DiagM>::empty());
                    Some(style)
                },
                None => {
                    let d = style_diagnostic(e.site);
                    push_diag(diags, d);
                    assert(diags_m(diags@) =~= diags_m(old(diags)@) + style_part(*t).1);
                    None
                },
            }
        },
        None => {
            assert(diags_m(diags@) =~= diags_m(old(diags)@) + Seq::<DiagM>::empty());
            None
        },
    }
}

/// The keys a toolchain table accepts.
fn known_key_list() -> (r: Vec<&'static str>)
    ensures
        r@.map_values(|w: &'static str| w@) == known_keys(),
{
    let names = tools();
    let mut r: Vec<&'static str> = Vec::new();
    let mut i: usize = 0;
    while i < names.len()
        invariant
            i <= names@.len(),
            names@.len() == tool_table().len(),
            forall|j: int| 0 <= j < names@.len() ==> (#[trigger] names@[j].0@, names@[j].1@, names@[j].2@) == tool_table()[j],
            r@.map_values(|w: &'static str| w@) == tool_names().take(i as int),
        decreases names.len() - i,
    {
        let ghost prev = r@;
        r.push(names[i].0);
        assert(names@[i as int].0@ == tool_table()[i as int].0);
        assert(r@ == prev.push(names@[i as int].0));
        assert(tool_names()[i as int] == tool_table()[i as int].0);
        assert(tool_names().take(i + 1) =~= tool_names().take(i as int).push(tool_names()[i as int]));
        assert(r@.map_values(|w: &'static str| w@) =~= prev.map_values(|w: &'static str| w@).push(names@[i as int].0@));
        i += 1;
    }
    assert(tool_names().take(i as int) =~= tool_names());
    r.push("style");
    r.push("url");
    r.push("sha256");
    r.push("sysroot");
    assert(r@.map_values(|w: &'static str| w@) =~= known_keys());
    r
}

/// Reports each key of a toolchain table that it does not accept.
fn check_keys(t: &Table, label: &str, diags: &mut Vec<Diagnostic>)
    ensures
        diags_m(final(diags)@) == diags_m(old(diags)@) + unknown_keys(t.entries@, label@),
{
    let known = known_key_list();
    let mut i: usize = 0;
    while i < t.entries.len()
        invariant
            i <= t.entries@.len(),
            known@.map_values(|w: &'static str| w@) == known_keys(),
            diags_m(diags@) == diags_m(old(diags)@) + unknown_keys(t.entries@.take(i as int), label@),
        decreases t.entries.len() - i,
    {
        assert(t.entries@.take(i + 1).drop_last() =~= t.entries@.take(i as int));
        let e = &t.entries[i];
        let name = join_strings(e.key.as_slice(), ".");
        if !holds_word(known.as_slice(), name.as_str()) {
            let mut d = error_at(
                "unknown-property",
                concat3("unknown property `", name.as_str(), "`"),
                e.site,
                owned("this key is not part of the toolchain"),
            );
            d.note(concat3(
                "`[",
                label,
                "]` accepts: c, cxx, ar, link, objcopy, size, nm, objdump, readelf, debug, style, url, sha256, sysroot",
            ));
            push_diag(diags, d);
            proof {
                reveal_strlit("unknown property `");
                reveal_strlit("`");
                reveal_strlit("`[");
                assert(diag_m(d) == unknown_key_diag(*e, label@));
            }
        }
        i += 1;
    }
    assert(t.entries@.take(i as int) =~= t.entries@);
}

/// What one toolchain table declares.
fn toolchain_decl(t: &Table, label: &str, diags: &mut Vec<Diagnostic>) -> (r: ToolchainDecl)
    ensures
        r.wf(),
        decl_m(r) == decl_of(*t, label@).0,
        diags_m(final(diags)@) == diags_m(old(diags)@) + decl_of(*t, label@).1,
{
    let mut decl = ToolchainDecl::default();
    decl.site = Some(t.site);
    let ghost d0 = diags_m(diags@);
    read_tools(t, label, &mut decl, diags);
    let ghost d1 = diags_m(diags@);
    decl.source = read_source(t, label, diags);
    let ghost d2 = diags_m(diags@);
    decl.sysroot = read_sysroot(t, label, diags);
    let ghost d3 = diags_m(diags@);
    decl.style = read_style(t, diags);
    let ghost d4 = diags_m(diags@);
    check_keys(t, label, diags);
    proof {
        let (tools, dt) = tools_from(*t, label@, tool_names());
        let (source, ds) = source_part(*t, label@);
        let (sysroot, dr) = sysroot_part(*t, label@);
        let (style, dy) = style_part(*t);
        assert(d1 == d0 + dt);
        assert(d2 == d1 + ds);
        assert(d3 == d2 + dr);
        assert(d4 == d3 + dy);
        assert(diags_m(diags@) =~= d0 + (dt + ds + dr + dy + unknown_keys(t.entries@, label@)));
    }
    decl
}

/// Takes one toolchain table into the package: a triple's table in place
/// of nothing, or filling what is declared already tool by tool, the
/// unmarked one whole while nothing is declared.
#[verifier::rlimit(40)]
fn toolchain_step(pkg: &mut Package, t: &Table, manifest_file: FileId, diags: &mut Vec<Diagnostic>)
    requires
        old(pkg).wf(),
    ensures
        final(pkg).wf(),
        ({
            let p0 = package_m(*old(pkg));
            let (st, ds) = tc_step((p0.toolchain, p0.toolchains), *t, manifest_file);
            &&& package_m(*final(pkg)) == (PackageM { toolchain: st.0, toolchains: st.1, ..p0 })
            &&& diags_m(final(diags)@) == diags_m(old(diags)@) + ds
        }),
        final(pkg).features == old(pkg).features,
{
    let ghost p0 = package_m(*pkg);
    let n = t.path.len();
    if n != 1 && n != 2 {
        let mut message = owned("`[");
        let joined_path = join_strings(t.path.as_slice(), ".");
        push_str(&mut message, joined_path.as_str());
        push_str(&mut message, "]` is not a toolchain declaration");
        let d = error_at(
            "unknown-table",
            message,
            Site::new(manifest_file, t.site.span),
            owned("write `[toolchain]` or `[toolchain.<triple>]`"),
        );
        push_diag(diags, d);
        proof {
            reveal_strlit("`[");
            reveal_strlit("]` is not a toolchain declaration");
            let (st, ds) = tc_step((p0.toolchain, p0.toolchains), *t, manifest_file);
            assert(diag_m(d) == ds[0]);
            assert(diags_m(diags@) =~= diags_m(old(diags)@) + ds);
        }
        return;
    }
    let label = if n == 1 {
        owned("toolchain")
    } else {
        concat3("toolchain.", t.path[1].as_str(), "")
    };
    proof {
        reveal_strlit("toolchain");
        reveal_strlit("toolchain.");
        reveal_strlit("");
        assert(label@ =~= tc_label(strings_view(t.path@)));
    }
    let ghost d0 = diags_m(diags@);
    let decl = toolchain_decl(t, label.as_str(), diags);
    let ghost (dm, dd) = decl_of(*t, label@);
    if n == 2 {
        let triple = t.path[1].as_str();
        assert(triple@ == strings_view(t.path@)[1]);
        let ghost d1 = diags_m(diags@);
        if decl.tool("c").is_none() {
            let mut d = error_at(
                "missing-field",
                concat3("toolchain `", triple, "` has no `c`"),
                Site::new(manifest_file, t.site.span),
                owned("a target toolchain must name its C compiler"),
            );
            d.note(owned("for example `c = \"aarch64-linux-gnu-gcc\"`"));
            push_diag(diags, d);
            proof {
                reveal_strlit("toolchain `");
                reveal_strlit("` has no `c`");
                assert(diag_m(d) == missing_c_diag(triple@, manifest_file, *t));
            }
        }
        proof {
            reveal_strlit("c");
            let dc = if dm.tools.contains_key("c"@) {
                Seq::<DiagM>::empty()
            } else {
                seq![missing_c_diag(triple@, manifest_file, *t)]
            };
            assert(diags_m(diags@) =~= d0 + (dd + dc));
            crate::package::lemma_toolchains_at(*pkg, triple@);
        }
        let ghost before = *pkg;
        let merged = match pkg.toolchains.get(triple) {
            Some(existing) => {
                let mut m = existing.copy();
                m.fill_from(&decl);
                m
            },
            None => decl,
        };
        pkg.toolchains.insert(owned(triple), merged);
        proof {
            let target = toolchains_m(before).insert(triple@, decl_m(merged));
            assert forall|k: Seq<char>|
                #![trigger toolchains_m(*pkg).dom().contains(k)]
                #![trigger target.dom().contains(k)]
                toolchains_m(*pkg).dom().contains(k) == target.dom().contains(k) && (toolchains_m(*pkg).dom().contains(k)
                    ==> toolchains_m(*pkg)[k] == target[k]) by {
                crate::package::lemma_toolchains_at(*pkg, k);
                crate::package::lemma_toolchains_at(before, k);
            }
            assert(toolchains_m(*pkg) =~= target);
            assert forall|k: Seq<char>| #[trigger] pkg.toolchains.lookup(k) is Some implies pkg.toolchains.lookup(k)->0.wf() by {
                if k != triple@ {
                    assert(pkg.toolchains.lookup(k) == before.toolchains.lookup(k));
                }
            }
        }
    } else {
        pkg.toolchain.fill_from_or_replace(decl);
        assert(diags_m(diags@) == d0 + dd);
    }
}

/// Reads the `[toolchain]` and `[toolchain.<triple>]` tables. What is
/// declared already is not overwritten: the order of the calls is the
/// order of precedence, tool by tool, so `dowel.toml` read before a shared
/// toolchain file wins over it.
pub fn read_toolchains(pkg: &mut Package, doc: &Document, manifest_file: FileId, diags: &mut Vec<Diagnostic>)
    requires
        old(pkg).wf(),
    ensures
        final(pkg).wf(),
        package_m(*final(pkg)) == toolchains_section(package_m(*old(pkg)), *doc, manifest_file).0,
        diags_m(final(diags)@) == diags_m(old(diags)@) + toolchains_section(package_m(*old(pkg)), *doc, manifest_file).1,
        final(pkg).features == old(pkg).features,
{
    let ghost p0 = package_m(*pkg);
    let path = ["toolchain"];
    let ts = doc.tables_under(&path);
    let ghost tv = ts@.map_values(|t: &Table| *t);
    proof {
        assert(crate::document::strs_view(path@) =~= seq!["toolchain"@]);
    }
    let mut i: usize = 0;
    while i < ts.len()
        invariant
            i <= ts@.len(),
            tv == ts@.map_values(|t: &Table| *t),
            tv == tables_with_prefix(doc.tables@, seq!["toolchain"@]),
            pkg.wf(),
            pkg.features == old(pkg).features,
            ({
                let (st, ds) = tc_fold((p0.toolchain, p0.toolchains), tv.take(i as int), manifest_file);
                &&& package_m(*pkg) == (PackageM { toolchain: st.0, toolchains: st.1, ..p0 })
                &&& diags_m(diags@) == diags_m(old(diags)@) + ds
            }),
        decreases ts.len() - i,
    {
        assert(tv.take(i + 1).drop_last() =~= tv.take(i as int));
        assert(tv.take(i + 1).last() == *ts[i as int]);
        let ghost d_before = diags_m(diags@);
        toolchain_step(pkg, ts[i], manifest_file, diags);
        proof {
            let (mid, d1) = tc_fold((p0.toolchain, p0.toolchains), tv.take(i as int), manifest_file);
            let (last, d2) = tc_step(mid, tv[i as int], manifest_file);
            assert(diags_m(diags@) =~= diags_m(old(diags)@) + (d1 + d2));
        }
        i += 1;
    }
    assert(tv.take(i as int) =~= tv);
}

// --- `[features]` --------------------------------------------------------------------

/// The reserved key of `[features]` that declares exclusive groups.
pub const EXCLUSIVE: &'static str = "exclusive";

/// What a feature entry enables.
pub open spec fn enables_of(e: Entry, name: Seq<char>) -> (Seq<Seq<char>>, Seq<DiagM>) {
    match e.value.data {
        Data::List(items) => (
            list_strings(items@),
            list_errs(items@, e.site, "features."@ + name, "an array of strings"@),
        ),
        _ => (Seq::empty(), seq![type_err_m(e.site, "features."@ + name, "an array of strings"@)]),
    }
}

/// A group of fewer than two names, which forbids nothing.
pub open spec fn empty_group_diag(file: FileId, site: Site) -> DiagM {
    DiagM {
        code: "empty-exclusive-group"@,
        severity: Severity::Warning,
        message: "an exclusive group needs at least two features"@,
        labels: seq![(Site { file, span: site.span }, "this group forbids nothing"@, true)],
        notes: seq!["a group says which features cannot be enabled together"@],
    }
}

/// The exclusive groups among `groups`, one entry's worth, in order.
pub open spec fn groups_of(groups: Seq<Value>, site: Site, file: FileId) -> (Seq<(Seq<Seq<char>>, Site)>, Seq<DiagM>)
    decreases groups.len(),
{
    if groups.len() == 0 {
        (Seq::empty(), Seq::empty())
    } else {
        let (gs, ds) = groups_of(groups.drop_last(), site, file);
        match groups.last().data {
            Data::List(items) => {
                let names = list_strings(items@);
                let errs = list_errs(items@, site, "features.exclusive"@, "an array of strings"@);
                if names.len() < 2 {
                    (gs, ds + errs.push(empty_group_diag(file, site)))
                } else {
                    (gs.push((names, site)), ds + errs)
                }
            },
            _ => (gs, ds.push(type_err_m(site, "features.exclusive"@, "an array of arrays of strings"@))),
        }
    }
}

/// `exclusive = [["a", "b"], ...]`: the groups it declares.
pub open spec fn exclusive_of(e: Entry, file: FileId) -> (Seq<(Seq<Seq<char>>, Site)>, Seq<DiagM>) {
    match e.value.data {
        Data::List(groups) => groups_of(groups@, e.site, file),
        _ => (Seq::empty(), seq![type_err_m(e.site, "features.exclusive"@, "an array of arrays of strings"@)]),
    }
}

/// The entries of `[features]` taken in order.
pub open spec fn features_fold(
    st: (Map<Seq<char>, Seq<Seq<char>>>, Seq<(Seq<Seq<char>>, Site)>, Seq<DiagM>),
    es: Seq<Entry>,
    file: FileId,
) -> (Map<Seq<char>, Seq<Seq<char>>>, Seq<(Seq<Seq<char>>, Site)>, Seq<DiagM>)
    decreases es.len(),
{
    if es.len() == 0 {
        st
    } else {
        feature_step(features_fold(st, es.drop_last(), file), es.last(), file)
    }
}

/// One entry of `[features]` taken in.
pub open spec fn feature_step(
    st: (Map<Seq<char>, Seq<Seq<char>>>, Seq<(Seq<Seq<char>>, Site)>, Seq<DiagM>),
    e: Entry,
    file: FileId,
) -> (Map<Seq<char>, Seq<Seq<char>>>, Seq<(Seq<Seq<char>>, Site)>, Seq<DiagM>) {
    let (fm, ex, ds) = st;
    let name = joined(strings_view(e.key@), "."@);
    if name == "exclusive"@ {
        let (gs, dg) = exclusive_of(e, file);
        (fm, ex + gs, ds + dg)
    } else {
        let (en, de) = enables_of(e, name);
        (fm.insert(name, en), ex, ds + de)
    }
}

/// The names of a set in increasing order.
pub open spec fn sorted_keys(keys: Set<Seq<char>>) -> Seq<Seq<char>> {
    choose|s: Seq<Seq<char>>| strictly_sorted(s) && s.to_set() == keys
}

/// Two increasing sequences of the same names are the same sequence.
pub proof fn lemma_sorted_unique(a: Seq<Seq<char>>, b: Seq<Seq<char>>)
    requires
        strictly_sorted(a),
        strictly_sorted(b),
        a.to_set() == b.to_set(),
    ensures
        a == b,
    decreases a.len(),
{
    if a.len() == 0 {
        if b.len() > 0 {
            assert(b.to_set().contains(b[0]));
        }
        assert(a =~= b);
    } else if b.len() == 0 {
        assert(a.to_set().contains(a[0]));
    } else {
        assert(b.to_set().contains(a[0]));
        assert(a.to_set().contains(b[0]));
        let j = choose|j: int| 0 <= j < b.len() && b[j] == a[0];
        let i = choose|i: int| 0 <= i < a.len() && a[i] == b[0];
        if a[0] != b[0] {
            if j > 0 && i > 0 {
                lemma_less_transitive(b[0], b[j], a[i]);
                lemma_less_irreflexive(b[0]);
            } else if j > 0 {
                lemma_less_irreflexive(b[0]);
            } else {
                lemma_less_irreflexive(a[0]);
            }
        }
        let a1 = a.drop_first();
        let b1 = b.drop_first();
        assert forall|x: Seq<char>| a1.to_set().contains(x) == b1.to_set().contains(x) by {
            if a1.to_set().contains(x) {
                let k = choose|k: int| 0 <= k < a1.len() && a1[k] == x;
                assert(a[k + 1] == x);
                assert(seq_less(a[0], a[k + 1]));
                lemma_less_asymmetric(a[0], x);
                assert(b.to_set().contains(x));
                let m = choose|m: int| 0 <= m < b.len() && b[m] == x;
                assert(m != 0);
                assert(b1[m - 1] == x);
            }
            if b1.to_set().contains(x) {
                let k = choose|k: int| 0 <= k < b1.len() && b1[k] == x;
                assert(b[k + 1] == x);
                assert(seq_less(b[0], b[k + 1]));
                lemma_less_asymmetric(b[0], x);
                assert(a.to_set().contains(x));
                let m = choose|m: int| 0 <= m < a.len() && a[m] == x;
                assert(m != 0);
                assert(a1[m - 1] == x);
            }
        }
        assert(a1.to_set() =~= b1.to_set());
        lemma_sorted_unique(a1, b1);
        assert(a =~= seq![a[0]] + a1);
        assert(b =~= seq![b[0]] + b1);
    }
}

/// What the unknown-feature note lists: the declared features but
/// `default`, in order, or `(none)`.
pub open spec fn declared_text(features: Map<Seq<char>, Seq<Seq<char>>>) -> Seq<char> {
    let names = sorted_keys(features.dom().remove("default"@));
    if names.len() == 0 {
        "(none)"@
    } else {
        joined(names, ", "@)
    }
}

pub open spec fn unknown_feature_diag(name: Seq<char>, site: Site, features: Map<Seq<char>, Seq<Seq<char>>>) -> DiagM {
    noted(
        error_m("unknown-feature"@, "unknown feature `"@ + name + "`"@, site, "named in an exclusive group"@),
        "`[features]` declares: "@ + declared_text(features),
    )
}

/// One diagnostic for each name of `names` that is not a declared feature.
pub open spec fn unknown_in_group(names: Seq<Seq<char>>, site: Site, features: Map<Seq<char>, Seq<Seq<char>>>) -> Seq<DiagM>
    decreases names.len(),
{
    if names.len() == 0 {
        Seq::empty()
    } else if features.contains_key(names.last()) {
        unknown_in_group(names.drop_last(), site, features)
    } else {
        unknown_in_group(names.drop_last(), site, features).push(unknown_feature_diag(names.last(), site, features))
    }
}

/// The names the exclusive groups give that are not declared features.
pub open spec fn exclusive_diags(
    features: Map<Seq<char>, Seq<Seq<char>>>,
    groups: Seq<(Seq<Seq<char>>, Site)>,
) -> Seq<DiagM>
    decreases groups.len(),
{
    if groups.len() == 0 {
        Seq::empty()
    } else {
        exclusive_diags(features, groups.drop_last()) + unknown_in_group(groups.last().0, groups.last().1, features)
    }
}

/// What the `[features]` table gives a package.
pub open spec fn features_section(p: PackageM, doc: Document, file: FileId) -> (PackageM, Seq<DiagM>) {
    match table_at(doc, seq!["features"@]) {
        None => (p, Seq::empty()),
        Some(t) => {
            let (fm, ex, ds) = features_fold((p.features, p.exclusive, Seq::empty()), t.entries@, file);
            let p1 = PackageM { features: fm, features_site: Some(t.site), exclusive: ex, ..p };
            (p1, ds + exclusive_diags(fm, ex))
        },
    }
}

/// Reads `exclusive = [["a", "b"], ...]`: each group names features that
/// cannot be enabled together, and needs two names to forbid anything.
fn read_exclusive(pkg: &mut Package, e: &Entry, diags: &mut Vec<Diagnostic>)
    ensures
        package_m(*final(pkg)) == (PackageM {
            exclusive: package_m(*old(pkg)).exclusive + exclusive_of(*e, old(pkg).manifest_file).0,
            ..package_m(*old(pkg))
        }),
        diags_m(final(diags)@) == diags_m(old(diags)@) + exclusive_of(*e, old(pkg).manifest_file).1,
        final(pkg).features == old(pkg).features,
        final(pkg).toolchains == old(pkg).toolchains,
        final(pkg).toolchain == old(pkg).toolchain,
{
    proof {
        reveal_strlit("features.exclusive");
        reveal_strlit("an array of arrays of strings");
        reveal_strlit("an array of strings");
    }
    let file = pkg.manifest_file;
    let groups = match e.value.as_list() {
        Some(g) => g,
        None => {
            type_err(diags, e.site, "features.exclusive", "an array of arrays of strings");
            assert(groups_view(pkg.exclusive@) =~= groups_view(old(pkg).exclusive@) + Seq::<(Seq<Seq<char>>, Site)>::empty());
            assert(diags_m(diags@) =~= diags_m(old(diags)@) + exclusive_of(*e, file).1);
            return;
        },
    };
    let mut i: usize = 0;
    while i < groups.len()
        invariant
            i <= groups@.len(),
            e.value.data matches Data::List(gs) && gs@ == groups@,
            pkg.manifest_file == file,
            package_m(*pkg) == (PackageM {
                exclusive: package_m(*old(pkg)).exclusive + groups_of(groups@.take(i as int), e.site, file).0,
                ..package_m(*old(pkg))
            }),
            diags_m(diags@) == diags_m(old(diags)@) + groups_of(groups@.take(i as int), e.site, file).1,
            pkg.features == old(pkg).features,
            pkg.toolchains == old(pkg).toolchains,
            pkg.toolchain == old(pkg).toolchain,
        decreases groups.len() - i,
    {
        assert(groups@.take(i + 1).drop_last() =~= groups@.take(i as int));
        let ghost (gs0, ds0) = groups_of(groups@.take(i as int), e.site, file);
        match groups[i].as_list() {
            None => {
                type_err(diags, e.site, "features.exclusive", "an array of arrays of strings");
            },
            Some(items) => {
                let names = strings_in(items, e.site, "features.exclusive", "an array of strings", diags);
                if names.len() < 2 {
                    let mut d = Diagnostic::warning(
                        "empty-exclusive-group",
                        owned("an exclusive group needs at least two features"),
                    );
                    d.label(Site::new(file, e.site.span), owned("this group forbids nothing"), true);
                    d.note(owned("a group says which features cannot be enabled together"));
                    push_diag(diags, d);
                    proof {
                        assert(diag_m(d) == empty_group_diag(file, e.site));
                        let errs = list_errs(items@, e.site, "features.exclusive"@, "an array of strings"@);
                        assert(diags_m(diags@) =~= diags_m(old(diags)@) + (ds0 + errs.push(empty_group_diag(file, e.site))));
                    }
                } else {
                    let ghost before = pkg.exclusive@;
                    pkg.exclusive.push((names, e.site));
                    proof {
                        assert(groups_view(pkg.exclusive@) =~= groups_view(before).push((list_strings(items@), e.site)));
                        let errs = list_errs(items@, e.site, "features.exclusive"@, "an array of strings"@);
                        assert(diags_m(diags@) =~= diags_m(old(diags)@) + (ds0 + errs));
                    }
                }
            },
        }
        i += 1;
    }
    assert(groups@.take(i as int) =~= groups@);
}

/// The names of rows other than `default`, in order.
pub open spec fn without_default(s: Seq<Seq<char>>) -> Seq<Seq<char>>
    decreases s.len(),
{
    if s.len() == 0 {
        Seq::empty()
    } else if s.last() == "default"@ {
        without_default(s.drop_last())
    } else {
        without_default(s.drop_last()).push(s.last())
    }
}

proof fn lemma_without_default(s: Seq<Seq<char>>)
    requires
        strictly_sorted(s),
    ensures
        strictly_sorted(without_default(s)),
        without_default(s).to_set() == s.to_set().remove("default"@),
        forall|x: Seq<char>| #[trigger] without_default(s).contains(x) ==> s.contains(x),
    decreases s.len(),
{
    if s.len() > 0 {
        let d = s.drop_last();
        assert(strictly_sorted(d)) by {
            assert forall|a: int, b: int| 0 <= a < b < d.len() implies seq_less(d[a], d[b]) by {
                assert(d[a] == s[a] && d[b] == s[b]);
            }
        }
        lemma_without_default(d);
        let w = without_default(d);
        assert forall|x: Seq<char>| d.contains(x) implies seq_less(x, s.last()) by {
            let k = choose|k: int| 0 <= k < d.len() && d[k] == x;
            assert(s[k] == x);
        }
        if s.last() != "default"@ {
            assert forall|a: int, b: int| 0 <= a < b < w.push(s.last()).len() implies seq_less(
                w.push(s.last())[a],
                w.push(s.last())[b],
            ) by {
                if b == w.len() {
                    assert(w.contains(w[a]));
                    assert(d.contains(w[a]));
                }
            }
            assert forall|x: Seq<char>| w.push(s.last()).contains(x) implies s.contains(x) by {
                if x != s.last() {
                    let k = choose|k: int| 0 <= k < w.push(s.last()).len() && w.push(s.last())[k] == x;
                    assert(w[k] == x);
                    assert(w.contains(x));
                    assert(d.contains(x));
                    let m = choose|m: int| 0 <= m < d.len() && d[m] == x;
                    assert(s[m] == x);
                } else {
                    assert(s[s.len() - 1] == x);
                }
            }
            assert(w.push(s.last()).to_set() =~= s.to_set().remove("default"@)) by {
                assert(s =~= d.push(s.last()));
                assert forall|x: Seq<char>| w.push(s.last()).to_set().contains(x) == s.to_set().remove("default"@).contains(x) by {
                    if s.contains(x) && x != "default"@ && x != s.last() {
                        let m = choose|m: int| 0 <= m < s.len() && s[m] == x;
                        assert(d[m] == x);
                        assert(d.to_set().contains(x));
                        assert(w.to_set().contains(x));
                        let k = choose|k: int| 0 <= k < w.len() && w[k] == x;
                        assert(w.push(s.last())[k] == x);
                    }
                    if w.push(s.last()).contains(x) && x != s.last() {
                        let k = choose|k: int| 0 <= k < w.push(s.last()).len() && w.push(s.last())[k] == x;
                        assert(w[k] == x);
                        assert(w.to_set().contains(x));
                        assert(d.to_set().contains(x));
                        let m = choose|m: int| 0 <= m < d.len() && d[m] == x;
                        assert(s[m] == x);
                    }
                    if x == s.last() {
                        assert(w.push(s.last())[w.len() as int] == x);
                        assert(s[s.len() - 1] == x);
                    }
                }
            }
        } else {
            assert forall|x: Seq<char>| w.contains(x) implies s.contains(x) by {
                assert(d.contains(x));
                let m = choose|m: int| 0 <= m < d.len() && d[m] == x;
                assert(s[m] == x);
            }
            assert(w.to_set() =~= s.to_set().remove("default"@)) by {
                assert forall|x: Seq<char>| w.to_set().contains(x) == s.to_set().remove("default"@).contains(x) by {
                    if s.contains(x) && x != "default"@ {
                        let m = choose|m: int| 0 <= m < s.len() && s[m] == x;
                        assert(m != s.len() - 1);
                        assert(d[m] == x);
                        assert(d.to_set().contains(x));
                    }
                    if w.contains(x) {
                        assert(w.to_set().contains(x));
                        assert(d.to_set().contains(x));
                        let m = choose|m: int| 0 <= m < d.len() && d[m] == x;
                        assert(s[m] == x);
                    }
                }
            }
        }
    } else {
        assert(s.to_set().remove("default"@) =~= Set::<Seq<char>>::empty());
        assert(without_default(s).to_set() =~= Set::<Seq<char>>::empty());
    }
}

/// The text the unknown-feature note lists.
fn declared_listing(pkg: &Package) -> (r: String)
    requires
        pkg.wf(),
    ensures
        r@ == declared_text(features_m(*pkg)),
{
    let ghost rows = pkg.features.view();
    let ghost names = names_of(rows);
    let mut declared: Vec<String> = Vec::new();
    let mut i: usize = 0;
    while i < pkg.features.len()
        invariant
            i <= rows.len(),
            rows == pkg.features.view(),
            names == names_of(rows),
            strings_view(declared@) == without_default(names.take(i as int)),
        decreases rows.len() - i,
    {
        let (name, _) = pkg.features.entry(i);
        assert(names.take(i + 1).drop_last() =~= names.take(i as int));
        assert(names.take(i + 1).last() == name@);
        if !str_eq(name, "default") {
            let ghost before = declared@;
            declared.push(owned(name));
            assert(strings_view(declared@) =~= strings_view(before).push(name@));
        }
        i += 1;
    }
    assert(names.take(i as int) =~= names);
    proof {
        lemma_without_default(names);
        let dom = features_m(*pkg).dom();
        assert(names.to_set() =~= dom) by {
            assert forall|k: Seq<char>| names.to_set().contains(k) == dom.contains(k) by {
                crate::package::lemma_features_m_at(*pkg, k);
                if names.contains(k) {
                    let j = choose|j: int| 0 <= j < names.len() && names[j] == k;
                    assert(rows[j].0 == k);
                    lemma_find_name_at(rows, j);
                } else {
                    assert forall|j: int| 0 <= j < rows.len() implies rows[j].0 != k by {
                        assert(names[j] == rows[j].0);
                    }
                    lemma_find_name_absent(rows, k);
                }
            }
        }
        let w = without_default(names);
        assert(exists|s: Seq<Seq<char>>| strictly_sorted(s) && s.to_set() == dom.remove("default"@));
        let chosen = sorted_keys(dom.remove("default"@));
        lemma_sorted_unique(w, chosen);
        reveal_strlit("(none)");
        reveal_strlit(", ");
    }
    if declared.len() == 0 {
        owned("(none)")
    } else {
        join_strings(declared.as_slice(), ", ")
    }
}

/// Reports each name of an exclusive group that is not a declared feature:
/// such a group could never hold, and would silently forbid nothing.
fn check_exclusive_names(pkg: &Package, diags: &mut Vec<Diagnostic>)
    requires
        pkg.wf(),
    ensures
        diags_m(final(diags)@) == diags_m(old(diags)@) + exclusive_diags(features_m(*pkg), groups_view(pkg.exclusive@)),
{
    let listing = declared_listing(pkg);
    let ghost fm = features_m(*pkg);
    let ghost gv = groups_view(pkg.exclusive@);
    let mut i: usize = 0;
    while i < pkg.exclusive.len()
        invariant
            i <= gv.len(),
            pkg.wf(),
            fm == features_m(*pkg),
            gv == groups_view(pkg.exclusive@),
            listing@ == declared_text(fm),
            diags_m(diags@) == diags_m(old(diags)@) + exclusive_diags(fm, gv.take(i as int)),
        decreases gv.len() - i,
    {
        assert(gv.take(i + 1).drop_last() =~= gv.take(i as int));
        let group = &pkg.exclusive[i].0;
        let site = pkg.exclusive[i].1;
        let ghost gnames = strings_view(group@);
        assert(gv[i as int] == (gnames, site));
        let ghost d_start = diags_m(diags@);
        let mut j: usize = 0;
        while j < group.len()
            invariant
                j <= group@.len(),
                gnames == strings_view(group@),
                fm == features_m(*pkg),
                pkg.wf(),
                listing@ == declared_text(fm),
                diags_m(diags@) == d_start + unknown_in_group(gnames.take(j as int), site, fm),
            decreases group.len() - j,
        {
            assert(gnames.take(j + 1).drop_last() =~= gnames.take(j as int));
            let name = group[j].as_str();
            assert(gnames.take(j + 1).last() == name@);
            proof {
                crate::package::lemma_features_m_at(*pkg, name@);
            }
            if pkg.features.get(name).is_none() {
                let mut d = error_at(
                    "unknown-feature",
                    concat3("unknown feature `", name, "`"),
                    site,
                    owned("named in an exclusive group"),
                );
                d.note(concat3("`[features]` declares: ", listing.as_str(), ""));
                push_diag(diags, d);
                proof {
                    reveal_strlit("unknown feature `");
                    reveal_strlit("`");
                    reveal_strlit("`[features]` declares: ");
                    reveal_strlit("");
                    assert(diag_m(d) == unknown_feature_diag(name@, site, fm));
                }
            }
            j += 1;
        }
        assert(gnames.take(j as int) =~= gnames);
        assert(diags_m(diags@) =~= diags_m(old(diags)@) + exclusive_diags(fm, gv.take(i + 1)));
        i += 1;
    }
    assert(gv.take(i as int) =~= gv);
}

/// Takes one entry of `[features]` into the package.
fn feature_entry(pkg: &mut Package, e: &Entry, diags: &mut Vec<Diagnostic>)
    requires
        old(pkg).wf(),
    ensures
        final(pkg).wf(),
        ({
            let p0 = package_m(*old(pkg));
            let (fm, ex, ds) = feature_step((p0.features, p0.exclusive, Seq::empty()), *e, old(pkg).manifest_file);
            &&& package_m(*final(pkg)) == (PackageM { features: fm, exclusive: ex, ..p0 })
            &&& diags_m(final(diags)@) == diags_m(old(diags)@) + ds
        }),
        final(pkg).manifest_file == old(pkg).manifest_file,
{
    let ghost p0 = package_m(*pkg);
    proof {
        reveal_strlit("exclusive");
        reveal_strlit("features.");
        reveal_strlit("an array of strings");
        reveal_strlit("");
    }
    let name = join_strings(e.key.as_slice(), ".");
    if str_eq(name.as_str(), EXCLUSIVE) {
        read_exclusive(pkg, e, diags);
        assert(diags_m(diags@) =~= diags_m(old(diags)@) + (Seq::<DiagM>::empty() + exclusive_of(*e, old(pkg).manifest_file).1));
        return;
    }
    let field = concat3("features.", name.as_str(), "");
    let enables = match e.value.as_list() {
        Some(items) => strings_in(items, e.site, field.as_str(), "an array of strings", diags),
        None => {
            type_err(diags, e.site, field.as_str(), "an array of strings");
            Vec::new()
        },
    };
    let ghost en = strings_view(enables@);
    proof {
        assert(field@ =~= "features."@ + name@);
        let (en2, de) = enables_of(*e, name@);
        assert(en =~= en2);
        assert(diags_m(diags@) =~= diags_m(old(diags)@) + (Seq::<DiagM>::empty() + de));
    }
    let ghost before = *pkg;
    pkg.features.insert(name, enables);
    proof {
        let target = features_m(before).insert(name@, en);
        assert forall|k: Seq<char>|
            #![trigger features_m(*pkg).dom().contains(k)]
            #![trigger target.dom().contains(k)]
            features_m(*pkg).dom().contains(k) == target.dom().contains(k) && (features_m(*pkg).dom().contains(k)
                ==> features_m(*pkg)[k] == target[k]) by {
            crate::package::lemma_features_m_at(*pkg, k);
            crate::package::lemma_features_m_at(before, k);
        }
        assert(features_m(*pkg) =~= target);
        assert forall|k: Seq<char>| #[trigger] pkg.toolchains.lookup(k) is Some implies pkg.toolchains.lookup(k)->0.wf() by {
            assert(pkg.toolchains.lookup(k) == before.toolchains.lookup(k));
        }
    }
}

/// Reads the `[features]` table: what each feature enables, the exclusive
/// groups, and whether the groups name declared features.
fn read_features(pkg: &mut Package, doc: &Document, diags: &mut Vec<Diagnostic>)
    requires
        old(pkg).wf(),
    ensures
        final(pkg).wf(),
        package_m(*final(pkg)) == features_section(package_m(*old(pkg)), *doc, old(pkg).manifest_file).0,
        diags_m(final(diags)@) == diags_m(old(diags)@) + features_section(package_m(*old(pkg)), *doc, old(pkg).manifest_file).1,
        final(pkg).manifest_file == old(pkg).manifest_file,
{
    let ghost p0 = package_m(*pkg);
    let file = pkg.manifest_file;
    let path = ["features"];
    let found = table_of(doc, &path);
    proof {
        assert(path@.map_values(|s: &str| s@) =~= seq!["features"@]);
    }
    match found {
        None => {
            assert(diags_m(diags@) =~= diags_m(old(diags)@) + Seq::<DiagM>::empty());
        },
        Some(t) => {
            pkg.features_site = Some(t.site);
            let mut i: usize = 0;
            while i < t.entries.len()
                invariant
                    i <= t.entries@.len(),
                    pkg.wf(),
                    pkg.manifest_file == file,
                    ({
                        let (fm, ex, ds) = features_fold((p0.features, p0.exclusive, Seq::empty()), t.entries@.take(i as int), file);
                        &&& package_m(*pkg) == (PackageM { features: fm, exclusive: ex, features_site: Some(t.site), ..p0 })
                        &&& diags_m(diags@) == diags_m(old(diags)@) + ds
                    }),
                decreases t.entries.len() - i,
            {
                assert(t.entries@.take(i + 1).drop_last() =~= t.entries@.take(i as int));
                let ghost (fm0, ex0, ds0) = features_fold((p0.features, p0.exclusive, Seq::empty()), t.entries@.take(i as int), file);
                let ghost d_before = diags_m(diags@);
                feature_entry(pkg, &t.entries[i], diags);
                proof {
                    let e = t.entries@[i as int];
                    assert(t.entries@.take(i + 1).last() == e);
                    let name = joined(strings_view(e.key@), "."@);
                    if name == "exclusive"@ {
                        let (gs, dg) = exclusive_of(e, file);
                        assert(feature_step((fm0, ex0, Seq::empty()), e, file).2 =~= Seq::<DiagM>::empty() + dg);
                        assert(ds0 + dg =~= ds0 + (Seq::<DiagM>::empty() + dg));
                    } else {
                        let (en, de) = enables_of(e, name);
                        assert(feature_step((fm0, ex0, Seq::empty()), e, file).2 =~= Seq::<DiagM>::empty() + de);
                        assert(ds0 + de =~= ds0 + (Seq::<DiagM>::empty() + de));
                    }
                    assert(diags_m(diags@) =~= diags_m(old(diags)@) + features_fold(
                        (p0.features, p0.exclusive, Seq::empty()),
                        t.entries@.take(i + 1),
                        file,
                    ).2);
                }
                i += 1;
            }
            assert(t.entries@.take(i as int) =~= t.entries@);
            let ghost d_mid = diags_m(diags@);
            check_exclusive_names(pkg, diags);
            assert(diags_m(diags@) =~= diags_m(old(diags)@) + features_section(p0, *doc, file).1);
        },
    }
}

// --- `[[dependencies]]` -----------------------------------------------------------------

/// The keys that name where a dependency comes from, and how each is said.
/// A dependency has exactly one.
pub const SOURCE_KEYS: [(&'static str, &'static str); 4] = [
    ("path", "a local path"),
    ("git", "a git repository"),
    ("version", "a system package"),
    ("url", "an archive"),
];

pub open spec fn source_keys() -> Seq<(Seq<char>, Seq<char>)> {
    seq![
        ("path"@, "a local path"@),
        ("git"@, "a git repository"@),
        ("version"@, "a system package"@),
        ("url"@, "an archive"@),
    ]
}

/// The sources a dependency table names, in the order of `source_keys`,
/// with where each was written.
pub open spec fn present_sources(t: Table, keys: Seq<(Seq<char>, Seq<char>)>) -> Seq<(Seq<char>, Site)>
    decreases keys.len(),
{
    if keys.len() == 0 {
        Seq::empty()
    } else {
        match entry_at(t, keys.last().0) {
            Some(e) => present_sources(t, keys.drop_last()).push((keys.last().1, e.site)),
            None => present_sources(t, keys.drop_last()),
        }
    }
}

/// The line that names the source: the first source key written, else the
/// header.
pub open spec fn source_site_of(t: Table) -> Site {
    let present = present_sources(t, source_keys());
    if present.len() > 0 {
        present[0].1
    } else {
        t.site
    }
}

/// The labels of a dependency naming several sources: the first, then the
/// others.
pub open spec fn source_labels(present: Seq<(Seq<char>, Site)>, file: FileId) -> Seq<(Site, Seq<char>, bool)> {
    Seq::new(
        present.len(),
        |i: int|
            if i == 0 {
                (Site { file, span: present[i].1.span }, present[i].0, true)
            } else {
                (Site { file, span: present[i].1.span }, "and "@ + present[i].0, false)
            },
    )
}

/// A dependency that names more than one source: only one would be read.
pub open spec fn conflict_diag(t: Table, file: FileId, name: Seq<char>) -> Option<DiagM> {
    let present = present_sources(t, source_keys());
    if present.len() < 2 {
        None
    } else {
        Some(DiagM {
            code: "conflicting-dependency-source"@,
            severity: Severity::Error,
            message: "dependency `"@ + name + "` names more than one source"@,
            labels: source_labels(present, file),
            notes: seq![
                "a dependency has exactly one source: `path`, `git`, `version`, `url`"@,
                "only the first would be read; the others would never be fetched or resolved"@,
            ],
        })
    }
}

/// A character in lower case, for ASCII letters.
pub open spec fn lower_char(c: char) -> char {
    if 'A' <= c && c <= 'Z' {
        ((c as u32) + 32) as char
    } else {
        c
    }
}

pub open spec fn lower_ascii(s: Seq<char>) -> Seq<char> {
    s.map_values(|c: char| lower_char(c))
}

/// A digest written for `key`: lower-cased when it is `n` hexadecimal
/// digits; else what was written (empty when not a string), or nothing
/// when absent.
pub open spec fn pinned_m(t: Table, key: Seq<char>, n: int) -> Result<Seq<char>, Option<Seq<char>>> {
    match entry_at(t, key) {
        None => Err(None),
        Some(e) => match str_of(e.value) {
            None => Err(Some(Seq::empty())),
            Some(s) => if hex_digits(lower_ascii(s), n) {
                Ok(lower_ascii(s))
            } else {
                Err(Some(s))
            },
        },
    }
}

/// An archive dependency that is not pinned by its digest.
pub open spec fn unhashed_diag(file: FileId, t: Table, name: Seq<char>, found: Option<Seq<char>>) -> DiagM {
    let span = match entry_at(t, "sha256"@) {
        Some(e) => e.site.span,
        None => t.site.span,
    };
    match found {
        None => noted(
            noted(
                error_m(
                    "unpinned-dependency"@,
                    "dependency `"@ + name + "` has a `url` but no `sha256`"@,
                    Site { file, span },
                    "an archive is pinned by its contents"@,
                ),
                "a URL can serve different bytes tomorrow; the hash is what makes the build the same one"@,
            ),
            "`dowel build` prints the hash it received, which can be pasted in once it has been checked"@,
        ),
        Some(bad) => noted(
            error_m(
                "unpinned-dependency"@,
                "`"@ + bad + "` is not a sha256 digest"@,
                Site { file, span },
                "expected 64 hexadecimal digits"@,
            ),
            "this is the digest of the archive itself, not of its contents once unpacked"@,
        ),
    }
}

/// A git dependency that is not pinned at a full commit.
pub open spec fn unpinned_diag(file: FileId, t: Table, name: Seq<char>, found: Option<Seq<char>>) -> DiagM {
    let what = match found {
        None => "has no `rev`"@,
        Some(s) => if s.len() == 0 {
            "has a non-string `rev`"@
        } else {
            "pins `rev = "@ + debug_quoted(s) + "`, which is not a full commit sha"@
        },
    };
    let site = match entry_at(t, "rev"@) {
        Some(e) => e.site,
        None => t.site,
    };
    noted(
        noted(
            error_m(
                "unpinned-dependency"@,
                "git dependency `"@ + name + "` "@ + what,
                Site { file, span: site.span },
                "a full 40-digit commit sha is required"@,
            ),
            "branches, tags, and abbreviated shas resolve differently over time; they do not count as pinned"@,
        ),
        "take the sha with `git rev-parse HEAD` in the dependency's repository"@,
    )
}

/// How a dependency is supplied, by the first source key it writes.
pub open spec fn kind_of(t: Table, file: FileId, name: Seq<char>) -> (DepKindM, Seq<DiagM>) {
    match entry_at(t, "path"@) {
        Some(e) => match str_of(e.value) {
            Some(p) => (DepKindM::Path(p), Seq::empty()),
            None => (DepKindM::Unsupported("path"@), seq![type_err_m(e.site, "dependencies.path"@, "a string"@)]),
        },
        None => match entry_at(t, "git"@) {
            Some(e) => match str_of(e.value) {
                Some(url) => match pinned_m(t, "rev"@, 40) {
                    Ok(rev) => (DepKindM::Git(url, rev), Seq::empty()),
                    Err(found) => (DepKindM::Unsupported("git"@), seq![unpinned_diag(file, t, name, found)]),
                },
                None => (DepKindM::Unsupported("git"@), seq![type_err_m(e.site, "dependencies.git"@, "a string"@)]),
            },
            None => match entry_at(t, "url"@) {
                Some(e) => match str_of(e.value) {
                    Some(url) => match pinned_m(t, "sha256"@, 64) {
                        Ok(sha) => (DepKindM::Tarball(url, sha), Seq::empty()),
                        Err(found) => (DepKindM::Unsupported("url"@), seq![unhashed_diag(file, t, name, found)]),
                    },
                    None => (DepKindM::Unsupported("url"@), seq![type_err_m(e.site, "dependencies.url"@, "a string"@)]),
                },
                None => match entry_at(t, "version"@) {
                    Some(e) => match str_of(e.value) {
                        Some(v) => (DepKindM::PkgConfig(v), Seq::empty()),
                        None => (
                            DepKindM::Unsupported("version"@),
                            seq![type_err_m(e.site, "dependencies.version"@, "a string"@)],
                        ),
                    },
                    None => (
                        DepKindM::Unsupported("none"@),
                        seq![error_m(
                            "incomplete-dependency"@,
                            "dependency `"@ + name + "` has no source"@,
                            Site { file, span: t.site.span },
                            "one of `path`, `git`, `url` or `version` is required"@,
                        )],
                    ),
                },
            },
        },
    }
}

/// What one `[[dependencies]]` table declares; nothing for a nested table
/// or one without a usable name.
pub open spec fn dep_of(t: Table, file: FileId) -> (Option<DepM>, Seq<DiagM>) {
    if t.path@.len() != 1 {
        (None, Seq::empty())
    } else {
        match entry_at(t, "name"@) {
            None => (
                None,
                seq![error_m("missing-field"@, "dependency has no `name`"@, Site { file, span: t.site.span }, "write `name = \"...\"`"@)],
            ),
            Some(ne) => match str_of(ne.value) {
                None => (None, seq![type_err_m(ne.site, "dependencies.name"@, "a string"@)]),
                Some(name) => {
                    let optional = match entry_at(t, "optional"@) {
                        Some(e) => match e.value.data {
                            Data::Bool(b) => b,
                            _ => false,
                        },
                        None => false,
                    };
                    let source_site = source_site_of(t);
                    match conflict_diag(t, file, name) {
                        Some(d) => (
                            Some(DepM { name, kind: DepKindM::Unsupported("conflict"@), optional, site: t.site, source_site }),
                            seq![d],
                        ),
                        None => {
                            let (kind, ds) = kind_of(t, file, name);
                            (Some(DepM { name, kind, optional, site: t.site, source_site }), ds)
                        },
                    }
                },
            },
        }
    }
}

/// The dependency tables taken in order.
pub open spec fn deps_fold(ts: Seq<Table>, file: FileId) -> (Seq<DepM>, Seq<DiagM>)
    decreases ts.len(),
{
    if ts.len() == 0 {
        (Seq::empty(), Seq::empty())
    } else {
        let (deps, ds) = deps_fold(ts.drop_last(), file);
        let (dep, dd) = dep_of(ts.last(), file);
        (
            match dep {
                Some(d) => deps.push(d),
                None => deps,
            },
            ds + dd,
        )
    }
}

/// What the dependency tables give a package.
pub open spec fn deps_section(p: PackageM, doc: Document, file: FileId) -> (PackageM, Seq<DiagM>) {
    let (deps, ds) = deps_fold(tables_with_prefix(doc.tables@, seq!["dependencies"@]), file);
    (PackageM { deps: p.deps + deps, ..p }, ds)
}

/// `s` with ASCII letters in lower case, as `str::to_ascii_lowercase` gives it.
pub fn ascii_lower(s: &str) -> (r: String)
    ensures
        r@ == lower_ascii(s@),
{
    let cs = crate::text::chars_of(s);
    let mut r = String::new();
    let mut i: usize = 0;
    while i < cs.len()
        invariant
            cs@ == s@,
            i <= cs@.len(),
            r@ == lower_ascii(s@).take(i as int),
        decreases cs.len() - i,
    {
        let c = cs[i];
        let l = if 'A' <= c && c <= 'Z' {
            ((c as u8) + 32) as char
        } else {
            c
        };
        assert(l == lower_char(c)) by {
            if 'A' <= c && c <= 'Z' {
                assert((c as u8) as u32 == c as u32);
            }
        }
        crate::text::push_char(&mut r, l);
        assert(r@ =~= lower_ascii(s@).take(i + 1));
        i += 1;
    }
    assert(lower_ascii(s@).take(i as int) =~= lower_ascii(s@));
    r
}

/// A digest written for `key`, checked to be `n` hexadecimal digits.
fn pinned_digest(t: &Table, key: &str, n: usize) -> (r: Result<String, Option<String>>)
    ensures
        match r {
            Ok(s) => pinned_m(*t, key@, n as int) == Ok::<Seq<char>, Option<Seq<char>>>(s@),
            Err(None) => pinned_m(*t, key@, n as int) == Err::<Seq<char>, Option<Seq<char>>>(None),
            Err(Some(s)) => pinned_m(*t, key@, n as int) == Err::<Seq<char>, Option<Seq<char>>>(Some(s@)),
        },
{
    let e = match entry_of(t, key) {
        Some(e) => e,
        None => {
            return Err(None);
        },
    };
    let s = match e.value.as_str() {
        Some(s) => s,
        None => {
            let empty = String::new();
            assert(empty@ =~= Seq::<char>::empty());
            return Err(Some(empty));
        },
    };
    let lowered = ascii_lower(s);
    if is_hex_digits(lowered.as_str(), n) {
        Ok(lowered)
    } else {
        Err(Some(owned(s)))
    }
}

/// Checks that `rev` is a full 40-digit commit sha. A short sha or a branch
/// can resolve to other contents over time.
fn pinned_rev(t: &Table) -> (r: Result<String, Option<String>>)
    ensures
        match r {
            Ok(s) => pinned_m(*t, "rev"@, 40) == Ok::<Seq<char>, Option<Seq<char>>>(s@),
            Err(None) => pinned_m(*t, "rev"@, 40) == Err::<Seq<char>, Option<Seq<char>>>(None),
            Err(Some(s)) => pinned_m(*t, "rev"@, 40) == Err::<Seq<char>, Option<Seq<char>>>(Some(s@)),
        },
{
    pinned_digest(t, "rev", 40)
}

/// Checks that `sha256` is 64 hexadecimal digits: an archive has no rev and
/// is pinned by its content itself.
fn declared_sha256(t: &Table) -> (r: Result<String, Option<String>>)
    ensures
        match r {
            Ok(s) => pinned_m(*t, "sha256"@, 64) == Ok::<Seq<char>, Option<Seq<char>>>(s@),
            Err(None) => pinned_m(*t, "sha256"@, 64) == Err::<Seq<char>, Option<Seq<char>>>(None),
            Err(Some(s)) => pinned_m(*t, "sha256"@, 64) == Err::<Seq<char>, Option<Seq<char>>>(Some(s@)),
        },
{
    pinned_digest(t, "sha256", 64)
}

pub open spec fn found_m(found: Option<String>) -> Option<Seq<char>> {
    match found {
        Some(s) => Some(s@),
        None => None,
    }
}

/// Refuses an archive dependency that is not pinned by its digest.
fn unhashed(diags: &mut Vec<Diagnostic>, file: FileId, t: &Table, name: &str, found: Option<String>)
    ensures
        diags_m(final(diags)@) == diags_m(old(diags)@).push(unhashed_diag(file, *t, name@, found_m(found))),
{
    let span = match entry_of(t, "sha256") {
        Some(e) => e.site.span,
        None => t.site.span,
    };
    let ghost fm = found_m(found);
    let d = match found {
        None => {
            let mut d = error_at(
                "unpinned-dependency",
                concat3("dependency `", name, "` has a `url` but no `sha256`"),
                Site::new(file, span),
                owned("an archive is pinned by its contents"),
            );
            d.note(owned("a URL can serve different bytes tomorrow; the hash is what makes the build the same one"));
            d.note(owned("`dowel build` prints the hash it received, which can be pasted in once it has been checked"));
            d
        },
        Some(bad) => {
            let mut d = error_at(
                "unpinned-dependency",
                concat3("`", bad.as_str(), "` is not a sha256 digest"),
                Site::new(file, span),
                owned("expected 64 hexadecimal digits"),
            );
            d.note(owned("this is the digest of the archive itself, not of its contents once unpacked"));
            d
        },
    };
    proof {
        reveal_strlit("dependency `");
        reveal_strlit("` has a `url` but no `sha256`");
        reveal_strlit("`");
        reveal_strlit("` is not a sha256 digest");
        assert(diag_m(d) == unhashed_diag(file, *t, name@, fm));
    }
    push_diag(diags, d);
}

/// Refuses a git dependency that is not pinned at a full commit sha.
fn unpinned(diags: &mut Vec<Diagnostic>, file: FileId, t: &Table, name: &str, found: Option<String>)
    ensures
        diags_m(final(diags)@) == diags_m(old(diags)@).push(unpinned_diag(file, *t, name@, found_m(found))),
{
    let ghost fm = found_m(found);
    let what = match &found {
        None => owned("has no `rev`"),
        Some(s) => if s.as_str().unicode_len() == 0 {
            owned("has a non-string `rev`")
        } else {
            let q = debug_quote(s.as_str());
            concat3("pins `rev = ", q.as_str(), "`, which is not a full commit sha")
        },
    };
    let site = match entry_of(t, "rev") {
        Some(e) => e.site,
        None => t.site,
    };
    let mut message = concat3("git dependency `", name, "` ");
    push_str(&mut message, what.as_str());
    let mut d = error_at("unpinned-dependency", message, Site::new(file, site.span), owned("a full 40-digit commit sha is required"));
    d.note(owned("branches, tags, and abbreviated shas resolve differently over time; they do not count as pinned"));
    d.note(owned("take the sha with `git rev-parse HEAD` in the dependency's repository"));
    proof {
        reveal_strlit("git dependency `");
        reveal_strlit("` ");
        reveal_strlit("pins `rev = ");
        reveal_strlit("`, which is not a full commit sha");
        if let Some(s) = found {
            if s@.len() == 0 {
                assert(s@ =~= Seq::<char>::empty());
            }
        }
        assert(diag_m(d) == unpinned_diag(file, *t, name@, fm));
    }
    push_diag(diags, d);
}

/// The sources a dependency table names, in order, with where each was
/// written.
fn sources_in(t: &Table) -> (r: Vec<(&'static str, Site)>)
    ensures
        r@.map_values(|x: (&'static str, Site)| (x.0@, x.1)) == present_sources(*t, source_keys()),
{
    let keys = SOURCE_KEYS;
    proof {
        assert(keys@.map_values(|k: (&'static str, &'static str)| (k.0@, k.1@)) =~= source_keys());
    }
    let mut r: Vec<(&'static str, Site)> = Vec::new();
    let mut i: usize = 0;
    while i < 4
        invariant
            i <= 4,
            keys@.map_values(|k: (&'static str, &'static str)| (k.0@, k.1@)) == source_keys(),
            r@.map_values(|x: (&'static str, Site)| (x.0@, x.1)) == present_sources(*t, source_keys().take(i as int)),
        decreases 4 - i,
    {
        assert(source_keys().take(i + 1).drop_last() =~= source_keys().take(i as int));
        assert(source_keys().take(i + 1).last() == (keys@[i as int].0@, keys@[i as int].1@));
        let (key, what) = keys[i];
        match entry_of(t, key) {
            Some(e) => {
                let ghost prev = r@;
                r.push((what, e.site));
                assert(r@.map_values(|x: (&'static str, Site)| (x.0@, x.1)) =~= prev.map_values(
                    |x: (&'static str, Site)| (x.0@, x.1),
                ).push((what@, e.site)));
            },
            None => {},
        }
        i += 1;
    }
    assert(source_keys().take(4) =~= source_keys());
    r
}

/// A dependency naming more than one source. Two at once would have one of
/// them silently not read.
fn conflicting_sources(t: &Table, file: FileId, name: &str) -> (r: Option<Diagnostic>)
    ensures
        match r {
            Some(d) => conflict_diag(*t, file, name@) == Some(diag_m(d)),
            None => conflict_diag(*t, file, name@) is None,
        },
{
    let present = sources_in(t);
    let ghost pv = present@.map_values(|x: (&'static str, Site)| (x.0@, x.1));
    if present.len() < 2 {
        return None;
    }
    let mut d = Diagnostic::error(
        "conflicting-dependency-source",
        concat3("dependency `", name, "` names more than one source"),
    );
    let mut i: usize = 0;
    while i < present.len()
        invariant
            i <= present@.len(),
            pv == present@.map_values(|x: (&'static str, Site)| (x.0@, x.1)),
            diag_m(d).labels == source_labels(pv, file).take(i as int),
            diag_m(d).code == "conflicting-dependency-source"@,
            diag_m(d).severity == Severity::Error,
            diag_m(d).message == "dependency `"@ + name@ + "` names more than one source"@,
            diag_m(d).notes == Seq::<Seq<char>>::empty(),
        decreases present.len() - i,
    {
        let (what, site) = present[i];
        if i == 0 {
            d.label(Site::new(file, site.span), owned(what), true);
        } else {
            d.label(Site::new(file, site.span), concat3("and ", what, ""), false);
        }
        proof {
            reveal_strlit("and ");
            reveal_strlit("");
        }
        assert(diag_m(d).labels =~= source_labels(pv, file).take(i + 1));
        i += 1;
    }
    d.note(owned("a dependency has exactly one source: `path`, `git`, `version`, `url`"));
    d.note(owned("only the first would be read; the others would never be fetched or resolved"));
    proof {
        reveal_strlit("dependency `");
        reveal_strlit("` names more than one source");
        assert(source_labels(pv, file).take(i as int) =~= source_labels(pv, file));
        assert(diag_m(d).notes =~= conflict_diag(*t, file, name@)->0.notes);
    }
    Some(d)
}

/// Reads one `[[dependencies]]` table.
#[verifier::rlimit(40)]
fn read_dependency(t: &Table, file: FileId, diags: &mut Vec<Diagnostic>) -> (r: Option<Dependency>)
    ensures
        (match r {
            Some(d) => Some(dep_m(d)),
            None => None,
        }) == dep_of(*t, file).0,
        diags_m(final(diags)@) == diags_m(old(diags)@) + dep_of(*t, file).1,
{
    proof {
        reveal_strlit("a string");
        reveal_strlit("dependencies.name");
        reveal_strlit("dependencies.path");
        reveal_strlit("dependencies.git");
        reveal_strlit("dependencies.url");
        reveal_strlit("dependencies.version");
        reveal_strlit("path");
        reveal_strlit("git");
        reveal_strlit("url");
        reveal_strlit("version");
        reveal_strlit("none");
        reveal_strlit("conflict");
    }
    if t.path.len() != 1 {
        assert(diags_m(diags@) =~= diags_m(old(diags)@) + Seq::<DiagM>::empty());
        return None;
    }
    let name_entry = match entry_of(t, "name") {
        Some(e) => e,
        None => {
            let d = error_at(
                "missing-field",
                owned("dependency has no `name`"),
                Site::new(file, t.site.span),
                owned("write `name = \"...\"`"),
            );
            push_diag(diags, d);
            assert(diags_m(diags@) =~= diags_m(old(diags)@) + dep_of(*t, file).1);
            return None;
        },
    };
    let name = match name_entry.value.as_str() {
        Some(s) => owned(s),
        None => {
            type_err(diags, name_entry.site, "dependencies.name", "a string");
            assert(diags_m(diags@) =~= diags_m(old(diags)@) + dep_of(*t, file).1);
            return None;
        },
    };
    let optional = match entry_of(t, "optional") {
        Some(e) => match e.value.as_bool() {
            Some(b) => b,
            None => false,
        },
        None => false,
    };
    let present = sources_in(t);
    let source_site = if present.len() > 0 {
        present[0].1
    } else {
        t.site
    };
    match conflicting_sources(t, file, name.as_str()) {
        Some(d) => {
            push_diag(diags, d);
            assert(diags_m(diags@) =~= diags_m(old(diags)@) + dep_of(*t, file).1);
            return Some(Dependency { name, kind: DepKind::Unsupported("conflict"), optional, site: t.site, source_site });
        },
        None => {},
    }
    let ghost (km, kd) = kind_of(*t, file, name@);
    let kind = match entry_of(t, "path") {
        Some(e) => match e.value.as_str() {
            Some(p) => DepKind::Path(owned(p)),
            None => {
                type_err(diags, e.site, "dependencies.path", "a string");
                DepKind::Unsupported("path")
            },
        },
        None => match entry_of(t, "git") {
            Some(e) => match e.value.as_str() {
                Some(url) => match pinned_rev(t) {
                    Ok(rev) => DepKind::Git { url: owned(url), rev },
                    Err(found) => {
                        unpinned(diags, file, t, name.as_str(), found);
                        DepKind::Unsupported("git")
                    },
                },
                None => {
                    type_err(diags, e.site, "dependencies.git", "a string");
                    DepKind::Unsupported("git")
                },
            },
            None => match entry_of(t, "url") {
                Some(e) => match e.value.as_str() {
                    Some(url) => match declared_sha256(t) {
                        Ok(sha256) => DepKind::Tarball { url: owned(url), sha256 },
                        Err(found) => {
                            unhashed(diags, file, t, name.as_str(), found);
                            DepKind::Unsupported("url")
                        },
                    },
                    None => {
                        type_err(diags, e.site, "dependencies.url", "a string");
                        DepKind::Unsupported("url")
                    },
                },
                None => match entry_of(t, "version") {
                    Some(e) => match e.value.as_str() {
                        Some(v) => DepKind::PkgConfig { min_version: owned(v) },
                        None => {
                            type_err(diags, e.site, "dependencies.version", "a string");
                            DepKind::Unsupported("version")
                        },
                    },
                    None => {
                        let d = error_at(
                            "incomplete-dependency",
                            concat3("dependency `", name.as_str(), "` has no source"),
                            Site::new(file, t.site.span),
                            owned("one of `path`, `git`, `url` or `version` is required"),
                        );
                        push_diag(diags, d);
                        proof {
                            reveal_strlit("dependency `");
                            reveal_strlit("` has no source");
                        }
                        DepKind::Unsupported("none")
                    },
                },
            },
        },
    };
    assert(dep_kind_m(kind) == km);
    assert(diags_m(diags@) =~= diags_m(old(diags)@) + kd);
    Some(Dependency { name, kind, optional, site: t.site, source_site })
}

/// Reads the `[[dependencies]]` tables.
fn read_dependencies(pkg: &mut Package, doc: &Document, manifest_file: FileId, diags: &mut Vec<Diagnostic>)
    ensures
        package_m(*final(pkg)) == deps_section(package_m(*old(pkg)), *doc, manifest_file).0,
        diags_m(final(diags)@) == diags_m(old(diags)@) + deps_section(package_m(*old(pkg)), *doc, manifest_file).1,
        final(pkg).features == old(pkg).features,
        final(pkg).toolchains == old(pkg).toolchains,
        final(pkg).toolchain == old(pkg).toolchain,
{
    let ghost p0 = package_m(*pkg);
    let path = ["dependencies"];
    let ts = doc.tables_under(&path);
    let ghost tv = ts@.map_values(|t: &Table| *t);
    proof {
        assert(crate::document::strs_view(path@) =~= seq!["dependencies"@]);
    }
    let mut i: usize = 0;
    while i < ts.len()
        invariant
            i <= ts@.len(),
            tv == ts@.map_values(|t: &Table| *t),
            tv == tables_with_prefix(doc.tables@, seq!["dependencies"@]),
            pkg.features == old(pkg).features,
            pkg.toolchains == old(pkg).toolchains,
            pkg.toolchain == old(pkg).toolchain,
            ({
                let (deps, ds) = deps_fold(tv.take(i as int), manifest_file);
                &&& package_m(*pkg) == (PackageM { deps: p0.deps + deps, ..p0 })
                &&& diags_m(diags@) == diags_m(old(diags)@) + ds
            }),
        decreases ts.len() - i,
    {
        assert(tv.take(i + 1).drop_last() =~= tv.take(i as int));
        assert(tv.take(i + 1).last() == *ts[i as int]);
        let ghost before = pkg.deps@;
        let ghost d_before = diags_m(diags@);
        match read_dependency(ts[i], manifest_file, diags) {
            Some(d) => {
                pkg.deps.push(d);
                assert(pkg.deps@.map_values(|d: Dependency| dep_m(d)) =~= before.map_values(|d: Dependency| dep_m(d)).push(dep_m(d)));
            },
            None => {},
        }
        proof {
            let (deps0, ds0) = deps_fold(tv.take(i as int), manifest_file);
            let (dep, dd) = dep_of(tv[i as int], manifest_file);
            assert(diags_m(diags@) =~= diags_m(old(diags)@) + (ds0 + dd));
            match dep {
                Some(x) => {
                    assert(p0.deps + deps0.push(x) =~= (p0.deps + deps0).push(x));
                },
                None => {},
            }
        }
        i += 1;
    }
    assert(tv.take(i as int) =~= tv);
}

// --- the whole manifest --------------------------------------------------------------

/// The last component of a path, as `std::path::Path::file_name` gives it.
pub uninterp spec fn path_file_name(root: Seq<char>) -> Option<Seq<char>>;

/// `std::path::Path::file_name` on a path written as a string. The contract
/// names the result as a function of the characters alone; how std splits
/// a path into components is not restated here. That splitting is the
/// build target's: a backslash separates components on Windows and is an
/// ordinary character on Unix, so the name holds for one target.
#[verifier::external_body]
fn file_name(root: &str) -> (r: Option<String>)
    ensures
        match r {
            Some(s) => path_file_name(root@) == Some(s@),
            None => path_file_name(root@) is None,
        },
{
    match std::path::Path::new(root).file_name() {
        Some(s) => Some(s.to_string_lossy().into_owned()),
        None => None,
    }
}

/// A package before its manifest is read: named after its directory.
pub open spec fn initial_m(id: PackageId, root: Seq<char>, file: FileId) -> PackageM {
    PackageM {
        id,
        name: match path_file_name(root) {
            Some(n) => n,
            None => "unnamed"@,
        },
        version: "0.0.0"@,
        description: Seq::empty(),
        root,
        manifest_file: file,
        build_file: None,
        deps: Seq::empty(),
        features: Map::empty(),
        features_site: None,
        exclusive: Seq::empty(),
        targets: Seq::empty(),
        targets_site: None,
        toolchain: blank_decl(),
        toolchains: Map::empty(),
        toolchains_path: None,
    }
}

/// What a manifest declares about its package, and its diagnostics in
/// order: `[package]`, the top-level tables, the toolchains, the features,
/// the dependencies.
pub open spec fn manifest_m(id: PackageId, doc: Document, root: Seq<char>, file: FileId) -> (PackageM, Seq<DiagM>) {
    let (p1, d1) = package_section(initial_m(id, root, file), doc, file);
    let d2 = tables_diags(doc.tables@, file);
    let (p3, d3) = toolchains_section(p1, doc, file);
    let (p4, d4) = features_section(p3, doc, file);
    let (p5, d5) = deps_section(p4, doc, file);
    (p5, d1 + d2 + d3 + d4 + d5)
}

/// Reads a package from the evaluated document of its `dowel.toml`.
pub fn from_document(
    id: PackageId,
    doc: &Document,
    root: String,
    manifest_file: FileId,
    diags: &mut Vec<Diagnostic>,
) -> (r: Package)
    ensures
        r.wf(),
        package_m(r) == manifest_m(id, *doc, root@, manifest_file).0,
        diags_m(final(diags)@) == diags_m(old(diags)@) + manifest_m(id, *doc, root@, manifest_file).1,
{
    let name = match file_name(root.as_str()) {
        Some(n) => n,
        None => owned("unnamed"),
    };
    let mut pkg = Package {
        id,
        name,
        version: owned("0.0.0"),
        description: String::new(),
        root,
        manifest_file,
        build_file: None,
        deps: Vec::new(),
        features: ByName::new(),
        features_site: None,
        exclusive: Vec::new(),
        targets: Vec::new(),
        targets_site: None,
        toolchain: ToolchainDecl::default(),
        toolchains: ByName::new(),
        toolchains_path: None,
    };
    proof {
        reveal_strlit("unnamed");
        assert(pkg.description@ =~= Seq::<char>::empty());
        assert(pkg.deps@.map_values(|d: Dependency| dep_m(d)) =~= Seq::<DepM>::empty());
        assert(groups_view(pkg.exclusive@) =~= Seq::<(Seq<Seq<char>>, Site)>::empty());
        assert(strings_view(pkg.targets@) =~= Seq::<Seq<char>>::empty());
        assert(features_m(pkg) =~= Map::<Seq<char>, Seq<Seq<char>>>::empty());
        assert(toolchains_m(pkg) =~= Map::<Seq<char>, DeclM>::empty());
        assert(package_m(pkg) == initial_m(id, pkg.root@, manifest_file));
        assert forall|k: Seq<char>| #[trigger] pkg.toolchains.lookup(k) is Some implies pkg.toolchains.lookup(k)->0.wf() by {
            assert(pkg.toolchains.view().len() == 0);
        }
    }
    let ghost p0 = package_m(pkg);
    let ghost d0 = diags_m(diags@);
    read_package(&mut pkg, doc, manifest_file, diags);
    let ghost d1 = diags_m(diags@);
    check_tables(doc, manifest_file, diags);
    let ghost d2 = diags_m(diags@);
    proof {
        assert forall|k: Seq<char>| #[trigger] pkg.toolchains.lookup(k) is Some implies pkg.toolchains.lookup(k)->0.wf() by {}
    }
    read_toolchains(&mut pkg, doc, manifest_file, diags);
    let ghost d3 = diags_m(diags@);
    read_features(&mut pkg, doc, diags);
    let ghost d4 = diags_m(diags@);
    let ghost pre = pkg;
    read_dependencies(&mut pkg, doc, manifest_file, diags);
    proof {
        assert forall|k: Seq<char>| #[trigger] pkg.toolchains.lookup(k) is Some implies pkg.toolchains.lookup(k)->0.wf() by {
            assert(pkg.toolchains.lookup(k) == pre.toolchains.lookup(k));
        }
        let (p1, e1) = package_section(p0, *doc, manifest_file);
        let e2 = tables_diags(doc.tables@, manifest_file);
        let (p3, e3) = toolchains_section(p1, *doc, manifest_file);
        let (p4, e4) = features_section(p3, *doc, manifest_file);
        let (p5, e5) = deps_section(p4, *doc, manifest_file);
        assert(diags_m(diags@) =~= d0 + (e1 + e2 + e3 + e4 + e5));
    }
    pkg
}

} // verus!
