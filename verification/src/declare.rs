//! Assigning the properties that a target table writes. A key names a
//! property of a block; the value is checked against the schema (the
//! property exists, its type accepts the value, a closed vocabulary holds
//! every string that any branch could choose) before it is kept. Whatever
//! fails is a diagnostic, and the property is left unset.

use vstd::prelude::*;
use crate::deps::{lemma_nearest_site_m, nearest_site_m, strs_m};
use crate::diag::{diag_m, diags_m, push_diag, DiagM, Diagnostic, Severity};
use crate::document::strings_view;
use crate::manifest::{holds_word, join_strings, joined};
use crate::schema::{
    artifact_props, artifact_rows, block_text, kind_text, domain_m, inspection_props, inspection_rows, lookup, prop_names, row_of,
    rows_for, rows_of, runner_props, runner_rows, Block, PropDef, PropRow, TableKind,
};
use crate::strs::ByName;
use crate::value::FileId;
use crate::config::{tool_table, tools};
use crate::document::{Document, Entry, Table};
use crate::manifest::tool_names;
use crate::strs::{find_name, rows_view};
use crate::target::{ArtifactDecl, CaseDecl, HarnessDecl};
use crate::model::{case_name_problem, case_name_text};
use crate::value_model::{int_string, int_text};
use crate::value_model::{value_m, ValueM};
use crate::specialize::{first_index, lemma_first_index};
use crate::target::{block_of, PropMap, TargetDecl};
use crate::text::{copy_string, owned, push_str, str_eq};
use crate::value::{nearest_site_of, type_text, Data, MatchArm, Site, Type, Value};

verus! {

// --- strings of a value -----------------------------------------------------------

/// The first string leaf of `v` outside the vocabulary `dom`, in the order
/// a depth-first walk that takes the last child first meets them. Every
/// branch of a `match` and the inside of a `when` count: whichever is
/// chosen later, what is written is checked now.
pub open spec fn first_outside(v: Value, dom: Seq<Seq<char>>) -> Option<Value>
    decreases v, 2nat,
{
    first_outside_data(v, v.data, dom)
}

pub open spec fn first_outside_data(v: Value, d: Data, dom: Seq<Seq<char>>) -> Option<Value>
    decreases d, 1nat,
{
    match d {
        Data::Str(s) => if dom.contains(s@) {
            None
        } else {
            Some(v)
        },
        Data::List(items) => first_outside_items(items@, dom),
        Data::MapOf(rows) => first_outside_rows(rows@, dom),
        Data::Match { arms, .. } => first_outside_arms(arms@, dom),
        Data::When { inner, .. } => first_outside(*inner, dom),
        _ => None,
    }
}

/// The last item first.
pub open spec fn first_outside_items(s: Seq<Value>, dom: Seq<Seq<char>>) -> Option<Value>
    decreases s, 0nat,
{
    if s.len() == 0 {
        None
    } else {
        match first_outside(s[s.len() - 1], dom) {
            Some(x) => Some(x),
            None => first_outside_items(s.subrange(0, s.len() - 1), dom),
        }
    }
}

pub open spec fn first_outside_rows(s: Seq<(String, Value)>, dom: Seq<Seq<char>>) -> Option<Value>
    decreases s, 0nat,
{
    if s.len() == 0 {
        None
    } else {
        match first_outside(s[s.len() - 1].1, dom) {
            Some(x) => Some(x),
            None => first_outside_rows(s.subrange(0, s.len() - 1), dom),
        }
    }
}

pub open spec fn first_outside_arms(s: Seq<MatchArm>, dom: Seq<Seq<char>>) -> Option<Value>
    decreases s, 0nat,
{
    if s.len() == 0 {
        None
    } else {
        match first_outside(s[s.len() - 1].value, dom) {
            Some(x) => Some(x),
            None => first_outside_arms(s.subrange(0, s.len() - 1), dom),
        }
    }
}

/// Finds the first string of `v` outside `dom`.
pub fn find_outside<'a>(v: &'a Value, dom: &Vec<&'static str>) -> (r: Option<&'a Value>)
    ensures
        match r {
            Some(x) => first_outside(*v, strs_m(dom@)) == Some(*x),
            None => first_outside(*v, strs_m(dom@)) is None,
        },
    decreases v,
{
    let ghost dm = strs_m(dom@);
    match &v.data {
        Data::Str(s) => {
            if holds_word(dom.as_slice(), s.as_str()) {
                assert(dom@.map_values(|w: &'static str| w@) =~= dm);
                None
            } else {
                assert(dom@.map_values(|w: &'static str| w@) =~= dm);
                Some(v)
            }
        },
        Data::List(items) => {
            let mut i: usize = items.len();
            assert(items@.take(i as int) =~= items@);
            while i > 0
                invariant
                    i <= items@.len(),
                    v.data == Data::List(*items),
                    dm == strs_m(dom@),
                    first_outside(*v, dm) == first_outside_items(items@.take(i as int), dm),
                decreases i,
            {
                proof {
                    assert(decreases_to!(*v => v.data));
                    assert(decreases_to!(v.data => v.data->List_0));
                    vstd::std_specs::vec::axiom_vec_index_decreases(*items, i - 1);
                }
                let ghost t = items@.take(i as int);
                assert(t.subrange(0, t.len() - 1) =~= items@.take(i - 1));
                assert(t[t.len() - 1] == items@[i - 1]);
                match find_outside(&items[i - 1], dom) {
                    Some(x) => {
                        return Some(x);
                    },
                    None => {},
                }
                i -= 1;
            }
            assert(items@.take(0) =~= Seq::<Value>::empty());
            None
        },
        Data::MapOf(rows) => {
            let mut i: usize = rows.len();
            assert(rows@.take(i as int) =~= rows@);
            while i > 0
                invariant
                    i <= rows@.len(),
                    v.data == Data::MapOf(*rows),
                    dm == strs_m(dom@),
                    first_outside(*v, dm) == first_outside_rows(rows@.take(i as int), dm),
                decreases i,
            {
                proof {
                    assert(decreases_to!(*v => v.data));
                    assert(decreases_to!(v.data => v.data->MapOf_0));
                    vstd::std_specs::vec::axiom_vec_index_decreases(*rows, i - 1);
                    assert(decreases_to!(rows@[i - 1] => rows@[i - 1].1));
                }
                let ghost t = rows@.take(i as int);
                assert(t.subrange(0, t.len() - 1) =~= rows@.take(i - 1));
                assert(t[t.len() - 1] == rows@[i - 1]);
                match find_outside(&rows[i - 1].1, dom) {
                    Some(x) => {
                        return Some(x);
                    },
                    None => {},
                }
                i -= 1;
            }
            assert(rows@.take(0) =~= Seq::<(String, Value)>::empty());
            None
        },
        Data::Match { arms, .. } => {
            let mut i: usize = arms.len();
            assert(arms@.take(i as int) =~= arms@);
            while i > 0
                invariant
                    i <= arms@.len(),
                    v.data matches Data::Match { arms: a, .. } && a == *arms,
                    dm == strs_m(dom@),
                    first_outside(*v, dm) == first_outside_arms(arms@.take(i as int), dm),
                decreases i,
            {
                proof {
                    assert(decreases_to!(*v => v.data));
                    assert(decreases_to!(v.data => v.data->arms));
                    vstd::std_specs::vec::axiom_vec_index_decreases(*arms, i - 1);
                    assert(decreases_to!(arms@[i - 1] => arms@[i - 1].value));
                }
                let ghost t = arms@.take(i as int);
                assert(t.subrange(0, t.len() - 1) =~= arms@.take(i - 1));
                assert(t[t.len() - 1] == arms@[i - 1]);
                match find_outside(&arms[i - 1].value, dom) {
                    Some(x) => {
                        return Some(x);
                    },
                    None => {},
                }
                i -= 1;
            }
            assert(arms@.take(0) =~= Seq::<MatchArm>::empty());
            None
        },
        Data::When { inner, .. } => {
            proof {
                assert(decreases_to!(*v => v.data));
                assert(decreases_to!(v.data => v.data->inner));
            }
            find_outside(inner, dom)
        },
        _ => None,
    }
}

// --- assigning a property --------------------------------------------------------

/// The block that a table name opens, if it names one.
pub open spec fn named_block(s: Seq<char>) -> Option<Block> {
    if s == "public"@ {
        Some(Block::Public)
    } else if s == "private"@ {
        Some(Block::Private)
    } else {
        None
    }
}

/// Where a key written in block `block` puts its value: one segment names a
/// property of the block; in the root, `public.x` and `private.x` name a
/// property of that block; anything else is one dotted name.
pub open spec fn prop_place(block: Block, key: Seq<Seq<char>>) -> (Block, Seq<char>) {
    if key.len() == 1 {
        (block, key[0])
    } else if key.len() == 2 && block == Block::Root && named_block(key[0]) is Some {
        (named_block(key[0])->0, key[1])
    } else {
        (block, joined(key, "."@))
    }
}

/// The names of the properties of a block, in declaration order.
pub open spec fn names_in(block: Block) -> Seq<Seq<char>> {
    rows_for(block).map_values(|row: PropRow| row.0)
}

/// The declaration of `name` in `block`: the first row with that name.
pub open spec fn row_named(block: Block, name: Seq<char>) -> Option<PropRow> {
    match first_index(rows_for(block), |row: PropRow| row.0 == name) {
        Some(i) => Some(rows_for(block)[i]),
        None => None,
    }
}

/// Another block that declares `name`, the root first.
pub open spec fn other_block_with(name: Seq<char>, block: Block) -> Option<Block> {
    if block != Block::Root && row_named(Block::Root, name) is Some {
        Some(Block::Root)
    } else if block != Block::Public && row_named(Block::Public, name) is Some {
        Some(Block::Public)
    } else if block != Block::Private && row_named(Block::Private, name) is Some {
        Some(Block::Private)
    } else {
        None
    }
}

/// The element type of a collection type, or the type itself.
pub open spec fn elem_or(t: Type) -> Type {
    match t {
        Type::List(e) => *e,
        Type::SetOf(e) => *e,
        Type::MapOf(e) => *e,
        _ => t,
    }
}

/// Advice for a value of type `actual` where `expected` is declared: a
/// path is never built from a string.
pub open spec fn path_hint_text(expected: Type, actual: Type) -> Seq<char> {
    if elem_or(expected) == Type::Path && elem_or(actual) == Type::Str {
        "a Path is not built from a string; use `dir(\"...\")`, `file(\"...\")` or `glob(\"...\")`"@
    } else {
        "expected type "@ + type_text(expected)
    }
}

/// The text of a string value; empty for any other.
pub open spec fn str_text(v: Value) -> Seq<char> {
    match v.data {
        Data::Str(s) => s@,
        _ => Seq::empty(),
    }
}

pub open spec fn error_at(code: Seq<char>, message: Seq<char>, at: Site, label: Seq<char>, notes: Seq<Seq<char>>) -> DiagM {
    DiagM { code, severity: Severity::Error, message, labels: seq![(at, label, true)], notes }
}

/// A template holds settings only.
pub open spec fn template_diag(name: Seq<char>, site: Site) -> DiagM {
    error_at(
        "unknown-property"@,
        "a template has no `"@ + name + "`"@,
        site,
        "templates hold settings only"@,
        seq![
            "write it in the target that uses this template"@,
            "`[template.<name>.public]` and `.private` accept: "@ + joined(names_in(Block::Public), ", "@),
        ],
    )
}

/// The block declares no property `name`.
pub open spec fn unknown_prop_diag(block: Block, name: Seq<char>, site: Site) -> DiagM {
    let first = "`"@ + block_text(block) + "` accepts: "@ + joined(names_in(block), ", "@);
    error_at(
        "unknown-property"@,
        "unknown property `"@ + name + "`"@,
        site,
        "`"@ + block_text(block) + "` has no property with this name"@,
        match other_block_with(name, block) {
            Some(b) => seq![first, "`"@ + name + "` is a property of `"@ + block_text(b) + "`"@],
            None => seq![first],
        },
    )
}

/// The declared type does not accept the value's.
pub open spec fn type_diag(name: Seq<char>, declared: Type, given: Type, site: Site) -> DiagM {
    error_at(
        "type-mismatch"@,
        "`"@ + name + "` is "@ + type_text(declared) + " but "@ + type_text(given) + " was given"@,
        site,
        "this value has type "@ + type_text(given),
        seq![path_hint_text(declared, given)],
    )
}

/// A string outside the property's vocabulary.
pub open spec fn domain_diag(name: Seq<char>, leaf: Value, dom: Seq<Seq<char>>, site: Site) -> DiagM {
    error_at(
        "unknown-standard"@,
        "`"@ + str_text(leaf) + "` is not a value of `"@ + name + "`"@,
        match nearest_site_of(leaf.prov.view()) {
            Some(s) => s,
            None => site,
        },
        "not a known language standard"@,
        seq!["`"@ + name + "` accepts: "@ + joined(dom, ", "@)],
    )
}

/// The property was set before in the same block.
pub open spec fn duplicate_diag(name: Seq<char>, prev: Value, site: Site) -> DiagM {
    DiagM {
        code: "duplicate-property"@,
        severity: Severity::Error,
        message: "`"@ + name + "` is set twice in the same block"@,
        labels: match nearest_site_of(prev.prov.view()) {
            Some(s) => seq![(site, "set again here"@, true), (s, "first set here"@, false)],
            None => seq![(site, "set again here"@, true)],
        },
        notes: Seq::empty(),
    }
}

/// Why the assignment of `value` to `key`, written in `block` of `decl` at
/// `site`, is refused; `None` when it is kept.
pub open spec fn refusal(decl: TargetDecl, block: Block, key: Seq<Seq<char>>, value: Value, site: Site) -> Option<DiagM> {
    let (b, n) = prop_place(block, key);
    if decl.kind == TableKind::Template && b == Block::Root {
        Some(template_diag(n, site))
    } else {
        match row_named(b, n) {
            None => Some(unknown_prop_diag(b, n, site)),
            Some(row) => if !crate::value::type_accepts(row.1, value.ty) {
                Some(type_diag(n, row.1, value.ty, site))
            } else if row.4 matches Some(dom) && first_outside(value, dom) is Some {
                Some(domain_diag(n, first_outside(value, row.4->0)->0, row.4->0, site))
            } else {
                match block_of(decl, b).lookup(n) {
                    Some(prev) => Some(duplicate_diag(n, prev, site)),
                    None => None,
                }
            },
        }
    }
}

/// `lookup` gives the first row with the name.
fn lookup_row(block: Block, name: &str) -> (r: Option<PropDef>)
    ensures
        match r {
            Some(p) => row_named(block, name@) == Some(row_of(p)),
            None => row_named(block, name@) is None,
        },
{
    let r = lookup(block, name);
    proof {
        let rows = rows_for(block);
        let p = |row: PropRow| row.0 == name@;
        lemma_first_index(rows, p);
        match &r {
            Some(d) => {
                let i = choose|i: int|
                    0 <= i < rows.len() && rows[i] == row_of(*d) && row_of(*d).0 == name@ && forall|j: int|
                        0 <= j < i ==> (#[trigger] rows[j]).0 != name@;
                match first_index(rows, p) {
                    Some(k) => {
                        assert(!(k < i));
                        assert(!(i < k));
                    },
                    None => {
                        assert(!p(rows[i]));
                    },
                }
            },
            None => {
                if first_index(rows, p) is Some {
                    let k = first_index(rows, p)->0;
                    assert(p(rows[k]));
                }
            },
        }
    }
    r
}

fn join_words(parts: &[&'static str], sep: &str) -> (r: String)
    ensures
        r@ == joined(strs_m(parts@), sep@),
{
    let mut r = String::new();
    let mut i: usize = 0;
    while i < parts.len()
        invariant
            i <= parts@.len(),
            r@ == joined(strs_m(parts@).take(i as int), sep@),
        decreases parts.len() - i,
    {
        assert(strs_m(parts@).take(i + 1).drop_last() =~= strs_m(parts@).take(i as int));
        if i > 0 {
            push_str(&mut r, sep);
        }
        push_str(&mut r, parts[i]);
        proof {
            if i == 0 {
                assert(r@ =~= strs_m(parts@).take(1)[0]);
            }
        }
        i += 1;
    }
    assert(strs_m(parts@).take(i as int) =~= strs_m(parts@));
    r
}

fn names_of_block(block: Block) -> (r: String)
    ensures
        r@ == joined(names_in(block), ", "@),
{
    let names = prop_names(block);
    assert(strs_m(names@) =~= names_in(block));
    join_words(names.as_slice(), ", ")
}

fn other_block(name: &str, block: Block) -> (r: Option<Block>)
    ensures
        r == other_block_with(name@, block),
{
    if block != Block::Root && lookup_row(Block::Root, name).is_some() {
        Some(Block::Root)
    } else if block != Block::Public && lookup_row(Block::Public, name).is_some() {
        Some(Block::Public)
    } else if block != Block::Private && lookup_row(Block::Private, name).is_some() {
        Some(Block::Private)
    } else {
        None
    }
}

fn path_hint(expected: &Type, actual: &Type) -> (r: String)
    ensures
        r@ == path_hint_text(*expected, *actual),
{
    let e = match expected.elem() {
        Some(t) => t,
        None => expected,
    };
    let a = match actual.elem() {
        Some(t) => t,
        None => actual,
    };
    if matches!(e, Type::Path) && matches!(a, Type::Str) {
        owned("a Path is not built from a string; use `dir(\"...\")`, `file(\"...\")` or `glob(\"...\")`")
    } else {
        let mut s = owned("expected type ");
        push_str(&mut s, expected.display().as_str());
        s
    }
}

/// `d` with the properties of block `b` replaced by `m`.
pub open spec fn with_block(d: TargetDecl, b: Block, m: PropMap) -> TargetDecl {
    match b {
        Block::Root => TargetDecl { root: m, ..d },
        Block::Public => TargetDecl { public: m, ..d },
        Block::Private => TargetDecl { private: m, ..d },
    }
}

/// Whether the three blocks of a declaration keep their invariant.
pub open spec fn blocks_wf(d: TargetDecl) -> bool {
    d.root.wf() && d.public.wf() && d.private.wf()
}

/// Assigns `value` to the property that `key` names, written in block
/// `block` of the target `decl` at `site`. The key may name the block
/// itself (`public.includes` in the root). What the schema refuses is a
/// diagnostic and leaves the target as it was; see [`refusal`].
pub fn assign_prop(
    decl: &mut TargetDecl,
    block: Block,
    key: &[String],
    value: &Value,
    site: Site,
    diags: &mut Vec<Diagnostic>,
)
    requires
        blocks_wf(*old(decl)),
    ensures
        blocks_wf(*final(decl)),
        match refusal(*old(decl), block, strings_view(key@), *value, site) {
            Some(d) => *final(decl) == *old(decl) && diags_m(final(diags)@) == diags_m(old(diags)@).push(d),
            None => {
                let (b, n) = prop_place(block, strings_view(key@));
                &&& diags_m(final(diags)@) == diags_m(old(diags)@)
                &&& *final(decl) == with_block(*old(decl), b, block_of(*final(decl), b))
                &&& block_of(*final(decl), b).lookup(n) matches Some(v) && value_m(v) == value_m(*value)
                &&& forall|k: Seq<char>|
                    k != n ==> #[trigger] block_of(*final(decl), b).lookup(k) == block_of(*old(decl), b).lookup(k)
            },
        },
{
    let ghost km = strings_view(key@);
    let ghost refused = refusal(*decl, block, km, *value, site);
    let ghost place = prop_place(block, km);
    let (b, name): (Block, String) = if key.len() == 1 {
        (block, copy_string(&key[0]))
    } else if key.len() == 2 && block == Block::Root && Block::parse(key[0].as_str()).is_some() {
        (Block::parse(key[0].as_str()).unwrap(), copy_string(&key[1]))
    } else {
        (block, join_strings(key, "."))
    };
    assert(b == place.0 && name@ == place.1);
    if decl.kind == TableKind::Template && b == Block::Root {
        let mut msg = owned("a template has no `");
        push_str(&mut msg, name.as_str());
        push_str(&mut msg, "`");
        let mut d = Diagnostic::error("unknown-property", msg);
        d.label(site, owned("templates hold settings only"), true);
        d.note(owned("write it in the target that uses this template"));
        let mut n = owned("`[template.<name>.public]` and `.private` accept: ");
        push_str(&mut n, names_of_block(Block::Public).as_str());
        d.note(n);
        assert(diag_m(d).labels =~= seq![(site, "templates hold settings only"@, true)]);
        assert(diag_m(d).notes =~= template_diag(name@, site).notes);
        push_diag(diags, d);
        return;
    }
    let def = match lookup_row(b, name.as_str()) {
        Some(def) => def,
        None => {
            let mut msg = owned("unknown property `");
            push_str(&mut msg, name.as_str());
            push_str(&mut msg, "`");
            let mut d = Diagnostic::error("unknown-property", msg);
            let mut l = owned("`");
            push_str(&mut l, b.name());
            push_str(&mut l, "` has no property with this name");
            d.label(site, l, true);
            let mut n = owned("`");
            push_str(&mut n, b.name());
            push_str(&mut n, "` accepts: ");
            push_str(&mut n, names_of_block(b).as_str());
            d.note(n);
            match other_block(name.as_str(), b) {
                Some(o) => {
                    let mut n2 = owned("`");
                    push_str(&mut n2, name.as_str());
                    push_str(&mut n2, "` is a property of `");
                    push_str(&mut n2, o.name());
                    push_str(&mut n2, "`");
                    d.note(n2);
                },
                None => {},
            }
            assert(diag_m(d).labels =~= unknown_prop_diag(b, name@, site).labels);
            assert(diag_m(d).notes =~= unknown_prop_diag(b, name@, site).notes);
            push_diag(diags, d);
            return;
        },
    };
    if !def.ty.accepts(&value.ty) {
        let given = value.ty.display();
        let mut msg = owned("`");
        push_str(&mut msg, name.as_str());
        push_str(&mut msg, "` is ");
        push_str(&mut msg, def.ty.display().as_str());
        push_str(&mut msg, " but ");
        push_str(&mut msg, given.as_str());
        push_str(&mut msg, " was given");
        let mut d = Diagnostic::error("type-mismatch", msg);
        let mut l = owned("this value has type ");
        push_str(&mut l, given.as_str());
        d.label(site, l, true);
        d.note(path_hint(&def.ty, &value.ty));
        assert(diag_m(d).labels =~= type_diag(name@, def.ty, value.ty, site).labels);
        assert(diag_m(d).notes =~= type_diag(name@, def.ty, value.ty, site).notes);
        push_diag(diags, d);
        return;
    }
    match &def.domain {
        Some(dom) => {
            assert(domain_m(def.domain)->0 =~= strs_m(dom@));
            match find_outside(value, dom) {
                Some(leaf) => {
                    proof {
                        reveal_strlit("");
                    }
                    let text = match leaf.as_str() {
                        Some(t) => t,
                        None => "",
                    };
                    assert(text@ == str_text(*leaf));
                    let at = match leaf.prov.nearest_site() {
                        Some(s) => s,
                        None => site,
                    };
                    let mut msg = owned("`");
                    push_str(&mut msg, text);
                    push_str(&mut msg, "` is not a value of `");
                    push_str(&mut msg, name.as_str());
                    push_str(&mut msg, "`");
                    let mut d = Diagnostic::error("unknown-standard", msg);
                    d.label(at, owned("not a known language standard"), true);
                    let mut n = owned("`");
                    push_str(&mut n, name.as_str());
                    push_str(&mut n, "` accepts: ");
                    push_str(&mut n, join_words(dom.as_slice(), ", ").as_str());
                    d.note(n);
                    let ghost want = domain_diag(name@, *leaf, strs_m(dom@), site);
                    assert(diag_m(d).labels =~= want.labels);
                    assert(diag_m(d).notes =~= want.notes);
                    push_diag(diags, d);
                    return;
                },
                None => {},
            }
        },
        None => {},
    }
    match decl.props(b).get(name.as_str()) {
        Some(prev) => {
            let mut msg = owned("`");
            push_str(&mut msg, name.as_str());
            push_str(&mut msg, "` is set twice in the same block");
            let mut d = Diagnostic::error("duplicate-property", msg);
            d.label(site, owned("set again here"), true);
            match prev.prov.nearest_site() {
                Some(s) => d.label(s, owned("first set here"), false),
                None => {},
            }
            assert(diag_m(d).labels =~= duplicate_diag(name@, *prev, site).labels);
            assert(diag_m(d).notes =~= duplicate_diag(name@, *prev, site).notes);
            push_diag(diags, d);
            return;
        },
        None => {},
    }
    let props = decl.props_mut(b);
    props.insert(name, value.copy());
}

// --- tool runs ---------------------------------------------------------------------

/// An artifact declaration as plain values: suffix, tool, arguments, and
/// the two sites.
pub type ArtM = (Seq<char>, Seq<char>, Option<ValueM>, Site, Site);

pub open spec fn art_m(a: ArtifactDecl) -> ArtM {
    (
        a.suffix@,
        a.tool@,
        match a.args {
            Some(v) => Some(value_m(v)),
            None => None,
        },
        a.site,
        a.tool_site,
    )
}

pub open spec fn arts_m(s: Seq<ArtifactDecl>) -> Seq<ArtM> {
    s.map_values(|a: ArtifactDecl| art_m(a))
}

/// The fields an item of `artifacts` (`transform`) or `inspect` accepts.
pub open spec fn run_rows(transform: bool) -> Seq<PropRow> {
    if transform {
        artifact_rows()
    } else {
        inspection_rows()
    }
}

pub open spec fn run_what(transform: bool) -> Seq<char> {
    if transform {
        "an artifact"@
    } else {
        "an inspection"@
    }
}

/// The first declaration named `name` among `rows`.
pub open spec fn row_in(rows: Seq<PropRow>, name: Seq<char>) -> Option<PropRow> {
    match first_index(rows, |row: PropRow| row.0 == name) {
        Some(i) => Some(rows[i]),
        None => None,
    }
}

/// What one field of a tool run raises.
pub open spec fn field_diags(name: Seq<char>, v: Value, transform: bool, at: Site) -> Seq<DiagM> {
    match row_in(run_rows(transform), name) {
        Some(def) => if crate::value::type_accepts(def.1, v.ty) {
            Seq::empty()
        } else {
            seq![
                error_at(
                    "type-mismatch"@,
                    "`"@ + name + "` is "@ + type_text(def.1) + " but "@ + type_text(v.ty) + " was given"@,
                    at,
                    "this value has type "@ + type_text(v.ty),
                    Seq::empty(),
                ),
            ]
        },
        None => seq![
            error_at(
                "unknown-property"@,
                "unknown property `"@ + name + "`"@,
                at,
                run_what(transform) + " has no such property"@,
                seq![
                    run_what(transform) + " accepts: "@ + joined(
                        run_rows(transform).map_values(|row: PropRow| row.0),
                        ", "@,
                    ),
                ],
            ),
        ],
    }
}

/// What the fields of a tool run raise, in order.
pub open spec fn fields_diags(rows: Seq<(String, Value)>, transform: bool, at: Site) -> Seq<DiagM>
    decreases rows.len(),
{
    if rows.len() == 0 {
        Seq::empty()
    } else {
        fields_diags(rows.drop_last(), transform, at) + field_diags(rows.last().0@, rows.last().1, transform, at)
    }
}

pub open spec fn tools_listing() -> Seq<char> {
    "declarable tools: "@ + joined(tool_names(), ", "@)
}

/// What one item of `artifacts` or `inspect` declares, and what it raises.
pub open spec fn tool_run_m(e: Entry, transform: bool) -> (Option<ArtM>, Seq<DiagM>) {
    let suffix = joined(strings_view(e.key@), "."@);
    match e.value.data {
        Data::MapOf(fields) => {
            let fd = fields_diags(fields@, transform, e.site);
            match find_name(rows_view(fields@), "tool"@) {
                None => (
                    None,
                    fd.push(
                        error_at(
                            "missing-field"@,
                            "`"@ + suffix + "` has no `tool`"@,
                            e.site,
                            "write `tool = \"...\"`"@,
                            seq![tools_listing()],
                        ),
                    ),
                ),
                Some(tool) => match tool.data {
                    Data::Str(t) => if tool_names().contains(t@) {
                        (
                            Some(
                                (
                                    suffix,
                                    t@,
                                    match find_name(rows_view(fields@), "args"@) {
                                        Some(a) => Some(value_m(a)),
                                        None => None,
                                    },
                                    e.site,
                                    e.site,
                                ),
                            ),
                            fd,
                        )
                    } else {
                        (
                            None,
                            fd.push(
                                error_at(
                                    "unknown-tool"@,
                                    "`"@ + t@ + "` is not a toolchain tool"@,
                                    e.site,
                                    "no such tool"@,
                                    seq![
                                        tools_listing(),
                                        "write the tool's name here, not the command: `[toolchain]` supplies the command"@,
                                    ],
                                ),
                            ),
                        )
                    },
                    _ => (None, fd),
                },
            }
        },
        _ => (
            None,
            seq![
                error_at(
                    "type-mismatch"@,
                    "`"@ + suffix + "` is an inline table but "@ + type_text(e.value.ty) + " was given"@,
                    e.site,
                    "expected `{ tool = \"...\", ... }`"@,
                    seq!["write for example `bin = { tool = \"objcopy\", args = [\"-O\", \"binary\"] }`"@],
                ),
            ],
        ),
    }
}

/// What the items of a table of tool runs declare and raise, in order.
pub open spec fn runs_m(es: Seq<Entry>, transform: bool) -> (Seq<ArtM>, Seq<DiagM>)
    decreases es.len(),
{
    if es.len() == 0 {
        (Seq::empty(), Seq::empty())
    } else {
        let a = runs_m(es.drop_last(), transform);
        let b = tool_run_m(es.last(), transform);
        (
            match b.0 {
                Some(x) => a.0 + seq![x],
                None => a.0,
            },
            a.1 + b.1,
        )
    }
}

/// The value of field `k`: that of the first row with that name.
fn field<'a>(rows: &'a Vec<(String, Value)>, k: &str) -> (r: Option<&'a Value>)
    ensures
        match r {
            Some(v) => find_name(rows_view(rows@), k@) == Some(*v),
            None => find_name(rows_view(rows@), k@) is None,
        },
{
    let ghost rv = rows_view(rows@);
    let mut i: usize = 0;
    assert(rv.skip(0) =~= rv);
    while i < rows.len()
        invariant
            i <= rows@.len(),
            rv == rows_view(rows@),
            find_name(rv, k@) == find_name(rv.skip(i as int), k@),
        decreases rows.len() - i,
    {
        assert(rv.skip(i as int)[0] == (rows@[i as int].0@, rows@[i as int].1));
        if str_eq(rows[i].0.as_str(), k) {
            return Some(&rows[i].1);
        }
        assert(rv.skip(i as int).drop_first() =~= rv.skip(i + 1));
        i += 1;
    }
    None
}

/// The names of the tools a toolchain declares, joined for a note.
fn tools_note() -> (r: String)
    ensures
        r@ == tools_listing(),
{
    let table = tools();
    let mut names: Vec<&'static str> = Vec::new();
    let mut i: usize = 0;
    while i < table.len()
        invariant
            i <= table@.len(),
            table@.len() == tool_table().len(),
            forall|j: int| 0 <= j < table@.len() ==> (#[trigger] table@[j].0@, table@[j].1@, table@[j].2@) == tool_table()[j],
            names@.len() == i,
            forall|j: int| 0 <= j < i ==> (#[trigger] names@[j])@ == tool_table()[j].0,
        decreases table.len() - i,
    {
        names.push(table[i].0);
        i += 1;
    }
    assert(strs_m(names@) =~= tool_names());
    let mut r = owned("declarable tools: ");
    push_str(&mut r, join_words(names.as_slice(), ", ").as_str());
    r
}

/// Whether `t` names a tool of the table of tools.
fn is_tool(t: &str) -> (r: bool)
    ensures
        r == tool_names().contains(t@),
{
    let table = tools();
    let mut i: usize = 0;
    while i < table.len()
        invariant
            i <= table@.len(),
            table@.len() == tool_table().len(),
            forall|j: int| 0 <= j < table@.len() ==> (#[trigger] table@[j].0@, table@[j].1@, table@[j].2@) == tool_table()[j],
            forall|j: int| 0 <= j < i ==> tool_names()[j] != t@,
        decreases table.len() - i,
    {
        assert(tool_names()[i as int] == tool_table()[i as int].0);
        if str_eq(table[i].0, t) {
            return true;
        }
        i += 1;
    }
    false
}

/// Checks the fields of a tool run against what it accepts.
fn check_fields(rows: &Vec<(String, Value)>, transform: bool, at: Site, diags: &mut Vec<Diagnostic>)
    ensures
        diags_m(final(diags)@) == diags_m(old(diags)@) + fields_diags(rows@, transform, at),
{
    let known = if transform {
        artifact_props()
    } else {
        inspection_props()
    };
    let ghost kr = run_rows(transform);
    assert(rows_of(known@) == kr);
    let mut names: Vec<&'static str> = Vec::new();
    let mut k: usize = 0;
    while k < known.len()
        invariant
            k <= known@.len(),
            rows_of(known@) == kr,
            names@.len() == k,
            forall|j: int| 0 <= j < k ==> (#[trigger] names@[j])@ == kr[j].0,
        decreases known.len() - k,
    {
        assert(kr[k as int] == row_of(known@[k as int]));
        names.push(known[k].name);
        k += 1;
    }
    assert(strs_m(names@) =~= kr.map_values(|row: PropRow| row.0));
    let what = if transform {
        "an artifact"
    } else {
        "an inspection"
    };
    let ghost d0 = diags_m(diags@);
    let mut i: usize = 0;
    assert(rows@.take(0) =~= Seq::<(String, Value)>::empty());
    while i < rows.len()
        invariant
            i <= rows@.len(),
            rows_of(known@) == kr,
            kr == run_rows(transform),
            strs_m(names@) == kr.map_values(|row: PropRow| row.0),
            what@ == run_what(transform),
            diags_m(diags@) == d0 + fields_diags(rows@.take(i as int), transform, at),
        decreases rows.len() - i,
    {
        let name = rows[i].0.as_str();
        let v = &rows[i].1;
        let ghost want = field_diags(name@, *v, transform, at);
        let ghost before = diags_m(diags@);
        let mut j: usize = 0;
        let ghost p = |row: PropRow| row.0 == name@;
        while j < known.len()
            invariant
                j <= known@.len(),
                rows_of(known@) == kr,
                p == (|row: PropRow| row.0 == name@),
                forall|m: int| 0 <= m < j ==> !p(#[trigger] kr[m]),
            ensures
                j <= known@.len(),
                forall|m: int| 0 <= m < j ==> !p(#[trigger] kr[m]),
                j < known@.len() ==> p(kr[j as int]),
            decreases known.len() - j,
        {
            assert(kr[j as int] == row_of(known@[j as int]));
            if str_eq(known[j].name, name) {
                break;
            }
            j += 1;
        }
        proof {
            lemma_first_index(kr, p);
        }
        if j < known.len() {
            assert(kr[j as int] == row_of(known@[j as int]));
            proof {
                match first_index(kr, p) {
                    Some(q) => {
                        assert(!(q < j as int));
                        assert(!(j < q));
                    },
                    None => {
                        assert(!p(kr[j as int]));
                    },
                }
            }
            assert(row_in(kr, name@) == Some(row_of(known@[j as int])));
            if !known[j].ty.accepts(&v.ty) {
                let given = v.ty.display();
                let mut msg = owned("`");
                push_str(&mut msg, name);
                push_str(&mut msg, "` is ");
                push_str(&mut msg, known[j].ty.display().as_str());
                push_str(&mut msg, " but ");
                push_str(&mut msg, given.as_str());
                push_str(&mut msg, " was given");
                let mut d = Diagnostic::error("type-mismatch", msg);
                let mut l = owned("this value has type ");
                push_str(&mut l, given.as_str());
                d.label(at, l, true);
                assert(diag_m(d).labels =~= want[0].labels);
                push_diag(diags, d);
            }
        } else {
            proof {
                if first_index(kr, p) is Some {
                    let q = first_index(kr, p)->0;
                    assert(p(kr[q]));
                }
            }
            let mut msg = owned("unknown property `");
            push_str(&mut msg, name);
            push_str(&mut msg, "`");
            let mut d = Diagnostic::error("unknown-property", msg);
            let mut l = owned(what);
            push_str(&mut l, " has no such property");
            d.label(at, l, true);
            let mut n = owned(what);
            push_str(&mut n, " accepts: ");
            push_str(&mut n, join_words(names.as_slice(), ", ").as_str());
            d.note(n);
            assert(diag_m(d).labels =~= want[0].labels);
            assert(diag_m(d).notes =~= want[0].notes);
            push_diag(diags, d);
        }
        proof {
            assert(rows@.take(i + 1).drop_last() =~= rows@.take(i as int));
            assert(rows@.take(i + 1).last() == rows@[i as int]);
            assert(diags_m(diags@) =~= before + want);
        }
        i += 1;
    }
    assert(rows@.take(i as int) =~= rows@);
}

/// Reads one item of `artifacts` (`transform`) or `inspect`.
fn tool_run(e: &Entry, transform: bool, diags: &mut Vec<Diagnostic>) -> (r: Option<ArtifactDecl>)
    ensures
        match r {
            Some(a) => tool_run_m(*e, transform).0 == Some(art_m(a)),
            None => tool_run_m(*e, transform).0 is None,
        },
        diags_m(final(diags)@) == diags_m(old(diags)@) + tool_run_m(*e, transform).1,
{
    let suffix = join_strings(e.key.as_slice(), ".");
    let ghost out = tool_run_m(*e, transform);
    let fields = match &e.value.data {
        Data::MapOf(fields) => fields,
        _ => {
            let mut msg = owned("`");
            push_str(&mut msg, suffix.as_str());
            push_str(&mut msg, "` is an inline table but ");
            push_str(&mut msg, e.value.ty.display().as_str());
            push_str(&mut msg, " was given");
            let mut d = Diagnostic::error("type-mismatch", msg);
            d.label(e.site, owned("expected `{ tool = \"...\", ... }`"), true);
            d.note(owned("write for example `bin = { tool = \"objcopy\", args = [\"-O\", \"binary\"] }`"));
            assert(diag_m(d).labels =~= out.1[0].labels);
            assert(diag_m(d).notes =~= out.1[0].notes);
            push_diag(diags, d);
            assert(diags_m(diags@) =~= diags_m(old(diags)@) + out.1);
            return None;
        },
    };
    check_fields(fields, transform, e.site, diags);
    let ghost fd = diags_m(diags@);
    let tool = match field(fields, "tool") {
        Some(t) => t,
        None => {
            let mut msg = owned("`");
            push_str(&mut msg, suffix.as_str());
            push_str(&mut msg, "` has no `tool`");
            let mut d = Diagnostic::error("missing-field", msg);
            d.label(e.site, owned("write `tool = \"...\"`"), true);
            d.note(tools_note());
            assert(diag_m(d).labels =~= seq![(e.site, "write `tool = \"...\"`"@, true)]);
            assert(diag_m(d).notes =~= seq![tools_listing()]);
            push_diag(diags, d);
            return None;
        },
    };
    let t = match tool.as_str() {
        Some(t) => t,
        None => {
            return None;
        },
    };
    if !is_tool(t) {
        let mut msg = owned("`");
        push_str(&mut msg, t);
        push_str(&mut msg, "` is not a toolchain tool");
        let mut d = Diagnostic::error("unknown-tool", msg);
        d.label(e.site, owned("no such tool"), true);
        d.note(tools_note());
        d.note(owned("write the tool's name here, not the command: `[toolchain]` supplies the command"));
        assert(diag_m(d).labels =~= seq![(e.site, "no such tool"@, true)]);
        assert(diag_m(d).notes =~= seq![
            tools_listing(),
            "write the tool's name here, not the command: `[toolchain]` supplies the command"@,
        ]);
        push_diag(diags, d);
        return None;
    }
    let args = match field(fields, "args") {
        Some(a) => Some(a.copy()),
        None => None,
    };
    let a = ArtifactDecl { suffix, tool: owned(t), args, site: e.site, tool_site: e.site };
    Some(a)
}

/// Declares what the table `[<kind>.<name>.artifacts]` (`transform`) or
/// `[<kind>.<name>.inspect]` lists, in order; an item that cannot be read
/// is a diagnostic and declares nothing.
pub fn declare_tool_runs(decl: &mut TargetDecl, table: &Table, transform: bool, diags: &mut Vec<Diagnostic>)
    ensures
        diags_m(final(diags)@) == diags_m(old(diags)@) + runs_m(table.entries@, transform).1,
        transform ==> arts_m(final(decl).artifacts@) == arts_m(old(decl).artifacts@) + runs_m(table.entries@, transform).0
            && *final(decl) == (TargetDecl { artifacts: final(decl).artifacts, ..*old(decl) }),
        !transform ==> arts_m(final(decl).inspections@) == arts_m(old(decl).inspections@) + runs_m(table.entries@, transform).0
            && *final(decl) == (TargetDecl { inspections: final(decl).inspections, ..*old(decl) }),
{
    let ghost d0 = diags_m(diags@);
    let ghost a0 = if transform { arts_m(decl.artifacts@) } else { arts_m(decl.inspections@) };
    let ghost start = *decl;
    let mut i: usize = 0;
    assert(table.entries@.take(0) =~= Seq::<Entry>::empty());
    while i < table.entries.len()
        invariant
            i <= table.entries@.len(),
            diags_m(diags@) == d0 + runs_m(table.entries@.take(i as int), transform).1,
            transform ==> arts_m(decl.artifacts@) == a0 + runs_m(table.entries@.take(i as int), transform).0
                && *decl == (TargetDecl { artifacts: decl.artifacts, ..start }),
            !transform ==> arts_m(decl.inspections@) == a0 + runs_m(table.entries@.take(i as int), transform).0
                && *decl == (TargetDecl { inspections: decl.inspections, ..start }),
            a0 == if transform { arts_m(start.artifacts@) } else { arts_m(start.inspections@) },
        decreases table.entries.len() - i,
    {
        let ghost before_a = if transform { arts_m(decl.artifacts@) } else { arts_m(decl.inspections@) };
        let ghost one = tool_run_m(table.entries@[i as int], transform);
        let r = tool_run(&table.entries[i], transform, diags);
        match r {
            Some(a) => {
                if transform {
                    decl.artifacts.push(a);
                    assert(arts_m(decl.artifacts@) =~= before_a.push(art_m(a)));
                } else {
                    decl.inspections.push(a);
                    assert(arts_m(decl.inspections@) =~= before_a.push(art_m(a)));
                }
            },
            None => {},
        }
        proof {
            assert(table.entries@.take(i + 1).drop_last() =~= table.entries@.take(i as int));
            assert(table.entries@.take(i + 1).last() == table.entries@[i as int]);
            let prev = runs_m(table.entries@.take(i as int), transform);
            match one.0 {
                Some(x) => {
                    assert(prev.0 + seq![x] =~= prev.0.push(x));
                },
                None => {
                    assert(prev.0 + Seq::<ArtM>::empty() =~= prev.0);
                },
            }
        }
        i += 1;
    }
    assert(table.entries@.take(i as int) =~= table.entries@);
}

// --- cases -------------------------------------------------------------------------

/// The inline tables a case value may register: the table itself, or
/// those of every branch of a `match` and of the inside of a `when`. The
/// condition is not known until specialising, so every branch is checked.
pub open spec fn case_tables_m(v: Value) -> Seq<Seq<(String, Value)>>
    decreases v, 2nat,
{
    case_tables_data(v.data)
}

pub open spec fn case_tables_data(d: Data) -> Seq<Seq<(String, Value)>>
    decreases d, 1nat,
{
    match d {
        Data::MapOf(rows) => seq![rows@],
        Data::When { inner, .. } => case_tables_m(*inner),
        Data::Match { arms, .. } => case_tables_arms(arms@),
        _ => Seq::empty(),
    }
}

pub open spec fn case_tables_arms(s: Seq<MatchArm>) -> Seq<Seq<(String, Value)>>
    decreases s, 0nat,
{
    if s.len() == 0 {
        Seq::empty()
    } else {
        case_tables_arms(s.subrange(0, s.len() - 1)) + case_tables_m(s[s.len() - 1].value)
    }
}

/// The inline tables a case value may register.
pub fn case_tables<'a>(v: &'a Value) -> (r: Vec<&'a Vec<(String, Value)>>)
    ensures
        r@.map_values(|x: &Vec<(String, Value)>| x@) == case_tables_m(*v),
    decreases v,
{
    match &v.data {
        Data::MapOf(rows) => {
            let mut out: Vec<&'a Vec<(String, Value)>> = Vec::new();
            out.push(rows);
            assert(out@.map_values(|x: &Vec<(String, Value)>| x@) =~= seq![rows@]);
            out
        },
        Data::When { inner, .. } => {
            proof {
                assert(decreases_to!(*v => v.data));
                assert(decreases_to!(v.data => v.data->inner));
            }
            case_tables(inner)
        },
        Data::Match { arms, .. } => {
            let mut out: Vec<&'a Vec<(String, Value)>> = Vec::new();
            let mut i: usize = 0;
            assert(arms@.take(0) =~= Seq::<MatchArm>::empty());
            while i < arms.len()
                invariant
                    i <= arms@.len(),
                    v.data matches Data::Match { arms: a, .. } && a == *arms,
                    out@.map_values(|x: &Vec<(String, Value)>| x@) == case_tables_arms(arms@.take(i as int)),
                decreases arms.len() - i,
            {
                proof {
                    assert(decreases_to!(*v => v.data));
                    assert(decreases_to!(v.data => v.data->arms));
                    vstd::std_specs::vec::axiom_vec_index_decreases(*arms, i as int);
                    assert(decreases_to!(arms@[i as int] => arms@[i as int].value));
                }
                let more = case_tables(&arms[i].value);
                let ghost before = out@.map_values(|x: &Vec<(String, Value)>| x@);
                let mut k: usize = 0;
                while k < more.len()
                    invariant
                        k <= more@.len(),
                        out@.map_values(|x: &Vec<(String, Value)>| x@) == before + more@.map_values(
                            |x: &Vec<(String, Value)>| x@,
                        ).take(k as int),
                    decreases more.len() - k,
                {
                    let ghost prev = out@;
                    let ghost mm = more@.map_values(|x: &Vec<(String, Value)>| x@);
                    out.push(more[k]);
                    assert(out@.map_values(|x: &Vec<(String, Value)>| x@) =~= prev.map_values(
                        |x: &Vec<(String, Value)>| x@,
                    ).push(mm[k as int]));
                    assert(mm.take(k + 1) =~= mm.take(k as int).push(mm[k as int]));
                    assert(out@.map_values(|x: &Vec<(String, Value)>| x@) =~= before + mm.take(k + 1));
                    k += 1;
                }
                proof {
                    let t = arms@.take(i + 1);
                    assert(t.subrange(0, t.len() - 1) =~= arms@.take(i as int));
                    assert(t[t.len() - 1] == arms@[i as int]);
                    assert(more@.map_values(|x: &Vec<(String, Value)>| x@).take(more@.len() as int) =~= more@.map_values(
                        |x: &Vec<(String, Value)>| x@,
                    ));
                }
                i += 1;
            }
            assert(arms@.take(i as int) =~= arms@);
            out
        },
        _ => {
            let out: Vec<&'a Vec<(String, Value)>> = Vec::new();
            assert(out@.map_values(|x: &Vec<(String, Value)>| x@) =~= Seq::<Seq<(String, Value)>>::empty());
            out
        },
    }
}

/// What one field of a case raises. `known` is the schema of a case, and
/// `at` where the case was written.
pub open spec fn case_field_diags(prop: Seq<char>, v: Value, kind: TableKind, known: Seq<PropRow>, at: Site) -> Seq<DiagM> {
    let site = match nearest_site_of(v.prov.view()) {
        Some(s) => s,
        None => at,
    };
    match row_in(known, prop) {
        Some(def) => if !crate::value::type_accepts(def.1, v.ty) {
            seq![
                error_at(
                    "type-mismatch"@,
                    "`"@ + prop + "` is "@ + type_text(def.1) + " but "@ + type_text(v.ty) + " was given"@,
                    site,
                    "this value has type "@ + type_text(v.ty),
                    Seq::empty(),
                ),
            ]
        } else if def.0 == "timeout"@ {
            match v.data {
                Data::Int(n) => if n <= 0 {
                    seq![
                        error_at(
                            "invalid-value"@,
                            "`timeout = "@ + int_text(n) + "` is not a duration"@,
                            site,
                            "a timeout is a positive number of seconds"@,
                            seq!["without a timeout dowel waits; writing 0 does not mean \"do not wait\""@],
                        ),
                    ]
                } else {
                    Seq::empty()
                },
                _ => Seq::empty(),
            }
        } else if def.0 == "should_fail"@ && kind == TableKind::Bench {
            seq![
                error_at(
                    "unknown-property"@,
                    "`should_fail` has no meaning in a bench case"@,
                    site,
                    "a benchmark is measured, not judged"@,
                    seq!["a bench case fails when a run exits nonzero; there is no verdict to invert"@],
                ),
            ]
        } else {
            Seq::empty()
        },
        None => seq![
            error_at(
                "unknown-property"@,
                "unknown property `"@ + prop + "`"@,
                site,
                "a case has no such property"@,
                seq!["a case accepts: "@ + joined(known.map_values(|row: PropRow| row.0), ", "@)],
            ),
        ],
    }
}

pub open spec fn case_fields_diags(rows: Seq<(String, Value)>, kind: TableKind, known: Seq<PropRow>, at: Site) -> Seq<DiagM>
    decreases rows.len(),
{
    if rows.len() == 0 {
        Seq::empty()
    } else {
        case_fields_diags(rows.drop_last(), kind, known, at) + case_field_diags(
            rows.last().0@,
            rows.last().1,
            kind,
            known,
            at,
        )
    }
}

pub open spec fn case_tables_diags(ts: Seq<Seq<(String, Value)>>, kind: TableKind, known: Seq<PropRow>, at: Site) -> Seq<DiagM>
    decreases ts.len(),
{
    if ts.len() == 0 {
        Seq::empty()
    } else {
        case_tables_diags(ts.drop_last(), kind, known, at) + case_fields_diags(ts.last(), kind, known, at)
    }
}

/// A case as plain values: its name, its value and where it was written.
pub type CaseM = (Seq<char>, ValueM, Site);

pub open spec fn case_m(c: CaseDecl) -> CaseM {
    (c.name@, value_m(c.value), c.site)
}

pub open spec fn cases_m(s: Seq<CaseDecl>) -> Seq<CaseM> {
    s.map_values(|c: CaseDecl| case_m(c))
}

/// What one item of `cases` registers, and what it raises.
pub open spec fn case_entry_m(e: Entry, kind: TableKind, known: Seq<PropRow>) -> (Option<CaseM>, Seq<DiagM>) {
    let name = joined(strings_view(e.key@), "."@);
    match case_name_text(name) {
        Some(what) => (
            None,
            seq![
                error_at(
                    "invalid-name"@,
                    "`"@ + name + "` cannot be a case name"@,
                    e.site,
                    what,
                    seq![
                        "the case's label is `<package>:<target>/<case>`"@,
                        "the summary, the JSON output, `--failed`, and the command line all read it"@,
                        "use `-` or `_` where a separator is wanted"@,
                    ],
                ),
            ],
        ),
        None => if case_tables_m(e.value).len() == 0 {
            (
                None,
                seq![
                    error_at(
                        "type-mismatch"@,
                        "`"@ + name + "` is an inline table but "@ + type_text(e.value.ty) + " was given"@,
                        e.site,
                        "expected `{ args = [...], ... }`"@,
                        seq![
                            "write for example `parse = { args = [\"parse\"], timeout = 10 }`"@,
                            "a case may be wrapped in `match` / `when`, but every arm has to be an inline table"@,
                        ],
                    ),
                ],
            )
        } else {
            (Some((name, value_m(e.value), e.site)), case_tables_diags(case_tables_m(e.value), kind, known, e.site))
        },
    }
}

pub open spec fn case_entries_m(es: Seq<Entry>, kind: TableKind, known: Seq<PropRow>) -> (Seq<CaseM>, Seq<DiagM>)
    decreases es.len(),
{
    if es.len() == 0 {
        (Seq::empty(), Seq::empty())
    } else {
        let a = case_entries_m(es.drop_last(), kind, known);
        let b = case_entry_m(es.last(), kind, known);
        (
            match b.0 {
                Some(x) => a.0 + seq![x],
                None => a.0,
            },
            a.1 + b.1,
        )
    }
}

/// What `[<kind>.<name>.cases]` registers and raises, for a target of
/// kind `kind` that declares a harness or not.
pub open spec fn cases_outcome(t: Table, kind: TableKind, has_harness: bool, known: Seq<PropRow>) -> (Seq<CaseM>, Seq<DiagM>) {
    if kind != TableKind::Test && kind != TableKind::Bench {
        (
            Seq::empty(),
            seq![
                error_at(
                    "unknown-block"@,
                    "`cases` has no meaning on a `"@ + kind_text(kind) + "` target"@,
                    t.site,
                    "only `test` and `bench` targets register cases"@,
                    seq!["a case is another invocation of the same binary, run by `dowel test` or `dowel bench`"@],
                ),
            ],
        )
    } else if has_harness {
        (
            Seq::empty(),
            seq![
                error_at(
                    "conflicting-declaration"@,
                    "`cases` and `harness` cannot both be declared"@,
                    t.site,
                    "the other one is declared too"@,
                    seq![
                        "both answer what the cases of this target are"@,
                        "`cases` registers them in the manifest; `harness` asks the binary"@,
                    ],
                ),
            ],
        )
    } else if t.entries@.len() == 0 {
        (
            Seq::empty(),
            seq![
                error_at(
                    "empty-block"@,
                    "`["@ + joined(strings_view(t.path@), "."@) + "]` declares no case"@,
                    t.site,
                    "this block is empty"@,
                    seq![
                        "a target with no `cases` block is one test named after the target"@,
                        "remove the block, or add at least one case"@,
                    ],
                ),
            ],
        )
    } else {
        case_entries_m(t.entries@, kind, known)
    }
}

/// The names of declarations, in order.
fn def_names(known: &Vec<PropDef>) -> (r: Vec<&'static str>)
    ensures
        strs_m(r@) == rows_of(known@).map_values(|row: PropRow| row.0),
{
    let mut names: Vec<&'static str> = Vec::new();
    let mut k: usize = 0;
    while k < known.len()
        invariant
            k <= known@.len(),
            names@.len() == k,
            forall|j: int| 0 <= j < k ==> (#[trigger] names@[j])@ == rows_of(known@)[j].0,
        decreases known.len() - k,
    {
        names.push(known[k].name);
        k += 1;
    }
    assert(strs_m(names@) =~= rows_of(known@).map_values(|row: PropRow| row.0));
    names
}

/// The position of the declaration named `name`: the first.
fn def_index(known: &Vec<PropDef>, name: &str) -> (r: Option<usize>)
    ensures
        match r {
            Some(j) => j < known@.len() && row_in(rows_of(known@), name@) == Some(row_of(known@[j as int])),
            None => row_in(rows_of(known@), name@) is None,
        },
{
    let ghost kr = rows_of(known@);
    let ghost p = |row: PropRow| row.0 == name@;
    let mut j: usize = 0;
    while j < known.len()
        invariant
            j <= known@.len(),
            kr == rows_of(known@),
            p == (|row: PropRow| row.0 == name@),
            forall|m: int| 0 <= m < j ==> !p(#[trigger] kr[m]),
        decreases known.len() - j,
    {
        assert(kr[j as int] == row_of(known@[j as int]));
        if str_eq(known[j].name, name) {
            proof {
                lemma_first_index(kr, p);
                match first_index(kr, p) {
                    Some(q) => {
                        assert(!(q < j as int));
                        assert(!(j < q));
                    },
                    None => {
                        assert(!p(kr[j as int]));
                    },
                }
            }
            return Some(j);
        }
        j += 1;
    }
    proof {
        lemma_first_index(kr, p);
        if first_index(kr, p) is Some {
            let q = first_index(kr, p)->0;
            assert(p(kr[q]));
        }
    }
    None
}

/// Checks the fields of one table of a case.
fn check_case_fields(
    rows: &Vec<(String, Value)>,
    kind: TableKind,
    known: &Vec<PropDef>,
    at: Site,
    diags: &mut Vec<Diagnostic>,
)
    ensures
        diags_m(final(diags)@) == diags_m(old(diags)@) + case_fields_diags(rows@, kind, rows_of(known@), at),
{
    let ghost kr = rows_of(known@);
    let names = def_names(known);
    let ghost d0 = diags_m(diags@);
    let mut i: usize = 0;
    assert(rows@.take(0) =~= Seq::<(String, Value)>::empty());
    while i < rows.len()
        invariant
            i <= rows@.len(),
            kr == rows_of(known@),
            strs_m(names@) == kr.map_values(|row: PropRow| row.0),
            diags_m(diags@) == d0 + case_fields_diags(rows@.take(i as int), kind, kr, at),
        decreases rows.len() - i,
    {
        let prop = rows[i].0.as_str();
        let v = &rows[i].1;
        let ghost want = case_field_diags(prop@, *v, kind, kr, at);
        let ghost before = diags_m(diags@);
        let site = match v.prov.nearest_site() {
            Some(s) => s,
            None => at,
        };
        match def_index(known, prop) {
            Some(j) => {
                let def = &known[j];
                if !def.ty.accepts(&v.ty) {
                    let given = v.ty.display();
                    let mut msg = owned("`");
                    push_str(&mut msg, prop);
                    push_str(&mut msg, "` is ");
                    push_str(&mut msg, def.ty.display().as_str());
                    push_str(&mut msg, " but ");
                    push_str(&mut msg, given.as_str());
                    push_str(&mut msg, " was given");
                    let mut d = Diagnostic::error("type-mismatch", msg);
                    let mut l = owned("this value has type ");
                    push_str(&mut l, given.as_str());
                    d.label(site, l, true);
                    assert(diag_m(d).labels =~= want[0].labels);
                    push_diag(diags, d);
                } else if str_eq(def.name, "timeout") {
                    match &v.data {
                        Data::Int(n) => {
                            if *n <= 0 {
                                let mut msg = owned("`timeout = ");
                                push_str(&mut msg, int_string(*n).as_str());
                                push_str(&mut msg, "` is not a duration");
                                let mut d = Diagnostic::error("invalid-value", msg);
                                d.label(site, owned("a timeout is a positive number of seconds"), true);
                                d.note(owned("without a timeout dowel waits; writing 0 does not mean \"do not wait\""));
                                assert(diag_m(d).labels =~= want[0].labels);
                                assert(diag_m(d).notes =~= want[0].notes);
                                push_diag(diags, d);
                            } else {
                                assert(want =~= Seq::<DiagM>::empty());
                            }
                        },
                        _ => {
                            assert(want =~= Seq::<DiagM>::empty());
                        },
                    }
                } else if str_eq(def.name, "should_fail") && kind == TableKind::Bench {
                    let mut d = Diagnostic::error(
                        "unknown-property",
                        owned("`should_fail` has no meaning in a bench case"),
                    );
                    d.label(site, owned("a benchmark is measured, not judged"), true);
                    d.note(owned("a bench case fails when a run exits nonzero; there is no verdict to invert"));
                    assert(diag_m(d).labels =~= want[0].labels);
                    assert(diag_m(d).notes =~= want[0].notes);
                    push_diag(diags, d);
                } else {
                    assert(want =~= Seq::<DiagM>::empty());
                }
            },
            None => {
                let mut msg = owned("unknown property `");
                push_str(&mut msg, prop);
                push_str(&mut msg, "`");
                let mut d = Diagnostic::error("unknown-property", msg);
                d.label(site, owned("a case has no such property"), true);
                let mut n = owned("a case accepts: ");
                push_str(&mut n, join_words(names.as_slice(), ", ").as_str());
                d.note(n);
                assert(diag_m(d).labels =~= want[0].labels);
                assert(diag_m(d).notes =~= want[0].notes);
                push_diag(diags, d);
            },
        }
        proof {
            assert(rows@.take(i + 1).drop_last() =~= rows@.take(i as int));
            assert(rows@.take(i + 1).last() == rows@[i as int]);
            assert(diags_m(diags@) =~= before + want);
        }
        i += 1;
    }
    assert(rows@.take(i as int) =~= rows@);
}

/// Reads one item of `cases`.
fn case_entry(e: &Entry, kind: TableKind, known: &Vec<PropDef>, diags: &mut Vec<Diagnostic>) -> (r: Option<CaseDecl>)
    ensures
        match r {
            Some(c) => case_entry_m(*e, kind, rows_of(known@)).0 == Some(case_m(c)),
            None => case_entry_m(*e, kind, rows_of(known@)).0 is None,
        },
        diags_m(final(diags)@) == diags_m(old(diags)@) + case_entry_m(*e, kind, rows_of(known@)).1,
{
    let ghost kr = rows_of(known@);
    let ghost out = case_entry_m(*e, kind, kr);
    let name = join_strings(e.key.as_slice(), ".");
    match case_name_problem(name.as_str()) {
        Some(what) => {
            let mut msg = owned("`");
            push_str(&mut msg, name.as_str());
            push_str(&mut msg, "` cannot be a case name");
            let mut d = Diagnostic::error("invalid-name", msg);
            d.label(e.site, owned(what), true);
            d.note(owned("the case's label is `<package>:<target>/<case>`"));
            d.note(owned("the summary, the JSON output, `--failed`, and the command line all read it"));
            d.note(owned("use `-` or `_` where a separator is wanted"));
            assert(diag_m(d).labels =~= out.1[0].labels);
            assert(diag_m(d).notes =~= out.1[0].notes);
            push_diag(diags, d);
            assert(diags_m(diags@) =~= diags_m(old(diags)@) + out.1);
            return None;
        },
        None => {},
    }
    let leaves = case_tables(&e.value);
    if leaves.len() == 0 {
        let mut msg = owned("`");
        push_str(&mut msg, name.as_str());
        push_str(&mut msg, "` is an inline table but ");
        push_str(&mut msg, e.value.ty.display().as_str());
        push_str(&mut msg, " was given");
        let mut d = Diagnostic::error("type-mismatch", msg);
        d.label(e.site, owned("expected `{ args = [...], ... }`"), true);
        d.note(owned("write for example `parse = { args = [\"parse\"], timeout = 10 }`"));
        d.note(owned("a case may be wrapped in `match` / `when`, but every arm has to be an inline table"));
        assert(diag_m(d).labels =~= out.1[0].labels);
        assert(diag_m(d).notes =~= out.1[0].notes);
        push_diag(diags, d);
        assert(diags_m(diags@) =~= diags_m(old(diags)@) + out.1);
        return None;
    }
    let ghost ts = case_tables_m(e.value);
    let ghost d0 = diags_m(diags@);
    let mut k: usize = 0;
    assert(ts.take(0) =~= Seq::<Seq<(String, Value)>>::empty());
    while k < leaves.len()
        invariant
            k <= leaves@.len(),
            leaves@.map_values(|x: &Vec<(String, Value)>| x@) == ts,
            kr == rows_of(known@),
            diags_m(diags@) == d0 + case_tables_diags(ts.take(k as int), kind, kr, e.site),
        decreases leaves.len() - k,
    {
        assert(ts[k as int] == leaves@[k as int]@);
        check_case_fields(leaves[k], kind, known, e.site, diags);
        assert(ts.take(k + 1).drop_last() =~= ts.take(k as int));
        assert(ts.take(k + 1).last() == ts[k as int]);
        k += 1;
    }
    assert(ts.take(k as int) =~= ts);
    Some(CaseDecl { name, value: e.value.copy(), site: e.site })
}

/// Registers the cases that `table`, the `[<kind>.<name>.cases]` of
/// `decl`, lists, in order. `known` is the schema of a case. A case is
/// registered when its name can stand in a label and it is an inline
/// table in every branch; its fields are checked against `known` in each.
pub fn declare_cases(decl: &mut TargetDecl, table: &Table, known: &Vec<PropDef>, diags: &mut Vec<Diagnostic>)
    ensures
        diags_m(final(diags)@) == diags_m(old(diags)@) + cases_outcome(
            *table,
            old(decl).kind,
            old(decl).harness is Some,
            rows_of(known@),
        ).1,
        cases_m(final(decl).cases@) == cases_m(old(decl).cases@) + cases_outcome(
            *table,
            old(decl).kind,
            old(decl).harness is Some,
            rows_of(known@),
        ).0,
        *final(decl) == (TargetDecl { cases: final(decl).cases, ..*old(decl) }),
{
    let ghost kr = rows_of(known@);
    let ghost out = cases_outcome(*table, decl.kind, decl.harness is Some, kr);
    let kind = decl.kind;
    if kind != TableKind::Test && kind != TableKind::Bench {
        let mut msg = owned("`cases` has no meaning on a `");
        push_str(&mut msg, kind.name());
        push_str(&mut msg, "` target");
        let mut d = Diagnostic::error("unknown-block", msg);
        d.label(table.site, owned("only `test` and `bench` targets register cases"), true);
        d.note(owned("a case is another invocation of the same binary, run by `dowel test` or `dowel bench`"));
        assert(diag_m(d).labels =~= out.1[0].labels);
        assert(diag_m(d).notes =~= out.1[0].notes);
        push_diag(diags, d);
        assert(diags_m(diags@) =~= diags_m(old(diags)@) + out.1);
        assert(cases_m(decl.cases@) =~= cases_m(old(decl).cases@) + out.0);
        return;
    }
    if decl.harness.is_some() {
        let mut d = Diagnostic::error("conflicting-declaration", owned("`cases` and `harness` cannot both be declared"));
        d.label(table.site, owned("the other one is declared too"), true);
        d.note(owned("both answer what the cases of this target are"));
        d.note(owned("`cases` registers them in the manifest; `harness` asks the binary"));
        assert(diag_m(d).labels =~= out.1[0].labels);
        assert(diag_m(d).notes =~= out.1[0].notes);
        push_diag(diags, d);
        assert(diags_m(diags@) =~= diags_m(old(diags)@) + out.1);
        assert(cases_m(decl.cases@) =~= cases_m(old(decl).cases@) + out.0);
        return;
    }
    if table.entries.len() == 0 {
        let mut msg = owned("`[");
        push_str(&mut msg, join_strings(table.path.as_slice(), ".").as_str());
        push_str(&mut msg, "]` declares no case");
        let mut d = Diagnostic::error("empty-block", msg);
        d.label(table.site, owned("this block is empty"), true);
        d.note(owned("a target with no `cases` block is one test named after the target"));
        d.note(owned("remove the block, or add at least one case"));
        assert(diag_m(d).labels =~= out.1[0].labels);
        assert(diag_m(d).notes =~= out.1[0].notes);
        push_diag(diags, d);
        assert(diags_m(diags@) =~= diags_m(old(diags)@) + out.1);
        assert(cases_m(decl.cases@) =~= cases_m(old(decl).cases@) + out.0);
        return;
    }
    let ghost d0 = diags_m(diags@);
    let ghost c0 = cases_m(decl.cases@);
    let ghost start = *decl;
    let mut i: usize = 0;
    assert(table.entries@.take(0) =~= Seq::<Entry>::empty());
    while i < table.entries.len()
        invariant
            i <= table.entries@.len(),
            kr == rows_of(known@),
            kind == start.kind,
            diags_m(diags@) == d0 + case_entries_m(table.entries@.take(i as int), kind, kr).1,
            cases_m(decl.cases@) == c0 + case_entries_m(table.entries@.take(i as int), kind, kr).0,
            *decl == (TargetDecl { cases: decl.cases, ..start }),
        decreases table.entries.len() - i,
    {
        let ghost before = cases_m(decl.cases@);
        let ghost one = case_entry_m(table.entries@[i as int], kind, kr);
        match case_entry(&table.entries[i], kind, known, diags) {
            Some(c) => {
                decl.cases.push(c);
                assert(cases_m(decl.cases@) =~= before.push(case_m(c)));
            },
            None => {},
        }
        proof {
            assert(table.entries@.take(i + 1).drop_last() =~= table.entries@.take(i as int));
            assert(table.entries@.take(i + 1).last() == table.entries@[i as int]);
            let prev = case_entries_m(table.entries@.take(i as int), kind, kr);
            match one.0 {
                Some(x) => {
                    assert(prev.0 + seq![x] =~= prev.0.push(x));
                },
                None => {
                    assert(prev.0 + Seq::<CaseM>::empty() =~= prev.0);
                },
            }
        }
        i += 1;
    }
    assert(table.entries@.take(i as int) =~= table.entries@);
}

// --- runners -----------------------------------------------------------------------

/// `[runner.<triple>]`: how to run what is built for a target triple that
/// the host cannot run itself.
#[derive(Debug)]
pub struct Runner {
    /// The target triple, the `<triple>` of the header.
    pub triple: String,
    /// Where the header was written.
    pub site: Site,
    /// The declared properties, not specialised.
    pub props: PropMap,
}

/// What the entries of a runner table set, and what they raise: each
/// entry names a runner property of a type that accepts its value, and a
/// later entry for the same name replaces an earlier one.
pub open spec fn runner_fields(es: Seq<Entry>) -> (Map<Seq<char>, ValueM>, Seq<DiagM>)
    decreases es.len(),
{
    if es.len() == 0 {
        (Map::empty(), Seq::empty())
    } else {
        let (m, ds) = runner_fields(es.drop_last());
        let e = es.last();
        let name = joined(strings_view(e.key@), "."@);
        match row_in(runner_rows(), name) {
            None => (
                m,
                ds.push(
                    error_at(
                        "unknown-property"@,
                        "unknown property `"@ + name + "`"@,
                        e.site,
                        "`runner` has no property with this name"@,
                        seq!["`runner` accepts: "@ + joined(runner_rows().map_values(|row: PropRow| row.0), ", "@)],
                    ),
                ),
            ),
            Some(def) => if crate::value::type_accepts(def.1, e.value.ty) {
                (m.insert(name, value_m(e.value)), ds)
            } else {
                (
                    m,
                    ds.push(
                        error_at(
                            "type-mismatch"@,
                            "`"@ + name + "` is "@ + type_text(def.1) + " but "@ + type_text(e.value.ty) + " was given"@,
                            e.site,
                            "this value has type "@ + type_text(e.value.ty),
                            Seq::empty(),
                        ),
                    ),
                )
            },
        }
    }
}

/// What the runner table `t` of file `file` declares, given the runners
/// declared before: the properties of the new runner, if one is declared,
/// and the diagnostics.
pub open spec fn runner_outcome(t: Table, file: FileId, prev: Option<Site>) -> (Option<Map<Seq<char>, ValueM>>, Seq<DiagM>) {
    let at = Site { file, span: t.site.span };
    if t.path@.len() != 2 {
        (
            None,
            seq![
                error_at(
                    "missing-target-name"@,
                    "`["@ + joined(strings_view(t.path@), "."@) + "]` has no target triple"@,
                    at,
                    "write `[runner.<triple>]`"@,
                    seq!["a runner is selected by the target triple (docs/30-devexp.md)"@],
                ),
            ],
        )
    } else {
        let triple = t.path@[1]@;
        let (m, ds) = runner_fields(t.entries@);
        let transfer = m.contains_key("transfer"@);
        let remote = m.contains_key("remote_dir"@);
        if transfer != remote {
            let (present, absent) = if transfer {
                ("transfer"@, "remote_dir"@)
            } else {
                ("remote_dir"@, "transfer"@)
            };
            (
                None,
                ds.push(
                    error_at(
                        "incomplete-runner"@,
                        "runner `"@ + triple + "` sets `"@ + present + "` but not `"@ + absent + "`"@,
                        at,
                        "both are required to transfer the artifact"@,
                        seq![
                            "without `remote_dir` there is no destination path"@,
                            "without `transfer` there is no way to move the artifact"@,
                        ],
                    ),
                ),
            )
        } else if m.contains_key("host"@) && !transfer {
            (
                None,
                ds.push(
                    error_at(
                        "incomplete-runner"@,
                        "runner `"@ + triple + "` sets `host` but does not transfer anything"@,
                        at,
                        "`host` only shapes the transfer destination"@,
                        seq!["set `transfer` and `remote_dir`, or remove `host`"@],
                    ),
                ),
            )
        } else if !m.contains_key("command"@) {
            (
                None,
                ds.push(
                    error_at(
                        "missing-field"@,
                        "runner `"@ + triple + "` has no `command`"@,
                        at,
                        "a runner must say what to launch"@,
                        seq!["for example `command = \"qemu-riscv64\"`"@],
                    ),
                ),
            )
        } else {
            match prev {
                Some(prev_site) => (
                    None,
                    ds.push(
                        DiagM {
                            code: "duplicate-table"@,
                            severity: Severity::Error,
                            message: "runner `"@ + triple + "` is declared twice"@,
                            labels: seq![(at, "declared again here"@, true), (prev_site, "first declared here"@, false)],
                            notes: seq!["a runner belongs to the target triple, not to a package"@],
                        },
                    ),
                ),
                None => (Some(m), ds),
            }
        }
    }
}

/// Where the runner for the triple of `t` was declared before, if it was.
pub open spec fn runner_prev(runners: ByName<Runner>, t: Table) -> Option<Site> {
    if t.path@.len() == 2 {
        match runners.lookup(t.path@[1]@) {
            Some(r) => Some(r.site),
            None => None,
        }
    } else {
        None
    }
}

/// Whether `props` holds exactly what `m` maps.
pub open spec fn holds_map(props: PropMap, m: Map<Seq<char>, ValueM>) -> bool {
    &&& props.wf()
    &&& forall|k: Seq<char>| match #[trigger] props.lookup(k) {
        Some(v) => m.contains_key(k) && value_m(v) == m[k],
        None => !m.contains_key(k),
    }
}

/// Declares the runner that `[runner.<triple>]` in file `file` describes.
/// A runner needs a `command`; `transfer` and `remote_dir` come together,
/// and `host` only with them. A triple has one runner.
pub fn declare_runner(runners: &mut ByName<Runner>, table: &Table, file: FileId, diags: &mut Vec<Diagnostic>)
    requires
        old(runners).wf(),
    ensures
        final(runners).wf(),
        diags_m(final(diags)@) == diags_m(old(diags)@) + runner_outcome(*table, file, runner_prev(*old(runners), *table)).1,
        match runner_outcome(*table, file, runner_prev(*old(runners), *table)).0 {
            None => *final(runners) == *old(runners),
            Some(m) => {
                &&& final(runners).lookup(table.path@[1]@) matches Some(r) && r.triple@ == table.path@[1]@
                    && r.site == table.site && holds_map(r.props, m)
                &&& forall|k: Seq<char>|
                    k != table.path@[1]@ ==> #[trigger] final(runners).lookup(k) == old(runners).lookup(k)
            },
        },
{
    let ghost out = runner_outcome(*table, file, runner_prev(*runners, *table));
    let at = Site::new(file, table.site.span);
    if table.path.len() != 2 {
        let mut msg = owned("`[");
        push_str(&mut msg, join_strings(table.path.as_slice(), ".").as_str());
        push_str(&mut msg, "]` has no target triple");
        let mut d = Diagnostic::error("missing-target-name", msg);
        d.label(at, owned("write `[runner.<triple>]`"), true);
        d.note(owned("a runner is selected by the target triple (docs/30-devexp.md)"));
        assert(diag_m(d).labels =~= out.1[0].labels);
        assert(diag_m(d).notes =~= out.1[0].notes);
        push_diag(diags, d);
        assert(diags_m(diags@) =~= diags_m(old(diags)@) + out.1);
        return;
    }
    let triple = copy_string(&table.path[1]);
    let known = runner_props();
    let names = def_names(&known);
    let mut props: PropMap = ByName::new();
    let ghost d0 = diags_m(diags@);
    let mut i: usize = 0;
    assert(table.entries@.take(0) =~= Seq::<Entry>::empty());
    while i < table.entries.len()
        invariant
            i <= table.entries@.len(),
            rows_of(known@) == runner_rows(),
            strs_m(names@) == runner_rows().map_values(|row: PropRow| row.0),
            holds_map(props, runner_fields(table.entries@.take(i as int)).0),
            diags_m(diags@) == d0 + runner_fields(table.entries@.take(i as int)).1,
        decreases table.entries.len() - i,
    {
        let e = &table.entries[i];
        let ghost prev = runner_fields(table.entries@.take(i as int));
        proof {
            assert(table.entries@.take(i + 1).drop_last() =~= table.entries@.take(i as int));
            assert(table.entries@.take(i + 1).last() == table.entries@[i as int]);
        }
        let name = join_strings(e.key.as_slice(), ".");
        match def_index(&known, name.as_str()) {
            None => {
                let mut msg = owned("unknown property `");
                push_str(&mut msg, name.as_str());
                push_str(&mut msg, "`");
                let mut d = Diagnostic::error("unknown-property", msg);
                d.label(e.site, owned("`runner` has no property with this name"), true);
                let mut n = owned("`runner` accepts: ");
                push_str(&mut n, join_words(names.as_slice(), ", ").as_str());
                d.note(n);
                let ghost want = runner_fields(table.entries@.take(i + 1)).1.last();
                assert(diag_m(d).labels =~= want.labels);
                assert(diag_m(d).notes =~= want.notes);
                push_diag(diags, d);
            },
            Some(j) => {
                if !known[j].ty.accepts(&e.value.ty) {
                    let given = e.value.ty.display();
                    let mut msg = owned("`");
                    push_str(&mut msg, name.as_str());
                    push_str(&mut msg, "` is ");
                    push_str(&mut msg, known[j].ty.display().as_str());
                    push_str(&mut msg, " but ");
                    push_str(&mut msg, given.as_str());
                    push_str(&mut msg, " was given");
                    let mut d = Diagnostic::error("type-mismatch", msg);
                    let mut l = owned("this value has type ");
                    push_str(&mut l, given.as_str());
                    d.label(e.site, l, true);
                    let ghost want = runner_fields(table.entries@.take(i + 1)).1.last();
                    assert(diag_m(d).labels =~= want.labels);
                    assert(diag_m(d).notes =~= want.notes);
                    push_diag(diags, d);
                } else {
                    let ghost before = props;
                    let ghost nm = name@;
                    props.insert(name, e.value.copy());
                    assert(holds_map(props, runner_fields(table.entries@.take(i + 1)).0)) by {
                        assert forall|k: Seq<char>| match #[trigger] props.lookup(k) {
                            Some(v) => runner_fields(table.entries@.take(i + 1)).0.contains_key(k) && value_m(v)
                                == runner_fields(table.entries@.take(i + 1)).0[k],
                            None => !runner_fields(table.entries@.take(i + 1)).0.contains_key(k),
                        } by {
                            if k != nm {
                                assert(props.lookup(k) == before.lookup(k));
                            }
                        }
                    }
                }
            },
        }
        i += 1;
    }
    assert(table.entries@.take(i as int) =~= table.entries@);
    let has_transfer = props.get("transfer").is_some();
    let has_remote = props.get("remote_dir").is_some();
    if has_transfer != has_remote {
        let (present, absent) = if has_transfer {
            ("transfer", "remote_dir")
        } else {
            ("remote_dir", "transfer")
        };
        let mut msg = owned("runner `");
        push_str(&mut msg, triple.as_str());
        push_str(&mut msg, "` sets `");
        push_str(&mut msg, present);
        push_str(&mut msg, "` but not `");
        push_str(&mut msg, absent);
        push_str(&mut msg, "`");
        let mut d = Diagnostic::error("incomplete-runner", msg);
        d.label(at, owned("both are required to transfer the artifact"), true);
        d.note(owned("without `remote_dir` there is no destination path"));
        d.note(owned("without `transfer` there is no way to move the artifact"));
        proof {
            reveal_strlit("transfer");
            reveal_strlit("remote_dir");
        }
        assert(diag_m(d).labels =~= out.1.last().labels);
        assert(diag_m(d).notes =~= out.1.last().notes);
        push_diag(diags, d);
        return;
    }
    if props.get("host").is_some() && !has_transfer {
        let mut msg = owned("runner `");
        push_str(&mut msg, triple.as_str());
        push_str(&mut msg, "` sets `host` but does not transfer anything");
        let mut d = Diagnostic::error("incomplete-runner", msg);
        d.label(at, owned("`host` only shapes the transfer destination"), true);
        d.note(owned("set `transfer` and `remote_dir`, or remove `host`"));
        assert(diag_m(d).labels =~= out.1.last().labels);
        assert(diag_m(d).notes =~= out.1.last().notes);
        push_diag(diags, d);
        return;
    }
    if props.get("command").is_none() {
        let mut msg = owned("runner `");
        push_str(&mut msg, triple.as_str());
        push_str(&mut msg, "` has no `command`");
        let mut d = Diagnostic::error("missing-field", msg);
        d.label(at, owned("a runner must say what to launch"), true);
        d.note(owned("for example `command = \"qemu-riscv64\"`"));
        assert(diag_m(d).labels =~= out.1.last().labels);
        assert(diag_m(d).notes =~= out.1.last().notes);
        push_diag(diags, d);
        return;
    }
    match runners.get(triple.as_str()) {
        Some(prev) => {
            let mut msg = owned("runner `");
            push_str(&mut msg, triple.as_str());
            push_str(&mut msg, "` is declared twice");
            let mut d = Diagnostic::error("duplicate-table", msg);
            d.label(at, owned("declared again here"), true);
            d.note(owned("a runner belongs to the target triple, not to a package"));
            d.label(prev.site, owned("first declared here"), false);
            assert(diag_m(d).labels =~= out.1.last().labels);
            assert(diag_m(d).notes =~= out.1.last().notes);
            push_diag(diags, d);
            return;
        },
        None => {},
    }
    let key = copy_string(&triple);
    runners.insert(key, Runner { triple, site: table.site, props });
}

// --- harness -----------------------------------------------------------------------

/// What the entries of `[test.<name>.harness]` set, and what they raise,
/// against the harness schema `known`: an unknown field or one of the wrong
/// type is a diagnostic; a later entry for a name replaces an earlier one.
pub open spec fn harness_fields(es: Seq<Entry>, known: Seq<PropRow>) -> (Map<Seq<char>, ValueM>, Seq<DiagM>)
    decreases es.len(),
{
    if es.len() == 0 {
        (Map::empty(), Seq::empty())
    } else {
        let (m, ds) = harness_fields(es.drop_last(), known);
        let e = es.last();
        let prop = joined(strings_view(e.key@), "."@);
        match row_in(known, prop) {
            None => (
                m,
                ds.push(
                    error_at(
                        "unknown-property"@,
                        "unknown property `"@ + prop + "`"@,
                        e.site,
                        "a harness has no such property"@,
                        seq!["a harness accepts: "@ + joined(known.map_values(|row: PropRow| row.0), ", "@)],
                    ),
                ),
            ),
            Some(def) => if crate::value::type_accepts(def.1, e.value.ty) {
                (m.insert(prop, value_m(e.value)), ds)
            } else {
                (
                    m,
                    ds.push(
                        error_at(
                            "type-mismatch"@,
                            "`"@ + prop + "` is "@ + type_text(def.1) + " but "@ + type_text(e.value.ty) + " was given"@,
                            e.site,
                            "this value has type "@ + type_text(e.value.ty),
                            Seq::empty(),
                        ),
                    ),
                )
            },
        }
    }
}

/// What `[test.<name>.harness]` declares for a target of kind `kind` that
/// has `cases` registered or not: its fields, when a harness is declared,
/// and the diagnostics.
pub open spec fn harness_outcome(t: Table, kind: TableKind, has_cases: bool, known: Seq<PropRow>) -> (Option<Map<Seq<char>, ValueM>>, Seq<DiagM>) {
    if kind != TableKind::Test {
        (
            None,
            seq![
                error_at(
                    "unknown-block"@,
                    "`harness` has no meaning on a `"@ + kind_text(kind) + "` target"@,
                    t.site,
                    "only `test` targets have a harness"@,
                    seq!["a harness is how `dowel test` asks a binary what cases it contains"@],
                ),
            ],
        )
    } else if has_cases {
        (
            None,
            seq![
                error_at(
                    "conflicting-declaration"@,
                    "`cases` and `harness` cannot both be declared"@,
                    t.site,
                    "the other one is declared too"@,
                    seq![
                        "both answer what the cases of this target are"@,
                        "`cases` registers them in the manifest; `harness` asks the binary"@,
                    ],
                ),
            ],
        )
    } else {
        let (m, ds) = harness_fields(t.entries@, known);
        if !m.contains_key("list"@) {
            (
                None,
                ds.push(
                    error_at(
                        "missing-field"@,
                        "`[harness]` has no `list`"@,
                        t.site,
                        "write `list = [\"--list\"]`"@,
                        seq!["dowel knows no test framework; the arguments that print the case names have to be declared"@],
                    ),
                ),
            )
        } else {
            (Some(m), ds)
        }
    }
}

/// Declares the harness of a test from `[test.<name>.harness]`: how the
/// binary is asked which cases it holds. `known` is the schema of a
/// harness. A harness needs `list`, and excludes `cases`.
pub fn declare_harness(decl: &mut TargetDecl, table: &Table, known: &Vec<PropDef>, diags: &mut Vec<Diagnostic>)
    ensures
        diags_m(final(diags)@) == diags_m(old(diags)@) + harness_outcome(
            *table,
            old(decl).kind,
            old(decl).cases@.len() > 0,
            rows_of(known@),
        ).1,
        match harness_outcome(*table, old(decl).kind, old(decl).cases@.len() > 0, rows_of(known@)).0 {
            None => *final(decl) == *old(decl),
            Some(m) => {
                &&& *final(decl) == (TargetDecl { harness: final(decl).harness, ..*old(decl) })
                &&& final(decl).harness matches Some(h) && h.site == table.site && holds_map(h.fields, m)
            },
        },
{
    let ghost kr = rows_of(known@);
    let ghost out = harness_outcome(*table, decl.kind, decl.cases@.len() > 0, kr);
    if decl.kind != TableKind::Test {
        let mut msg = owned("`harness` has no meaning on a `");
        push_str(&mut msg, decl.kind.name());
        push_str(&mut msg, "` target");
        let mut d = Diagnostic::error("unknown-block", msg);
        d.label(table.site, owned("only `test` targets have a harness"), true);
        d.note(owned("a harness is how `dowel test` asks a binary what cases it contains"));
        assert(diag_m(d).labels =~= out.1[0].labels);
        assert(diag_m(d).notes =~= out.1[0].notes);
        push_diag(diags, d);
        assert(diags_m(diags@) =~= diags_m(old(diags)@) + out.1);
        return;
    }
    if decl.cases.len() > 0 {
        let mut d = Diagnostic::error("conflicting-declaration", owned("`cases` and `harness` cannot both be declared"));
        d.label(table.site, owned("the other one is declared too"), true);
        d.note(owned("both answer what the cases of this target are"));
        d.note(owned("`cases` registers them in the manifest; `harness` asks the binary"));
        assert(diag_m(d).labels =~= out.1[0].labels);
        assert(diag_m(d).notes =~= out.1[0].notes);
        push_diag(diags, d);
        assert(diags_m(diags@) =~= diags_m(old(diags)@) + out.1);
        return;
    }
    let names = def_names(known);
    let mut fields: PropMap = ByName::new();
    let ghost d0 = diags_m(diags@);
    let mut i: usize = 0;
    assert(table.entries@.take(0) =~= Seq::<Entry>::empty());
    while i < table.entries.len()
        invariant
            i <= table.entries@.len(),
            kr == rows_of(known@),
            strs_m(names@) == kr.map_values(|row: PropRow| row.0),
            holds_map(fields, harness_fields(table.entries@.take(i as int), kr).0),
            diags_m(diags@) == d0 + harness_fields(table.entries@.take(i as int), kr).1,
        decreases table.entries.len() - i,
    {
        let e = &table.entries[i];
        proof {
            assert(table.entries@.take(i + 1).drop_last() =~= table.entries@.take(i as int));
            assert(table.entries@.take(i + 1).last() == table.entries@[i as int]);
        }
        let prop = join_strings(e.key.as_slice(), ".");
        match def_index(known, prop.as_str()) {
            None => {
                let mut msg = owned("unknown property `");
                push_str(&mut msg, prop.as_str());
                push_str(&mut msg, "`");
                let mut d = Diagnostic::error("unknown-property", msg);
                d.label(e.site, owned("a harness has no such property"), true);
                let mut n = owned("a harness accepts: ");
                push_str(&mut n, join_words(names.as_slice(), ", ").as_str());
                d.note(n);
                let ghost want = harness_fields(table.entries@.take(i + 1), kr).1.last();
                assert(diag_m(d).labels =~= want.labels);
                assert(diag_m(d).notes =~= want.notes);
                push_diag(diags, d);
            },
            Some(j) => {
                if !known[j].ty.accepts(&e.value.ty) {
                    let given = e.value.ty.display();
                    let mut msg = owned("`");
                    push_str(&mut msg, prop.as_str());
                    push_str(&mut msg, "` is ");
                    push_str(&mut msg, known[j].ty.display().as_str());
                    push_str(&mut msg, " but ");
                    push_str(&mut msg, given.as_str());
                    push_str(&mut msg, " was given");
                    let mut d = Diagnostic::error("type-mismatch", msg);
                    let mut l = owned("this value has type ");
                    push_str(&mut l, given.as_str());
                    d.label(e.site, l, true);
                    let ghost want = harness_fields(table.entries@.take(i + 1), kr).1.last();
                    assert(diag_m(d).labels =~= want.labels);
                    assert(diag_m(d).notes =~= want.notes);
                    push_diag(diags, d);
                } else {
                    let ghost before = fields;
                    let ghost nm = prop@;
                    fields.insert(prop, e.value.copy());
                    assert(holds_map(fields, harness_fields(table.entries@.take(i + 1), kr).0)) by {
                        assert forall|k: Seq<char>| match #[trigger] fields.lookup(k) {
                            Some(v) => harness_fields(table.entries@.take(i + 1), kr).0.contains_key(k) && value_m(v)
                                == harness_fields(table.entries@.take(i + 1), kr).0[k],
                            None => !harness_fields(table.entries@.take(i + 1), kr).0.contains_key(k),
                        } by {
                            if k != nm {
                                assert(fields.lookup(k) == before.lookup(k));
                            }
                        }
                    }
                }
            },
        }
        i += 1;
    }
    assert(table.entries@.take(i as int) =~= table.entries@);
    if fields.get("list").is_none() {
        let mut d = Diagnostic::error("missing-field", owned("`[harness]` has no `list`"));
        d.label(table.site, owned("write `list = [\"--list\"]`"), true);
        d.note(owned("dowel knows no test framework; the arguments that print the case names have to be declared"));
        assert(diag_m(d).labels =~= out.1.last().labels);
        assert(diag_m(d).notes =~= out.1.last().notes);
        push_diag(diags, d);
        return;
    }
    decl.harness = Some(HarnessDecl { fields, site: table.site });
}

// --- tables of a build file --------------------------------------------------------

/// What a table of `dowel.build` is, once its path is read.
pub enum TableClass {
    /// Nothing to declare: a diagnostic was raised, or nothing is written.
    Skip,
    /// `[runner.<triple>]`.
    Runner,
    /// Properties of a target's block: `[kind.name]` or `[kind.name.block]`.
    Props { kind: TableKind, name: String, block: Block },
    /// `[test.<name>.cases]`.
    Cases { kind: TableKind, name: String },
    /// `[test.<name>.harness]`.
    Harness { kind: TableKind, name: String },
    /// `[kind.name.artifacts]` (`transform`) or `[kind.name.inspect]`.
    ToolRuns { kind: TableKind, name: String, transform: bool },
}

/// A class as plain values.
pub enum ClassM {
    Skip,
    Runner,
    Props(TableKind, Seq<char>, Block),
    Cases(TableKind, Seq<char>),
    Harness(TableKind, Seq<char>),
    ToolRuns(TableKind, Seq<char>, bool),
}

pub open spec fn class_m(c: TableClass) -> ClassM {
    match c {
        TableClass::Skip => ClassM::Skip,
        TableClass::Runner => ClassM::Runner,
        TableClass::Props { kind, name, block } => ClassM::Props(kind, name@, block),
        TableClass::Cases { kind, name } => ClassM::Cases(kind, name@),
        TableClass::Harness { kind, name } => ClassM::Harness(kind, name@),
        TableClass::ToolRuns { kind, name, transform } => ClassM::ToolRuns(kind, name@, transform),
    }
}

pub open spec fn all_kinds() -> Seq<TableKind> {
    seq![
        TableKind::Lib,
        TableKind::Bin,
        TableKind::Test,
        TableKind::Bench,
        TableKind::Template,
        TableKind::Toolchain,
        TableKind::Runner,
    ]
}

pub open spec fn implemented(k: TableKind) -> bool {
    k is Lib || k is Bin || k is Test || k is Runner
}

/// The kind a name writes.
pub open spec fn kind_named(s: Seq<char>) -> Option<TableKind> {
    if s == "lib"@ {
        Some(TableKind::Lib)
    } else if s == "bin"@ {
        Some(TableKind::Bin)
    } else if s == "test"@ {
        Some(TableKind::Test)
    } else if s == "bench"@ {
        Some(TableKind::Bench)
    } else if s == "template"@ {
        Some(TableKind::Template)
    } else if s == "toolchain"@ {
        Some(TableKind::Toolchain)
    } else if s == "runner"@ {
        Some(TableKind::Runner)
    } else {
        None
    }
}

pub open spec fn separated() -> Seq<char> {
    "propagating and non-propagating properties are separated syntactically (docs/10-manifest.md)"@
}

/// How a table of file `file` is classified, and what it raises.
pub open spec fn classify_m(t: Table, file: FileId) -> (ClassM, Option<DiagM>) {
    let path = strings_view(t.path@);
    let at = Site { file, span: t.site.span };
    if path.len() == 0 {
        if t.entries@.len() > 0 {
            (
                ClassM::Skip,
                Some(
                    error_at(
                        "toplevel-entry"@,
                        "a key cannot appear at the top level of `dowel.build`"@,
                        t.entries@[0].site,
                        "write it inside a table header"@,
                        seq!["declare a target first, as in `[lib.<name>]`"@],
                    ),
                ),
            )
        } else {
            (ClassM::Skip, None)
        }
    } else {
        match kind_named(path[0]) {
            None => (
                ClassM::Skip,
                Some(
                    error_at(
                        "unknown-kind"@,
                        "unknown table kind `"@ + path[0] + "`"@,
                        at,
                        "no such kind"@,
                        seq!["available kinds: "@ + joined(all_kinds().map_values(|k: TableKind| kind_text(k)), ", "@)],
                    ),
                ),
            ),
            Some(kind) => if !implemented(kind) {
                (
                    ClassM::Skip,
                    Some(
                        error_at(
                            "unimplemented-kind"@,
                            "`"@ + kind_text(kind) + "` is not implemented yet"@,
                            at,
                            "recognized as a kind but not yet processed"@,
                            seq![
                                "implemented kinds: "@ + joined(
                                    all_kinds().filter(|k: TableKind| implemented(k)).map_values(|k: TableKind| kind_text(k)),
                                    ", "@,
                                ),
                            ],
                        ),
                    ),
                )
            } else if kind == TableKind::Runner {
                (ClassM::Runner, None)
            } else if path.len() < 2 {
                (
                    ClassM::Skip,
                    Some(
                        error_at(
                            "missing-target-name"@,
                            "`["@ + joined(path, "."@) + "]` has no target name"@,
                            at,
                            "write `["@ + kind_text(kind) + ".<name>]`"@,
                            Seq::empty(),
                        ),
                    ),
                )
            } else if path.len() == 2 {
                (ClassM::Props(kind, path[1], Block::Root), None)
            } else if path.len() == 3 {
                let b = path[2];
                if b == "artifacts"@ {
                    (ClassM::ToolRuns(kind, path[1], true), None)
                } else if b == "inspect"@ {
                    (ClassM::ToolRuns(kind, path[1], false), None)
                } else if b == "cases"@ {
                    (ClassM::Cases(kind, path[1]), None)
                } else if b == "harness"@ {
                    (ClassM::Harness(kind, path[1]), None)
                } else {
                    match named_block(b) {
                        Some(blk) => (ClassM::Props(kind, path[1], blk), None),
                        None => (
                            ClassM::Skip,
                            Some(
                                error_at(
                                    "unknown-block"@,
                                    "unknown block `"@ + b + "`"@,
                                    at,
                                    "only `public`, `private`, `artifacts`, `inspect`, `cases`, or `harness`"@,
                                    seq![separated()],
                                ),
                            ),
                        ),
                    }
                }
            } else {
                (
                    ClassM::Skip,
                    Some(
                        error_at(
                            "too-deep-table"@,
                            "`["@ + joined(path, "."@) + "]` is nested too deeply"@,
                            at,
                            "expected `[kind.name]` or `[kind.name.block]`"@,
                            seq![
                                if path[2] == "cases"@ || path[2] == "artifacts"@ || path[2] == "inspect"@ {
                                    "the items of `"@ + path[2]
                                        + "` are inline tables inside it, not tables of their own: `<name> = { ... }`"@
                                } else {
                                    separated()
                                },
                            ],
                        ),
                    ),
                )
            },
        }
    }
}

fn kinds_listing(implemented_only: bool) -> (r: String)
    ensures
        r@ == (if implemented_only {
            joined(all_kinds().filter(|k: TableKind| implemented(k)).map_values(|k: TableKind| kind_text(k)), ", "@)
        } else {
            joined(all_kinds().map_values(|k: TableKind| kind_text(k)), ", "@)
        }),
{
    let all = TableKind::ALL;
    let mut names: Vec<&'static str> = Vec::new();
    let ghost sel = if implemented_only {
        all_kinds().filter(|k: TableKind| implemented(k))
    } else {
        all_kinds()
    };
    let mut i: usize = 0;
    assert(all@ == all_kinds());
    proof {
        reveal(Seq::filter);
    }
    assert(all_kinds().take(0).filter(|k: TableKind| implemented(k)) =~= Seq::<TableKind>::empty());
    while i < 7
        invariant
            i <= 7,
            all@ == all_kinds(),
            strs_m(names@) == (if implemented_only {
                all_kinds().take(i as int).filter(|k: TableKind| implemented(k)).map_values(|k: TableKind| kind_text(k))
            } else {
                all_kinds().take(i as int).map_values(|k: TableKind| kind_text(k))
            }),
        decreases 7 - i,
    {
        proof {
            reveal(Seq::filter);
            assert(all_kinds().take(i + 1).drop_last() =~= all_kinds().take(i as int));
        }
        let k = all[i];
        let ghost prev = names@;
        let ghost t = all_kinds().take(i as int);
        let ghost t1 = all_kinds().take(i + 1);
        assert(t1 =~= t.push(k));
        assert(t1.last() == k);
        assert(t1.map_values(|k: TableKind| kind_text(k)) =~= t.map_values(|k: TableKind| kind_text(k)).push(kind_text(k)));
        if !implemented_only || k.is_implemented() {
            names.push(k.name());
            assert(strs_m(names@) =~= strs_m(prev).push(kind_text(k)));
        }
        proof {
            let f0 = t.filter(|k: TableKind| implemented(k));
            let f1 = t1.filter(|k: TableKind| implemented(k));
            if implemented(k) {
                assert(f1 =~= f0.push(k));
                assert(f1.map_values(|k: TableKind| kind_text(k)) =~= f0.map_values(|k: TableKind| kind_text(k)).push(kind_text(k)));
            } else {
                assert(f1 =~= f0);
            }
        }
        assert(strs_m(names@) =~= (if implemented_only {
            all_kinds().take(i + 1).filter(|k: TableKind| implemented(k)).map_values(|k: TableKind| kind_text(k))
        } else {
            all_kinds().take(i + 1).map_values(|k: TableKind| kind_text(k))
        }));
        i += 1;
    }
    assert(all_kinds().take(7) =~= all_kinds());
    join_words(names.as_slice(), ", ")
}

/// A kind's name names that kind.
proof fn lemma_kind_named(k: TableKind)
    ensures
        kind_named(kind_text(k)) == Some(k),
{
    reveal_strlit("lib");
    reveal_strlit("bin");
    reveal_strlit("test");
    reveal_strlit("bench");
    reveal_strlit("template");
    reveal_strlit("toolchain");
    reveal_strlit("runner");
    let t = kind_text(k);
    match k {
        TableKind::Lib => {},
        TableKind::Bin => {
            assert(t[0] != "lib"@[0]);
        },
        TableKind::Test => {
            assert(t[0] != "lib"@[0]);
            assert(t[0] != "bin"@[0]);
        },
        TableKind::Bench => {
            assert(t[0] != "lib"@[0]);
            assert(t[1] != "bin"@[1]);
            assert(t[0] != "test"@[0]);
        },
        TableKind::Template => {
            assert(t[0] != "lib"@[0]);
            assert(t[0] != "bin"@[0]);
            assert(t.len() != "test"@.len());
            assert(t[0] != "bench"@[0]);
        },
        TableKind::Toolchain => {
            assert(t[0] != "lib"@[0]);
            assert(t[0] != "bin"@[0]);
            assert(t.len() != "test"@.len());
            assert(t[0] != "bench"@[0]);
            assert(t.len() != "template"@.len());
        },
        TableKind::Runner => {
            assert(t[0] != "lib"@[0]);
            assert(t[0] != "bin"@[0]);
            assert(t[0] != "test"@[0]);
            assert(t[0] != "bench"@[0]);
            assert(t[0] != "template"@[0]);
            assert(t[0] != "toolchain"@[0]);
        },
    }
}

/// Reads what a table of file `file` is: its kind, its target's name and
/// the block it writes, or the diagnostic that says why it cannot be read.
pub fn classify_table(table: &Table, file: FileId, diags: &mut Vec<Diagnostic>) -> (r: TableClass)
    ensures
        class_m(r) == classify_m(*table, file).0,
        diags_m(final(diags)@) == match classify_m(*table, file).1 {
            Some(d) => diags_m(old(diags)@).push(d),
            None => diags_m(old(diags)@),
        },
{
    let ghost out = classify_m(*table, file);
    let ghost path = strings_view(table.path@);
    let at = Site::new(file, table.site.span);
    if table.path.len() == 0 {
        if table.entries.len() > 0 {
            let mut d = Diagnostic::error("toplevel-entry", owned("a key cannot appear at the top level of `dowel.build`"));
            d.label(table.entries[0].site, owned("write it inside a table header"), true);
            d.note(owned("declare a target first, as in `[lib.<name>]`"));
            assert(diag_m(d).labels =~= out.1->0.labels);
            assert(diag_m(d).notes =~= out.1->0.notes);
            push_diag(diags, d);
        }
        return TableClass::Skip;
    }
    assert(path[0] == table.path@[0]@);
    let kind = match TableKind::parse(table.path[0].as_str()) {
        Some(k) => k,
        None => {
            assert(kind_named(path[0]) is None) by {
                assert(kind_text(TableKind::Lib) == "lib"@);
                assert(kind_text(TableKind::Bin) == "bin"@);
                assert(kind_text(TableKind::Test) == "test"@);
                assert(kind_text(TableKind::Bench) == "bench"@);
                assert(kind_text(TableKind::Template) == "template"@);
                assert(kind_text(TableKind::Toolchain) == "toolchain"@);
                assert(kind_text(TableKind::Runner) == "runner"@);
            }
            let mut msg = owned("unknown table kind `");
            push_str(&mut msg, table.path[0].as_str());
            push_str(&mut msg, "`");
            let mut d = Diagnostic::error("unknown-kind", msg);
            d.label(at, owned("no such kind"), true);
            let mut n = owned("available kinds: ");
            push_str(&mut n, kinds_listing(false).as_str());
            d.note(n);
            assert(diag_m(d).labels =~= out.1->0.labels);
            assert(diag_m(d).notes =~= out.1->0.notes);
            push_diag(diags, d);
            return TableClass::Skip;
        },
    };
    proof {
        lemma_kind_named(kind);
    }
    if !kind.is_implemented() {
        let mut msg = owned("`");
        push_str(&mut msg, kind.name());
        push_str(&mut msg, "` is not implemented yet");
        let mut d = Diagnostic::error("unimplemented-kind", msg);
        d.label(at, owned("recognized as a kind but not yet processed"), true);
        let mut n = owned("implemented kinds: ");
        push_str(&mut n, kinds_listing(true).as_str());
        d.note(n);
        assert(diag_m(d).labels =~= out.1->0.labels);
        assert(diag_m(d).notes =~= out.1->0.notes);
        push_diag(diags, d);
        return TableClass::Skip;
    }
    if kind == TableKind::Runner {
        return TableClass::Runner;
    }
    if table.path.len() < 2 {
        let mut msg = owned("`[");
        push_str(&mut msg, join_strings(table.path.as_slice(), ".").as_str());
        push_str(&mut msg, "]` has no target name");
        let mut d = Diagnostic::error("missing-target-name", msg);
        let mut l = owned("write `[");
        push_str(&mut l, kind.name());
        push_str(&mut l, ".<name>]`");
        d.label(at, l, true);
        assert(diag_m(d).labels =~= out.1->0.labels);
        assert(diag_m(d).notes =~= out.1->0.notes);
        push_diag(diags, d);
        return TableClass::Skip;
    }
    assert(path[1] == table.path@[1]@);
    let name = copy_string(&table.path[1]);
    if table.path.len() == 2 {
        return TableClass::Props { kind, name, block: Block::Root };
    }
    assert(path[2] == table.path@[2]@);
    let b = table.path[2].as_str();
    if table.path.len() == 3 {
        if str_eq(b, "artifacts") {
            return TableClass::ToolRuns { kind, name, transform: true };
        }
        if str_eq(b, "inspect") {
            return TableClass::ToolRuns { kind, name, transform: false };
        }
        if str_eq(b, "cases") {
            return TableClass::Cases { kind, name };
        }
        if str_eq(b, "harness") {
            return TableClass::Harness { kind, name };
        }
        match Block::parse(b) {
            Some(blk) => {
                return TableClass::Props { kind, name, block: blk };
            },
            None => {
                let mut msg = owned("unknown block `");
                push_str(&mut msg, b);
                push_str(&mut msg, "`");
                let mut d = Diagnostic::error("unknown-block", msg);
                d.label(at, owned("only `public`, `private`, `artifacts`, `inspect`, `cases`, or `harness`"), true);
                d.note(owned("propagating and non-propagating properties are separated syntactically (docs/10-manifest.md)"));
                assert(diag_m(d).labels =~= out.1->0.labels);
                assert(diag_m(d).notes =~= out.1->0.notes);
                push_diag(diags, d);
                return TableClass::Skip;
            },
        }
    }
    let mut msg = owned("`[");
    push_str(&mut msg, join_strings(table.path.as_slice(), ".").as_str());
    push_str(&mut msg, "]` is nested too deeply");
    let mut d = Diagnostic::error("too-deep-table", msg);
    d.label(at, owned("expected `[kind.name]` or `[kind.name.block]`"), true);
    if str_eq(b, "cases") || str_eq(b, "artifacts") || str_eq(b, "inspect") {
        let mut n = owned("the items of `");
        push_str(&mut n, b);
        push_str(&mut n, "` are inline tables inside it, not tables of their own: `<name> = { ... }`");
        d.note(n);
    } else {
        d.note(owned("propagating and non-propagating properties are separated syntactically (docs/10-manifest.md)"));
    }
    assert(diag_m(d).labels =~= out.1->0.labels);
    assert(diag_m(d).notes =~= out.1->0.notes);
    push_diag(diags, d);
    TableClass::Skip
}

// --- the targets of a build file, as plain values ---------------------------------

/// Properties as plain values.
pub open spec fn props_m(p: PropMap) -> Map<Seq<char>, ValueM> {
    Map::new(|k: Seq<char>| p.lookup(k) is Some, |k: Seq<char>| value_m(p.lookup(k)->0))
}

/// A target declaration as plain values.
pub struct TargetM {
    pub kind: TableKind,
    pub name: Seq<char>,
    pub site: Site,
    pub root: Map<Seq<char>, ValueM>,
    pub public: Map<Seq<char>, ValueM>,
    pub private: Map<Seq<char>, ValueM>,
    pub artifacts: Seq<ArtM>,
    pub inspections: Seq<ArtM>,
    pub cases: Seq<CaseM>,
    pub harness: Option<(Map<Seq<char>, ValueM>, Site)>,
}

pub open spec fn target_m(d: TargetDecl) -> TargetM {
    TargetM {
        kind: d.kind,
        name: d.name@,
        site: d.site,
        root: props_m(d.root),
        public: props_m(d.public),
        private: props_m(d.private),
        artifacts: arts_m(d.artifacts@),
        inspections: arts_m(d.inspections@),
        cases: cases_m(d.cases@),
        harness: match d.harness {
            Some(h) => Some((props_m(h.fields), h.site)),
            None => None,
        },
    }
}

pub open spec fn targets_m(s: Seq<TargetDecl>) -> Seq<TargetM> {
    s.map_values(|d: TargetDecl| target_m(d))
}

/// A target with nothing declared yet.
pub open spec fn bare_m(kind: TableKind, name: Seq<char>, site: Site) -> TargetM {
    TargetM {
        kind,
        name,
        site,
        root: Map::empty(),
        public: Map::empty(),
        private: Map::empty(),
        artifacts: Seq::empty(),
        inspections: Seq::empty(),
        cases: Seq::empty(),
        harness: None,
    }
}

pub open spec fn block_m(t: TargetM, b: Block) -> Map<Seq<char>, ValueM> {
    match b {
        Block::Root => t.root,
        Block::Public => t.public,
        Block::Private => t.private,
    }
}

pub open spec fn with_block_m(t: TargetM, b: Block, m: Map<Seq<char>, ValueM>) -> TargetM {
    match b {
        Block::Root => TargetM { root: m, ..t },
        Block::Public => TargetM { public: m, ..t },
        Block::Private => TargetM { private: m, ..t },
    }
}

/// The refusal of an assignment, over plain values.
pub open spec fn refusal_m(t: TargetM, block: Block, key: Seq<Seq<char>>, value: Value, site: Site) -> Option<DiagM> {
    let (b, n) = prop_place(block, key);
    if t.kind == TableKind::Template && b == Block::Root {
        Some(template_diag(n, site))
    } else {
        match row_named(b, n) {
            None => Some(unknown_prop_diag(b, n, site)),
            Some(row) => if !crate::value::type_accepts(row.1, value.ty) {
                Some(type_diag(n, row.1, value.ty, site))
            } else if row.4 matches Some(dom) && first_outside(value, dom) is Some {
                Some(domain_diag(n, first_outside(value, row.4->0)->0, row.4->0, site))
            } else if block_m(t, b).contains_key(n) {
                Some(
                    DiagM {
                        code: "duplicate-property"@,
                        severity: Severity::Error,
                        message: "`"@ + n + "` is set twice in the same block"@,
                        labels: match nearest_site_m(block_m(t, b)[n].prov) {
                            Some(s) => seq![(site, "set again here"@, true), (s, "first set here"@, false)],
                            None => seq![(site, "set again here"@, true)],
                        },
                        notes: Seq::empty(),
                    },
                )
            } else {
                None
            }
        }
    }
}

/// What assigning the entries of a table to block `block` does to a target.
pub open spec fn assign_all_m(t: TargetM, block: Block, es: Seq<Entry>) -> (TargetM, Seq<DiagM>)
    decreases es.len(),
{
    if es.len() == 0 {
        (t, Seq::empty())
    } else {
        let (t1, ds) = assign_all_m(t, block, es.drop_last());
        let e = es.last();
        match refusal_m(t1, block, strings_view(e.key@), e.value, e.site) {
            Some(d) => (t1, ds.push(d)),
            None => {
                let (b, n) = prop_place(block, strings_view(e.key@));
                (with_block_m(t1, b, block_m(t1, b).insert(n, value_m(e.value))), ds)
            },
        }
    }
}

proof fn lemma_refusal_m(d: TargetDecl, block: Block, key: Seq<Seq<char>>, value: Value, site: Site)
    ensures
        refusal(d, block, key, value, site) == refusal_m(target_m(d), block, key, value, site),
{
    let (b, n) = prop_place(block, key);
    let t = target_m(d);
    assert(block_m(t, b) == props_m(block_of(d, b)));
    match block_of(d, b).lookup(n) {
        Some(prev) => {
            assert(block_m(t, b).contains_key(n));
            assert(block_m(t, b)[n] == value_m(prev));
            lemma_nearest_site_m(prev.prov.view());
        },
        None => {
            assert(!block_m(t, b).contains_key(n));
        },
    }
}

/// Assigns the entries of `table` to block `block` of `decl`, in order.
pub fn assign_block(decl: &mut TargetDecl, block: Block, table: &Table, diags: &mut Vec<Diagnostic>)
    requires
        blocks_wf(*old(decl)),
    ensures
        blocks_wf(*final(decl)),
        target_m(*final(decl)) == assign_all_m(target_m(*old(decl)), block, table.entries@).0,
        diags_m(final(diags)@) == diags_m(old(diags)@) + assign_all_m(target_m(*old(decl)), block, table.entries@).1,
{
    let ghost t0 = target_m(*decl);
    let ghost d0 = diags_m(diags@);
    let mut i: usize = 0;
    assert(table.entries@.take(0) =~= Seq::<Entry>::empty());
    while i < table.entries.len()
        invariant
            i <= table.entries@.len(),
            blocks_wf(*decl),
            target_m(*decl) == assign_all_m(t0, block, table.entries@.take(i as int)).0,
            diags_m(diags@) == d0 + assign_all_m(t0, block, table.entries@.take(i as int)).1,
        decreases table.entries.len() - i,
    {
        let e = &table.entries[i];
        let ghost before = *decl;
        let ghost bd = diags_m(diags@);
        proof {
            assert(table.entries@.take(i + 1).drop_last() =~= table.entries@.take(i as int));
            assert(table.entries@.take(i + 1).last() == table.entries@[i as int]);
            lemma_refusal_m(before, block, strings_view(e.key@), e.value, e.site);
        }
        assign_prop(decl, block, e.key.as_slice(), &e.value, e.site, diags);
        proof {
            let (b, n) = prop_place(block, strings_view(e.key@));
            match refusal(before, block, strings_view(e.key@), e.value, e.site) {
                Some(dm) => {
                    assert(diags_m(diags@) =~= d0 + assign_all_m(t0, block, table.entries@.take(i + 1)).1);
                },
                None => {
                    let m_new = props_m(block_of(*decl, b));
                    assert(m_new =~= props_m(block_of(before, b)).insert(n, value_m(e.value)));
                    assert(target_m(*decl) == with_block_m(target_m(before), b, m_new));
                },
            }
        }
        i += 1;
    }
    assert(table.entries@.take(i as int) =~= table.entries@);
}

// --- building the targets of a file --------------------------------------------------

/// Runners as plain values: triple to where it was declared and its
/// properties.
pub open spec fn runners_m(r: ByName<Runner>) -> Map<Seq<char>, (Site, Map<Seq<char>, ValueM>)> {
    Map::new(
        |k: Seq<char>| r.lookup(k) is Some,
        |k: Seq<char>| (r.lookup(k)->0.site, props_m(r.lookup(k)->0.props)),
    )
}

pub open spec fn runner_prev_m(rm: Map<Seq<char>, (Site, Map<Seq<char>, ValueM>)>, t: Table) -> Option<Site> {
    if t.path@.len() == 2 && rm.contains_key(t.path@[1]@) {
        Some(rm[t.path@[1]@].0)
    } else {
        None
    }
}

/// What reading a build file has declared so far, as plain values.
pub struct SinkM {
    pub targets: Seq<TargetM>,
    pub runners: Map<Seq<char>, (Site, Map<Seq<char>, ValueM>)>,
    /// Target name to the kind and site of its first declaration.
    pub declared: Map<Seq<char>, (TableKind, Site)>,
    /// Kinds and names already refused for reusing a name.
    pub refused: Set<(TableKind, Seq<char>)>,
    pub diags: Seq<DiagM>,
}

/// The index of the target of kind `kind` named `name`.
pub open spec fn target_index(ts: Seq<TargetM>, kind: TableKind, name: Seq<char>) -> Option<int> {
    first_index(ts, |t: TargetM| t.kind == kind && t.name == name)
}

/// A second kind that reuses a target's name.
pub open spec fn duplicate_target_diag(name: Seq<char>, kind: TableKind, other: TableKind, first: Site, at: Site) -> DiagM {
    DiagM {
        code: "duplicate-target"@,
        severity: Severity::Error,
        message: "`"@ + name + "` is already a "@ + kind_text(other) + " target in this package"@,
        labels: seq![(at, "`"@ + kind_text(kind) + "` cannot reuse the name"@, true), (first, "declared here first"@, false)],
        notes: seq![
            "a target's name has to be unique in its package"@,
            "`target(\"...\")`, the `<package>:<target>` label, and the object directory all key on it"@,
            "rename one, for example `["@ + kind_text(kind) + "."@ + name + "-"@ + kind_text(kind) + "]`"@,
        ],
    }
}

/// What a table of one of a target's blocks does to that target.
pub open spec fn apply_class(c: ClassM, t: Table, tm: TargetM, ck: Seq<PropRow>, hk: Seq<PropRow>) -> (TargetM, Seq<DiagM>) {
    match c {
        ClassM::Props(_, _, b) => assign_all_m(tm, b, t.entries@),
        ClassM::Cases(_, _) => {
            let (cs, ds) = cases_outcome(t, tm.kind, tm.harness is Some, ck);
            (TargetM { cases: tm.cases + cs, ..tm }, ds)
        },
        ClassM::Harness(_, _) => {
            let (h, ds) = harness_outcome(t, tm.kind, tm.cases.len() > 0, hk);
            match h {
                Some(m) => (TargetM { harness: Some((m, t.site)), ..tm }, ds),
                None => (tm, ds),
            }
        },
        ClassM::ToolRuns(_, _, transform) => {
            let (arts, ds) = runs_m(t.entries@, transform);
            if transform {
                (TargetM { artifacts: tm.artifacts + arts, ..tm }, ds)
            } else {
                (TargetM { inspections: tm.inspections + arts, ..tm }, ds)
            }
        },
        _ => (tm, Seq::empty()),
    }
}

/// The kind and name of a target class.
pub open spec fn class_target(c: ClassM) -> Option<(TableKind, Seq<char>)> {
    match c {
        ClassM::Props(k, n, _) => Some((k, n)),
        ClassM::Cases(k, n) => Some((k, n)),
        ClassM::Harness(k, n) => Some((k, n)),
        ClassM::ToolRuns(k, n, _) => Some((k, n)),
        _ => None,
    }
}

/// What reading one table of file `file` does. `ck` and `hk` are the
/// schemas of a case and of a harness.
pub open spec fn take_table(s: SinkM, t: Table, file: FileId, ck: Seq<PropRow>, hk: Seq<PropRow>) -> SinkM {
    let (c, d) = classify_m(t, file);
    let s1 = SinkM {
        diags: match d {
            Some(x) => s.diags.push(x),
            None => s.diags,
        },
        ..s
    };
    match c {
        ClassM::Skip => s1,
        ClassM::Runner => {
            let (o, ds) = runner_outcome(t, file, runner_prev_m(s1.runners, t));
            SinkM {
                runners: match o {
                    Some(m) => s1.runners.insert(t.path@[1]@, (t.site, m)),
                    None => s1.runners,
                },
                diags: s1.diags + ds,
                ..s1
            }
        },
        _ => {
            let (kind, name) = class_target(c)->0;
            if s1.declared.contains_key(name) && s1.declared[name].0 != kind {
                if s1.refused.contains((kind, name)) {
                    s1
                } else {
                    SinkM {
                        refused: s1.refused.insert((kind, name)),
                        diags: s1.diags.push(
                            duplicate_target_diag(
                                name,
                                kind,
                                s1.declared[name].0,
                                s1.declared[name].1,
                                Site { file, span: t.site.span },
                            ),
                        ),
                        ..s1
                    }
                }
            } else {
                let declared = if s1.declared.contains_key(name) {
                    s1.declared
                } else {
                    s1.declared.insert(name, (kind, t.site))
                };
                let (ts, tid) = match target_index(s1.targets, kind, name) {
                    Some(i) => (s1.targets, i),
                    None => (s1.targets.push(bare_m(kind, name, t.site)), s1.targets.len() as int),
                };
                let (tm, ds) = apply_class(c, t, ts[tid], ck, hk);
                SinkM { targets: ts.update(tid, tm), declared, diags: s1.diags + ds, ..s1 }
            }
        },
    }
}

/// What reading the tables in order does.
pub open spec fn take_tables(s: SinkM, ts: Seq<Table>, file: FileId, ck: Seq<PropRow>, hk: Seq<PropRow>) -> SinkM
    decreases ts.len(),
{
    if ts.len() == 0 {
        s
    } else {
        take_table(take_tables(s, ts.drop_last(), file, ck, hk), ts.last(), file, ck, hk)
    }
}

/// What reading a build file has declared so far.
pub struct Sink {
    /// The targets, in the order their first table was written.
    pub targets: Vec<TargetDecl>,
    /// The runners, by target triple.
    pub runners: ByName<Runner>,
    /// Target name to the kind and site of its first declaration.
    pub declared: ByName<(TableKind, Site)>,
    /// Kinds and names already refused for reusing a name.
    pub refused: Vec<(TableKind, String)>,
}

pub open spec fn declared_m(d: ByName<(TableKind, Site)>) -> Map<Seq<char>, (TableKind, Site)> {
    Map::new(|k: Seq<char>| d.lookup(k) is Some, |k: Seq<char>| d.lookup(k)->0)
}

pub open spec fn refused_m(r: Seq<(TableKind, String)>) -> Set<(TableKind, Seq<char>)> {
    r.map_values(|x: (TableKind, String)| (x.0, x.1@)).to_set()
}

pub open spec fn sink_m(s: Sink, diags: Seq<Diagnostic>) -> SinkM {
    SinkM {
        targets: targets_m(s.targets@),
        runners: runners_m(s.runners),
        declared: declared_m(s.declared),
        refused: refused_m(s.refused@),
        diags: diags_m(diags),
    }
}

pub open spec fn sink_wf(s: Sink) -> bool {
    &&& s.runners.wf()
    &&& s.declared.wf()
    &&& forall|i: int| 0 <= i < s.targets@.len() ==> blocks_wf(#[trigger] s.targets@[i])
}

fn find_target(targets: &Vec<TargetDecl>, kind: TableKind, name: &str) -> (r: Option<usize>)
    ensures
        match r {
            Some(i) => target_index(targets_m(targets@), kind, name@) == Some(i as int) && i < targets@.len(),
            None => target_index(targets_m(targets@), kind, name@) is None,
        },
{
    let ghost tm = targets_m(targets@);
    let ghost p = |t: TargetM| t.kind == kind && t.name == name@;
    let mut i: usize = 0;
    while i < targets.len()
        invariant
            i <= targets@.len(),
            tm == targets_m(targets@),
            p == (|t: TargetM| t.kind == kind && t.name == name@),
            forall|m: int| 0 <= m < i ==> !p(#[trigger] tm[m]),
        decreases targets.len() - i,
    {
        assert(tm[i as int] == target_m(targets@[i as int]));
        if targets[i].kind == kind && str_eq(targets[i].name.as_str(), name) {
            proof {
                lemma_first_index(tm, p);
                match first_index(tm, p) {
                    Some(q) => {
                        assert(!(q < i as int));
                        assert(!(i < q));
                    },
                    None => {
                        assert(!p(tm[i as int]));
                    },
                }
            }
            return Some(i);
        }
        i += 1;
    }
    proof {
        lemma_first_index(tm, p);
        if first_index(tm, p) is Some {
            let q = first_index(tm, p)->0;
            assert(p(tm[q]));
        }
    }
    None
}

fn is_refused(refused: &Vec<(TableKind, String)>, kind: TableKind, name: &str) -> (r: bool)
    ensures
        r == refused_m(refused@).contains((kind, name@)),
{
    let ghost rm = refused@.map_values(|x: (TableKind, String)| (x.0, x.1@));
    let mut i: usize = 0;
    while i < refused.len()
        invariant
            i <= refused@.len(),
            rm == refused@.map_values(|x: (TableKind, String)| (x.0, x.1@)),
            forall|m: int| 0 <= m < i ==> rm[m] != (kind, name@),
        decreases refused.len() - i,
    {
        if refused[i].0 == kind && str_eq(refused[i].1.as_str(), name) {
            assert(rm[i as int] == (kind, name@));
            assert(rm.to_set().contains((kind, name@)));
            return true;
        }
        i += 1;
    }
    assert(!rm.to_set().contains((kind, name@))) by {
        if rm.to_set().contains((kind, name@)) {
            let m = choose|m: int| 0 <= m < rm.len() && rm[m] == (kind, name@);
            assert(rm[m] != (kind, name@));
        }
    }
    false
}

/// Reads one table of file `file` into `sink`. `ck` and `hk` are the
/// schemas of a case and of a harness.
pub fn take_table_into(
    sink: &mut Sink,
    table: &Table,
    file: FileId,
    ck: &Vec<PropDef>,
    hk: &Vec<PropDef>,
    diags: &mut Vec<Diagnostic>,
)
    requires
        sink_wf(*old(sink)),
    ensures
        sink_wf(*final(sink)),
        sink_m(*final(sink), final(diags)@) == take_table(
            sink_m(*old(sink), old(diags)@),
            *table,
            file,
            rows_of(ck@),
            rows_of(hk@),
        ),
{
    let ghost s0 = sink_m(*sink, diags@);
    let class = classify_table(table, file, diags);
    let ghost s1 = sink_m(*sink, diags@);
    assert(s1 == (SinkM {
        diags: match classify_m(*table, file).1 {
            Some(x) => s0.diags.push(x),
            None => s0.diags,
        },
        ..s0
    }));
    let ghost want = take_table(s0, *table, file, rows_of(ck@), rows_of(hk@));
    let (kind, name): (TableKind, &str) = match &class {
        TableClass::Skip => {
            return;
        },
        TableClass::Runner => {
            let ghost before = sink.runners;
            proof {
                if table.path@.len() == 2 {
                    match before.lookup(table.path@[1]@) {
                        Some(r) => {
                            assert(runners_m(before).contains_key(table.path@[1]@));
                        },
                        None => {
                            assert(!runners_m(before).contains_key(table.path@[1]@));
                        },
                    }
                }
                assert(runner_prev(before, *table) == runner_prev_m(runners_m(before), *table));
            }
            declare_runner(&mut sink.runners, table, file, diags);
            proof {
                match runner_outcome(*table, file, runner_prev(before, *table)).0 {
                    Some(m) => {
                        let k = table.path@[1]@;
                        let after = sink.runners;
                        let r = after.lookup(k)->0;
                        assert(props_m(r.props) =~= m);
                        assert(runners_m(after) =~= runners_m(before).insert(k, (table.site, m)));
                    },
                    None => {},
                }
            }
            return;
        },
        TableClass::Props { kind, name, .. } => (*kind, name.as_str()),
        TableClass::Cases { kind, name } => (*kind, name.as_str()),
        TableClass::Harness { kind, name } => (*kind, name.as_str()),
        TableClass::ToolRuns { kind, name, .. } => (*kind, name.as_str()),
    };
    assert(class_target(class_m(class)) == Some((kind, name@)));
    match sink.declared.get(name) {
        Some(prev) => {
            let (other, first) = *prev;
            if other != kind {
                if is_refused(&sink.refused, kind, name) {
                    return;
                }
                let ghost rb = sink.refused@;
                sink.refused.push((kind, owned(name)));
                assert(sink.refused@.map_values(|x: (TableKind, String)| (x.0, x.1@)) =~= rb.map_values(
                    |x: (TableKind, String)| (x.0, x.1@),
                ).push((kind, name@)));
                proof {
                    rb.map_values(|x: (TableKind, String)| (x.0, x.1@)).lemma_push_to_set_commute((kind, name@));
                }
                assert(refused_m(sink.refused@) =~= refused_m(rb).insert((kind, name@)));
                let mut msg = owned("`");
                push_str(&mut msg, name);
                push_str(&mut msg, "` is already a ");
                push_str(&mut msg, other.name());
                push_str(&mut msg, " target in this package");
                let mut d = Diagnostic::error("duplicate-target", msg);
                let mut l = owned("`");
                push_str(&mut l, kind.name());
                push_str(&mut l, "` cannot reuse the name");
                d.label(Site::new(file, table.site.span), l, true);
                d.label(first, owned("declared here first"), false);
                d.note(owned("a target's name has to be unique in its package"));
                d.note(owned("`target(\"...\")`, the `<package>:<target>` label, and the object directory all key on it"));
                let mut n = owned("rename one, for example `[");
                push_str(&mut n, kind.name());
                push_str(&mut n, ".");
                push_str(&mut n, name);
                push_str(&mut n, "-");
                push_str(&mut n, kind.name());
                push_str(&mut n, "]`");
                d.note(n);
                let ghost dm = duplicate_target_diag(name@, kind, other, first, Site { file, span: table.site.span });
                assert(diag_m(d).labels =~= dm.labels);
                assert(diag_m(d).notes =~= dm.notes);
                push_diag(diags, d);
                assert(sink_m(*sink, diags@).refused == want.refused);
                return;
            }
        },
        None => {
            let ghost db = sink.declared;
            sink.declared.insert(owned(name), (kind, table.site));
            assert(declared_m(sink.declared) =~= declared_m(db).insert(name@, (kind, table.site)));
        },
    }
    apply_target(&mut sink.targets, kind, name, &class, table, ck, hk, diags);

}

/// Applies a table of one of a target's blocks to the target of kind
/// `kind` named `name`, made bare first where there is none.
fn apply_target(
    targets: &mut Vec<TargetDecl>,
    kind: TableKind,
    name: &str,
    class: &TableClass,
    table: &Table,
    ck: &Vec<PropDef>,
    hk: &Vec<PropDef>,
    diags: &mut Vec<Diagnostic>,
)
    requires
        forall|i: int| 0 <= i < old(targets)@.len() ==> blocks_wf(#[trigger] old(targets)@[i]),
        class_target(class_m(*class)) == Some((kind, name@)),
    ensures
        forall|i: int| 0 <= i < final(targets)@.len() ==> blocks_wf(#[trigger] final(targets)@[i]),
        ({
            let old_ts = targets_m(old(targets)@);
            let (ts, tid) = match target_index(old_ts, kind, name@) {
                Some(i) => (old_ts, i),
                None => (old_ts.push(bare_m(kind, name@, table.site)), old_ts.len() as int),
            };
            let (tm, ds) = apply_class(class_m(*class), *table, ts[tid], rows_of(ck@), rows_of(hk@));
            &&& targets_m(final(targets)@) == ts.update(tid, tm)
            &&& diags_m(final(diags)@) == diags_m(old(diags)@) + ds
        }),
{
    let tid = match find_target(&targets, kind, name) {
        Some(i) => i,
        None => {
            let ghost tb = targets@;
            targets.push(TargetDecl::bare(kind, owned(name), table.site));
            proof {
                let b = targets@[tb.len() as int];
                assert(target_m(b) =~= bare_m(kind, name@, table.site)) by {
                    assert(props_m(b.root) =~= Map::<Seq<char>, ValueM>::empty());
                    assert(props_m(b.public) =~= Map::<Seq<char>, ValueM>::empty());
                    assert(props_m(b.private) =~= Map::<Seq<char>, ValueM>::empty());
                    assert(arts_m(b.artifacts@) =~= Seq::<ArtM>::empty());
                    assert(arts_m(b.inspections@) =~= Seq::<ArtM>::empty());
                    assert(cases_m(b.cases@) =~= Seq::<CaseM>::empty());
                }
                assert(targets_m(targets@) =~= targets_m(tb).push(bare_m(kind, name@, table.site)));
            }
            targets.len() - 1
        },
    };
    let ghost ts_before = targets@;
    let mut t = targets.remove(tid);
    let ghost tm0 = target_m(t);
    assert(blocks_wf(ts_before[tid as int]));
    match class {
        TableClass::Props { block, .. } => {
            assign_block(&mut t, *block, table, diags);
        },
        TableClass::Cases { .. } => {
            declare_cases(&mut t, table, ck, diags);
            assert(target_m(t) =~= TargetM { cases: tm0.cases + cases_outcome(*table, tm0.kind, tm0.harness is Some, rows_of(ck@)).0, ..tm0 });
        },
        TableClass::Harness { .. } => {
            declare_harness(&mut t, table, hk, diags);
            proof {
                match harness_outcome(*table, tm0.kind, tm0.cases.len() > 0, rows_of(hk@)).0 {
                    Some(m) => {
                        let h = t.harness->0;
                        assert(props_m(h.fields) =~= m);
                        assert(target_m(t) =~= TargetM { harness: Some((m, table.site)), ..tm0 });
                    },
                    None => {},
                }
            }
        },
        TableClass::ToolRuns { transform, .. } => {
            declare_tool_runs(&mut t, table, *transform, diags);
            proof {
                if *transform {
                    assert(target_m(t) =~= TargetM { artifacts: tm0.artifacts + runs_m(table.entries@, true).0, ..tm0 });
                } else {
                    assert(target_m(t) =~= TargetM { inspections: tm0.inspections + runs_m(table.entries@, false).0, ..tm0 });
                }
            }
        },
        _ => {},
    }
    let ghost tm1 = target_m(t);
    targets.insert(tid, t);
    proof {
        assert(targets@ =~= ts_before.update(tid as int, t));
        assert(targets_m(targets@) =~= targets_m(ts_before).update(tid as int, tm1));
        assert forall|i: int| 0 <= i < targets@.len() implies blocks_wf(#[trigger] targets@[i]) by {
            if i != tid {
                assert(targets@[i] == ts_before[i]);
            }
        }
    }
}

/// Nothing declared yet; `diags` are the diagnostics already reported.
pub open spec fn empty_sink_m(diags: Seq<DiagM>) -> SinkM {
    SinkM {
        targets: Seq::empty(),
        runners: Map::empty(),
        declared: Map::empty(),
        refused: Set::empty(),
        diags,
    }
}

/// Reads every table of a build file in order: the targets it declares,
/// its runners, and the diagnostics on it. `ck` and `hk` are the schemas
/// of a case and of a harness.
pub fn build_targets(
    doc: &Document,
    ck: &Vec<PropDef>,
    hk: &Vec<PropDef>,
    diags: &mut Vec<Diagnostic>,
) -> (r: Sink)
    ensures
        sink_wf(r),
        names_unique(sink_m(r, final(diags)@)),
        sink_m(r, final(diags)@) == take_tables(
            empty_sink_m(diags_m(old(diags)@)),
            doc.tables@,
            doc.file,
            rows_of(ck@),
            rows_of(hk@),
        ),
{
    let mut sink = Sink {
        targets: Vec::new(),
        runners: ByName::new(),
        declared: ByName::new(),
        refused: Vec::new(),
    };
    proof {
        assert(targets_m(sink.targets@) =~= Seq::<TargetM>::empty());
        assert(runners_m(sink.runners) =~= Map::empty());
        assert(declared_m(sink.declared) =~= Map::empty());
        assert(refused_m(sink.refused@) =~= Set::empty());
        assert(doc.tables@.take(0) =~= Seq::<Table>::empty());
    }
    let mut i: usize = 0;
    while i < doc.tables.len()
        invariant
            i <= doc.tables@.len(),
            sink_wf(sink),
            sink_m(sink, diags@) == take_tables(
                empty_sink_m(diags_m(old(diags)@)),
                doc.tables@.take(i as int),
                doc.file,
                rows_of(ck@),
                rows_of(hk@),
            ),
        decreases doc.tables.len() - i,
    {
        take_table_into(&mut sink, &doc.tables[i], doc.file, ck, hk, diags);
        proof {
            assert(doc.tables@.take(i + 1).drop_last() =~= doc.tables@.take(i as int));
            assert(doc.tables@.take(i + 1).last() == doc.tables@[i as int]);
        }
        i += 1;
    }
    proof {
        assert(doc.tables@.take(i as int) =~= doc.tables@);
        lemma_target_names_unique(doc.tables@, doc.file, rows_of(ck@), rows_of(hk@), diags_m(old(diags)@));
    }
    sink
}

/// The diagnostics of one build file on its own, as an editor shows them
/// for the open file. `ck` and `hk` are the schemas of a case and of a
/// harness.
pub fn check_build_file(doc: &Document, ck: &Vec<PropDef>, hk: &Vec<PropDef>) -> (r: Vec<Diagnostic>)
    ensures
        diags_m(r@) == take_tables(
            empty_sink_m(Seq::empty()),
            doc.tables@,
            doc.file,
            rows_of(ck@),
            rows_of(hk@),
        ).diags,
{
    let mut diags: Vec<Diagnostic> = Vec::new();
    proof {
        assert(diags_m(diags@) =~= Seq::<DiagM>::empty());
    }
    let _ = build_targets(doc, ck, hk, &mut diags);
    diags
}

/// Every target's name is declared as the target's kind, and no two
/// targets share a name.
pub open spec fn names_unique(s: SinkM) -> bool {
    &&& forall|i: int|
        0 <= i < s.targets.len() ==> s.declared.contains_key(#[trigger] s.targets[i].name)
            && s.declared[s.targets[i].name].0 == s.targets[i].kind
    &&& forall|i: int, j: int|
        0 <= i < j < s.targets.len() ==> #[trigger] s.targets[i].name != #[trigger] s.targets[j].name
}

proof fn lemma_assign_all_keeps(t: TargetM, block: Block, es: Seq<Entry>)
    ensures
        assign_all_m(t, block, es).0.kind == t.kind,
        assign_all_m(t, block, es).0.name == t.name,
    decreases es.len(),
{
    if es.len() > 0 {
        lemma_assign_all_keeps(t, block, es.drop_last());
    }
}

proof fn lemma_apply_class_keeps(c: ClassM, t: Table, tm: TargetM, ck: Seq<PropRow>, hk: Seq<PropRow>)
    ensures
        apply_class(c, t, tm, ck, hk).0.kind == tm.kind,
        apply_class(c, t, tm, ck, hk).0.name == tm.name,
{
    if let ClassM::Props(_, _, b) = c {
        lemma_assign_all_keeps(tm, b, t.entries@);
    }
}

proof fn lemma_take_table_unique(s: SinkM, t: Table, file: FileId, ck: Seq<PropRow>, hk: Seq<PropRow>)
    requires
        names_unique(s),
    ensures
        names_unique(take_table(s, t, file, ck, hk)),
{
    let (c, d) = classify_m(t, file);
    match c {
        ClassM::Skip => {},
        ClassM::Runner => {},
        _ => {
            let (kind, name) = class_target(c)->0;
            if !(s.declared.contains_key(name) && s.declared[name].0 != kind) {
                let declared = if s.declared.contains_key(name) {
                    s.declared
                } else {
                    s.declared.insert(name, (kind, t.site))
                };
                let p = |x: TargetM| x.kind == kind && x.name == name;
                lemma_first_index(s.targets, p);
                let (ts, tid) = match target_index(s.targets, kind, name) {
                    Some(i) => (s.targets, i),
                    None => (s.targets.push(bare_m(kind, name, t.site)), s.targets.len() as int),
                };
                if target_index(s.targets, kind, name) is None {
                    assert forall|i: int| 0 <= i < s.targets.len() implies #[trigger] s.targets[i].name != name by {
                        assert(!p(s.targets[i]));
                    }
                }
                assert(ts[tid].kind == kind && ts[tid].name == name);
                lemma_apply_class_keeps(c, t, ts[tid], ck, hk);
                let r = take_table(s, t, file, ck, hk);
                assert(r.targets == ts.update(tid, apply_class(c, t, ts[tid], ck, hk).0));
                assert(r.declared == declared);
                assert forall|i: int| 0 <= i < r.targets.len() implies r.declared.contains_key(
                    #[trigger] r.targets[i].name,
                ) && r.declared[r.targets[i].name].0 == r.targets[i].kind by {
                    if i != tid {
                        assert(r.targets[i] == s.targets[i]);
                    }
                }
                assert forall|i: int, j: int| 0 <= i < j < r.targets.len() implies #[trigger] r.targets[i].name
                    != #[trigger] r.targets[j].name by {
                    if i != tid && j != tid {
                        assert(r.targets[i] == s.targets[i]);
                        assert(r.targets[j] == s.targets[j]);
                    } else if i == tid {
                        assert(r.targets[j] == ts[j]);
                        if tid < s.targets.len() {
                            assert(s.targets[i].name != s.targets[j].name);
                        }
                    } else {
                        assert(r.targets[i] == ts[i]);
                        if tid < s.targets.len() {
                            assert(s.targets[i].name != s.targets[j].name);
                        }
                    }
                }
            }
        },
    }
}

/// Reading a build file gives each target name to one target: a name that
/// a second kind takes up is refused, and a second table of the same kind
/// and name adds to the target that the first one made.
pub proof fn lemma_target_names_unique(
    ts: Seq<Table>,
    file: FileId,
    ck: Seq<PropRow>,
    hk: Seq<PropRow>,
    diags: Seq<DiagM>,
)
    ensures
        names_unique(take_tables(empty_sink_m(diags), ts, file, ck, hk)),
    decreases ts.len(),
{
    if ts.len() > 0 {
        lemma_target_names_unique(ts.drop_last(), file, ck, hk, diags);
        lemma_take_table_unique(take_tables(empty_sink_m(diags), ts.drop_last(), file, ck, hk), ts.last(), file, ck, hk);
    }
}

} // verus!
