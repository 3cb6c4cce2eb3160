//! `dowel why`: how a value reached where it is. The provenance chain is the
//! one the value carries; showing it needs no structure of its own.

use vstd::prelude::*;
use crate::text::{owned, push_char, push_str};
use crate::value::{Data, Value};
use crate::value_model::{lemma_rows_m, lemma_values_m, rows_m, value_m, value_text, values_m, DataM, ValueM};

verus! {

/// The values that reached a property of a target, with how each came.
pub struct Explanation {
    pub target: String,
    pub prop: String,
    pub ty: String,
    pub merge: &'static str,
    pub items: Vec<Item>,
}

pub struct Item {
    pub value: String,
    pub ty: String,
    /// From where the value was declared to where it arrived.
    pub steps: Vec<Step>,
}

pub struct Step {
    pub origin: String,
    pub location: Option<String>,
}

pub open spec fn spaces(n: nat) -> Seq<char> {
    Seq::new(n, |i: int| ' ')
}

/// `s` padded with spaces to at least `w` characters, as `{:<w}` writes it.
pub open spec fn pad(s: Seq<char>, w: nat) -> Seq<char> {
    if s.len() < w {
        s + spaces((w - s.len()) as nat)
    } else {
        s
    }
}

pub open spec fn step_text(i: nat, st: Step) -> Seq<char> {
    spaces(2 * (i + 1)) + "← "@ + pad(st.origin@, 38) + " "@ + match st.location {
        Some(l) => l@,
        None => Seq::empty(),
    } + "\n"@
}

pub open spec fn steps_text(steps: Seq<Step>) -> Seq<char>
    decreases steps.len(),
{
    if steps.len() == 0 {
        Seq::empty()
    } else {
        steps_text(steps.drop_last()) + step_text((steps.len() - 1) as nat, steps.last())
    }
}

pub open spec fn item_text(it: Item) -> Seq<char> {
    pad(it.value@, 40) + " "@ + it.ty@ + "\n"@ + steps_text(it.steps@) + "\n"@
}

pub open spec fn items_text(items: Seq<Item>) -> Seq<char>
    decreases items.len(),
{
    if items.len() == 0 {
        Seq::empty()
    } else {
        items_text(items.drop_last()) + item_text(items.last())
    }
}

/// The text of an explanation: a heading, then each value with the steps
/// it came through, indented one level more at each step.
pub open spec fn explanation_text(e: Explanation) -> Seq<char> {
    e.target@ + " の "@ + e.prop@ + "  ("@ + e.ty@ + ", merge = "@ + e.merge@ + ")\n\n"@ + if e.items@.len()
        == 0 {
        "  （到達した値はない）\n"@
    } else {
        items_text(e.items@)
    }
}

fn push_padded(out: &mut String, s: &str, w: usize)
    ensures
        final(out)@ == old(out)@ + pad(s@, w as nat),
{
    let ghost start = out@;
    push_str(out, s);
    let n = s.unicode_len();
    if n < w {
        let mut k: usize = n;
        while k < w
            invariant
                n == s@.len(),
                n <= k <= w,
                out@ == start + s@ + spaces((k - n) as nat),
            decreases w - k,
        {
            push_char(out, ' ');
            assert(spaces((k + 1 - n) as nat) =~= spaces((k - n) as nat).push(' '));
            k = k + 1;
        }
    } else {
        assert(out@ =~= start + s@);
    }
}

fn push_step(out: &mut String, i: usize, st: &Step)
    requires
        i < usize::MAX,
    ensures
        final(out)@ == old(out)@ + step_text(i as nat, *st),
{
    let ghost start = out@;
    let mut k: usize = 0;
    while k <= i
        invariant
            i < usize::MAX,
            k <= i + 1,
            out@ == start + spaces(2 * k as nat),
        decreases i + 1 - k,
    {
        push_str(out, "  ");
        assert(spaces(2 * (k + 1) as nat) =~= spaces(2 * k as nat) + "  "@) by {
            reveal_strlit("  ");
        }
        k = k + 1;
    }
    push_str(out, "← ");
    push_padded(out, st.origin.as_str(), 38);
    push_str(out, " ");
    match &st.location {
        Some(l) => push_str(out, l.as_str()),
        None => {},
    }
    push_str(out, "\n");
    assert(out@ =~= start + step_text(i as nat, *st));
}

fn push_item(out: &mut String, it: &Item)
    ensures
        final(out)@ == old(out)@ + item_text(*it),
{
    let ghost start = out@;
    push_padded(out, it.value.as_str(), 40);
    push_str(out, " ");
    push_str(out, it.ty.as_str());
    push_str(out, "\n");
    let ghost mid = out@;
    let mut i: usize = 0;
    assert(it.steps@.take(0) =~= Seq::<Step>::empty());
    while i < it.steps.len()
        invariant
            i <= it.steps@.len(),
            out@ == mid + steps_text(it.steps@.take(i as int)),
        decreases it.steps@.len() - i,
    {
        push_step(out, i, &it.steps[i]);
        assert(it.steps@.take(i + 1).drop_last() =~= it.steps@.take(i as int));
        assert(out@ =~= mid + steps_text(it.steps@.take(i + 1)));
        i = i + 1;
    }
    assert(it.steps@.take(i as int) =~= it.steps@);
    push_str(out, "\n");
    assert(out@ =~= start + item_text(*it));
}

pub fn render_text(e: &Explanation) -> (r: String)
    ensures
        r@ == explanation_text(*e),
{
    let mut out = String::new();
    push_str(&mut out, e.target.as_str());
    push_str(&mut out, " の ");
    push_str(&mut out, e.prop.as_str());
    push_str(&mut out, "  (");
    push_str(&mut out, e.ty.as_str());
    push_str(&mut out, ", merge = ");
    push_str(&mut out, e.merge);
    push_str(&mut out, ")\n\n");
    if e.items.len() == 0 {
        push_str(&mut out, "  （到達した値はない）\n");
        return out;
    }
    let ghost head = out@;
    let mut i: usize = 0;
    assert(e.items@.take(0) =~= Seq::<Item>::empty());
    while i < e.items.len()
        invariant
            i <= e.items@.len(),
            out@ == head + items_text(e.items@.take(i as int)),
        decreases e.items@.len() - i,
    {
        push_item(&mut out, &e.items[i]);
        assert(e.items@.take(i + 1).drop_last() =~= e.items@.take(i as int));
        assert(out@ =~= head + items_text(e.items@.take(i + 1)));
        i = i + 1;
    }
    assert(e.items@.take(i as int) =~= e.items@);
    out
}

/// What an explanation lists for a merged value: the items of a list, the
/// entries of a map shown as `key = value`, or the value itself.
pub open spec fn elements_m(v: ValueM) -> Seq<ValueM> {
    match v.data {
        DataM::List(items) => items,
        DataM::MapOf(rows) => rows.map_values(
            |r: (Seq<char>, ValueM)| ValueM { data: DataM::Str(r.0 + " = "@ + value_text(r.1)), ..r.1 },
        ),
        _ => seq![v],
    }
}

/// The values an explanation lists, each with its own provenance.
pub fn elements(value: &Value) -> (r: Vec<Value>)
    ensures
        values_m(r@) == elements_m(value_m(*value)),
{
    match &value.data {
        Data::List(items) => {
            let mut out: Vec<Value> = Vec::new();
            let mut i: usize = 0;
            proof {
                lemma_values_m(items@);
            }
            while i < items.len()
                invariant
                    i <= items@.len(),
                    values_m(items@).len() == items@.len(),
                    forall|j: int| 0 <= j < items@.len() ==> #[trigger] values_m(items@)[j] == value_m(items@[j]),
                    values_m(out@) == values_m(items@).take(i as int),
                decreases items.len() - i,
            {
                let ghost before = out@;
                out.push(items[i].copy());
                proof {
                    lemma_values_m(before);
                    lemma_values_m(out@);
                    assert(values_m(out@) =~= values_m(items@).take(i + 1));
                }
                i += 1;
            }
            assert(values_m(items@).take(i as int) =~= values_m(items@));
            out
        },
        Data::MapOf(rows) => {
            let mut out: Vec<Value> = Vec::new();
            let mut i: usize = 0;
            proof {
                lemma_rows_m(rows@);
            }
            let ghost f = |r: (Seq<char>, ValueM)| ValueM { data: DataM::Str(r.0 + " = "@ + value_text(r.1)), ..r.1 };
            while i < rows.len()
                invariant
                    i <= rows@.len(),
                    f == (|r: (Seq<char>, ValueM)| ValueM { data: DataM::Str(r.0 + " = "@ + value_text(r.1)), ..r.1 }),
                    rows_m(rows@).len() == rows@.len(),
                    forall|j: int| 0 <= j < rows@.len() ==> #[trigger] rows_m(rows@)[j] == (rows@[j].0@, value_m(rows@[j].1)),
                    values_m(out@) == rows_m(rows@).take(i as int).map_values(f),
                decreases rows.len() - i,
            {
                let v = &rows[i].1;
                let mut text = owned(rows[i].0.as_str());
                push_str(&mut text, " = ");
                let shown = v.display();
                push_str(&mut text, shown.as_str());
                let ghost before = out@;
                let item = Value { ty: v.ty.copy(), data: Data::Str(text), prov: v.prov.copy() };
                proof {
                    reveal_strlit(" = ");
                    assert(rows_m(rows@)[i as int] == (rows@[i as int].0@, value_m(*v)));
                    assert(value_m(item) == f(rows_m(rows@)[i as int]));
                }
                out.push(item);
                proof {
                    lemma_values_m(before);
                    lemma_values_m(out@);
                    assert(out@ == before.push(item));
                    assert(values_m(out@) =~= values_m(before).push(value_m(item)));
                    assert(rows_m(rows@).take(i + 1) =~= rows_m(rows@).take(i as int).push(rows_m(rows@)[i as int]));
                    assert(rows_m(rows@).take(i + 1).map_values(f) =~= rows_m(rows@).take(i as int).map_values(f).push(
                        f(rows_m(rows@)[i as int]),
                    ));
                    assert(values_m(out@) =~= rows_m(rows@).take(i + 1).map_values(f));
                }
                i += 1;
            }
            assert(rows_m(rows@).take(i as int) =~= rows_m(rows@));
            out
        },
        _ => {
            let out = vec![value.copy()];
            proof {
                lemma_values_m(out@);
                assert(values_m(out@) =~= seq![value_m(*value)]);
            }
            out
        },
    }
}

} // verus!
