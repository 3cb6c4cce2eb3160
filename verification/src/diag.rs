//! Diagnostics: what went wrong, where, and notes that explain it.

use vstd::prelude::*;
use crate::value::Site;
use crate::text::copy_string;

verus! {

/// How serious a diagnostic is.
#[derive(Clone, Copy, PartialEq, Eq, Structural, Debug)]
pub enum Severity {
    Error,
    Warning,
    Note,
}

/// A place a diagnostic points at, with what it says there. The primary
/// label is where the problem is; secondary labels give context.
#[derive(Debug)]
pub struct Label {
    pub site: Site,
    pub message: String,
    pub primary: bool,
}

/// One diagnostic.
#[derive(Debug)]
pub struct Diagnostic {
    /// A stable name for the kind of problem, such as `merge-conflict`.
    pub code: &'static str,
    pub severity: Severity,
    pub message: String,
    pub labels: Vec<Label>,
    pub notes: Vec<String>,
}

/// A diagnostic as plain values.
pub struct DiagM {
    pub code: Seq<char>,
    pub severity: Severity,
    pub message: Seq<char>,
    pub labels: Seq<(Site, Seq<char>, bool)>,
    pub notes: Seq<Seq<char>>,
}

pub open spec fn labels_m(l: Seq<Label>) -> Seq<(Site, Seq<char>, bool)> {
    l.map_values(|x: Label| (x.site, x.message@, x.primary))
}

pub open spec fn notes_m(n: Seq<String>) -> Seq<Seq<char>> {
    n.map_values(|x: String| x@)
}

pub open spec fn diag_m(d: Diagnostic) -> DiagM {
    DiagM {
        code: d.code@,
        severity: d.severity,
        message: d.message@,
        labels: labels_m(d.labels@),
        notes: notes_m(d.notes@),
    }
}

/// A list of diagnostics as plain values.
pub open spec fn diags_m(s: Seq<Diagnostic>) -> Seq<DiagM> {
    s.map_values(|d: Diagnostic| diag_m(d))
}

impl Diagnostic {
    /// An error with a code and a message, pointing nowhere yet.
    pub fn error(code: &'static str, message: String) -> (d: Diagnostic)
        ensures
            diag_m(d) == (DiagM {
                code: code@,
                severity: Severity::Error,
                message: message@,
                labels: Seq::empty(),
                notes: Seq::empty(),
            }),
    {
        let d = Diagnostic {
            code,
            severity: Severity::Error,
            message,
            labels: Vec::new(),
            notes: Vec::new(),
        };
        assert(labels_m(d.labels@) =~= Seq::<(Site, Seq<char>, bool)>::empty());
        assert(notes_m(d.notes@) =~= Seq::<Seq<char>>::empty());
        d
    }

    /// A warning with a code and a message, pointing nowhere yet.
    pub fn warning(code: &'static str, message: String) -> (d: Diagnostic)
        ensures
            diag_m(d) == (DiagM {
                code: code@,
                severity: Severity::Warning,
                message: message@,
                labels: Seq::empty(),
                notes: Seq::empty(),
            }),
    {
        let d = Diagnostic {
            code,
            severity: Severity::Warning,
            message,
            labels: Vec::new(),
            notes: Vec::new(),
        };
        assert(labels_m(d.labels@) =~= Seq::<(Site, Seq<char>, bool)>::empty());
        assert(notes_m(d.notes@) =~= Seq::<Seq<char>>::empty());
        d
    }

    /// Adds a label.
    pub fn label(&mut self, site: Site, message: String, primary: bool)
        ensures
            diag_m(*final(self)) == (DiagM {
                labels: diag_m(*old(self)).labels.push((site, message@, primary)),
                ..diag_m(*old(self))
            }),
    {
        self.labels.push(Label { site, message, primary });
        assert(labels_m(self.labels@) =~= labels_m(old(self).labels@).push((site, message@, primary)));
    }

    /// Adds a note.
    pub fn note(&mut self, text: String)
        ensures
            diag_m(*final(self)) == (DiagM {
                notes: diag_m(*old(self)).notes.push(text@),
                ..diag_m(*old(self))
            }),
    {
        self.notes.push(text);
        assert(notes_m(self.notes@) =~= notes_m(old(self).notes@).push(text@));
    }
}

impl Label {
    /// A copy of the label.
    pub fn copy(&self) -> (r: Label)
        ensures
            r.site == self.site,
            r.message@ == self.message@,
            r.primary == self.primary,
    {
        Label { site: self.site, message: copy_string(&self.message), primary: self.primary }
    }
}

impl Diagnostic {
    /// A copy of the diagnostic, saying the same.
    pub fn copy(&self) -> (r: Diagnostic)
        ensures
            diag_m(r) == diag_m(*self),
    {
        let mut labels: Vec<Label> = Vec::new();
        let mut i: usize = 0;
        while i < self.labels.len()
            invariant
                i <= self.labels@.len(),
                labels_m(labels@) == labels_m(self.labels@.take(i as int)),
            decreases self.labels.len() - i,
        {
            let ghost before = labels@;
            labels.push(self.labels[i].copy());
            assert(labels_m(labels@) =~= labels_m(before).push(
                (self.labels@[i as int].site, self.labels@[i as int].message@, self.labels@[i as int].primary),
            ));
            assert(self.labels@.take(i + 1) =~= self.labels@.take(i as int).push(self.labels@[i as int]));
            assert(labels_m(self.labels@.take(i + 1)) =~= labels_m(self.labels@.take(i as int)).push(
                (self.labels@[i as int].site, self.labels@[i as int].message@, self.labels@[i as int].primary),
            ));
            i += 1;
        }
        let mut notes: Vec<String> = Vec::new();
        let mut j: usize = 0;
        while j < self.notes.len()
            invariant
                j <= self.notes@.len(),
                notes_m(notes@) == notes_m(self.notes@.take(j as int)),
            decreases self.notes.len() - j,
        {
            let ghost before = notes@;
            notes.push(copy_string(&self.notes[j]));
            assert(notes_m(notes@) =~= notes_m(before).push(self.notes@[j as int]@));
            assert(self.notes@.take(j + 1) =~= self.notes@.take(j as int).push(self.notes@[j as int]));
            assert(notes_m(self.notes@.take(j + 1)) =~= notes_m(self.notes@.take(j as int)).push(self.notes@[j as int]@));
            j += 1;
        }
        assert(self.labels@.take(i as int) =~= self.labels@);
        assert(self.notes@.take(j as int) =~= self.notes@);
        Diagnostic {
            code: self.code,
            severity: self.severity,
            message: copy_string(&self.message),
            labels,
            notes,
        }
    }
}

/// Appends a diagnostic to a list.
pub fn push_diag(diags: &mut Vec<Diagnostic>, d: Diagnostic)
    ensures
        diags_m(final(diags)@) == diags_m(old(diags)@).push(diag_m(d)),
{
    diags.push(d);
    assert(diags_m(diags@) =~= diags_m(old(diags)@).push(diag_m(d)));
}

} // verus!
