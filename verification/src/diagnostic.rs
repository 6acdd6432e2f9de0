use vstd::prelude::*;

use crate::range::TextRange;

verus! {

/// A text edit: the source text in `range` is replaced by `content`.
pub struct Edit {
    pub range: TextRange,
    pub content: String,
}

impl Edit {
    /// An edit that replaces the text in `range` by `content` (`Edit::range_replacement`).
    pub fn range_replacement(content: String, range: TextRange) -> (r: Edit)
        ensures
            r.range == range,
            r.content@ == content@,
    {
        Edit { range, content }
    }
}

/// A fix that is safe to apply, made of a single edit (`Fix::safe_edit`).
pub struct Fix {
    pub edit: Edit,
}

impl Fix {
    /// The safe fix that applies `edit`.
    pub fn safe_edit(edit: Edit) -> (r: Fix)
        ensures
            r.edit.range == edit.range,
            r.edit.content@ == edit.content@,
    {
        Fix { edit }
    }
}

/// A violation of the rule `K` found at `range`, with the fix that resolves it, if any.
pub struct Diagnostic<K> {
    pub kind: K,
    pub range: TextRange,
    pub fix: Option<Fix>,
}

/// The mathematical content of a fix: the range it replaces and the text it puts there.
pub struct Replacement {
    pub range: TextRange,
    pub content: Seq<char>,
}

/// The mathematical content of a diagnostic, its rule aside.
pub struct Finding {
    pub range: TextRange,
    pub fix: Option<Replacement>,
}

impl<K> View for Diagnostic<K> {
    type V = Finding;

    open spec fn view(&self) -> Finding {
        Finding {
            range: self.range,
            fix: match self.fix {
                Some(f) => Some(Replacement { range: f.edit.range, content: f.edit.content@ }),
                None => None,
            },
        }
    }
}

impl<K> Diagnostic<K> {
    /// A diagnostic of `kind` at `range`, without a fix (`Diagnostic::new`).
    pub fn new(kind: K, range: TextRange) -> (r: Diagnostic<K>)
        ensures
            r.kind == kind,
            r.range == range,
            r.fix is None,
    {
        Diagnostic { kind, range, fix: None }
    }

    /// The same diagnostic, with `fix` attached (`Diagnostic::with_fix`).
    pub fn with_fix(self, fix: Fix) -> (r: Diagnostic<K>)
        ensures
            r.kind == self.kind,
            r.range == self.range,
            r@.fix == Some(Replacement { range: fix.edit.range, content: fix.edit.content@ }),
    {
        Diagnostic { kind: self.kind, range: self.range, fix: Some(fix) }
    }
}

/// The findings of a list of diagnostics.
pub open spec fn findings_of<K>(v: Seq<Diagnostic<K>>) -> Seq<Finding> {
    v.map_values(|d: Diagnostic<K>| d@)
}

/// The findings of an optional list of diagnostics.
pub open spec fn opt_findings<K>(o: Option<Vec<Diagnostic<K>>>) -> Option<Seq<Finding>> {
    match o {
        Some(v) => Some(findings_of(v@)),
        None => None,
    }
}

} // verus!
