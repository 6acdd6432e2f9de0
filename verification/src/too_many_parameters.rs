use vstd::prelude::*;
use vstd::string::StringExecFns;
use vstd::string::StringSliceAdditionalSpecFns;
use vstd::utf8::encode_utf8;

use crate::diagnostic::Diagnostic;
use crate::range::TextRange;
use crate::syntax::{first_where, lemma_first_where_prefix, node_range, node_text, spans, SyntaxNode};
use crate::text::{decimal, decimal_string, opt_chars};

pub mod settings;

use self::settings::Settings;

verus! {

/// A function or subroutine with more parameters than the threshold.
#[derive(Clone, Debug)]
pub struct TooManyParameters {
    pub name: String,
    pub count: usize,
    pub threshold: usize,
}

/// The message that reports a procedure `name` with `count` parameters over `threshold`.
pub open spec fn parameters_message(name: Seq<char>, count: nat, threshold: nat) -> Seq<char> {
    "Function/subroutine '"@ + name + "' has "@ + decimal(count) + " parameters (threshold: "@
        + decimal(threshold) + ")"@
}

/// The index of the first named node in `cs`.
pub open spec fn first_named(cs: Seq<SyntaxNode>) -> Option<int> {
    first_where(cs, |n: SyntaxNode| n.is_named)
}

/// The index of the first node in `cs` held under the field `field`.
pub open spec fn first_in_field(cs: Seq<SyntaxNode>, field: Seq<char>) -> Option<int> {
    first_where(cs, |n: SyntaxNode| opt_chars(n.field_name) == Some(field))
}

/// A dummy argument of a parameter list: a named node of kind `identifier`. Comments and
/// preprocessor directives inside the list are not arguments.
pub open spec fn is_argument(n: SyntaxNode) -> bool {
    n.is_named && n.kind@ == "identifier"@
}

/// The number of dummy arguments in `cs`.
pub open spec fn argument_count(cs: Seq<SyntaxNode>) -> nat
    decreases cs.len(),
{
    if cs.len() == 0 {
        0
    } else if is_argument(cs.last()) {
        argument_count(cs.drop_last()) + 1
    } else {
        argument_count(cs.drop_last())
    }
}

/// What the rule reports of a procedure: its name, its number of parameters, the threshold and
/// the range of its header.
pub struct ParameterReport {
    pub name: Seq<char>,
    pub count: nat,
    pub threshold: nat,
    pub range: TextRange,
}

/// The number of parameters of a procedure header: the dummy arguments in its `parameters`
/// field, or none without that field.
pub open spec fn parameter_count(header: SyntaxNode) -> nat {
    match first_in_field(header.children@, "parameters"@) {
        Some(p) => argument_count(header.children@[p].children@),
        None => 0,
    }
}

/// What the rule reports for a procedure node: nothing without a named first child (the
/// header) or without a `name` field in it; else a report when the header has more parameters
/// than the threshold. A name whose text cannot be cut out of the source reads as empty.
pub open spec fn too_many_parameters_report(threshold: usize, node: SyntaxNode, source: Seq<char>) -> Option<
    ParameterReport,
> {
    match first_named(node.children@) {
        None => None,
        Some(h) => {
            let header = node.children@[h];
            match first_in_field(header.children@, "name"@) {
                None => None,
                Some(n) => {
                    let name = match node_text(header.children@[n], source) {
                        Some(t) => t,
                        None => seq![],
                    };
                    if parameter_count(header) > threshold {
                        Some(
                            ParameterReport {
                                name,
                                count: parameter_count(header),
                                threshold: threshold as nat,
                                range: node_range(header),
                            },
                        )
                    } else {
                        None
                    }
                },
            }
        },
    }
}

/// What the rule reads of a procedure node lies in the source: the `name` child of its header,
/// and, when the header has more parameters than the threshold, the header's own range.
pub open spec fn procedure_in(threshold: usize, node: SyntaxNode, source: Seq<char>) -> bool {
    match first_named(node.children@) {
        None => true,
        Some(h) => {
            let header = node.children@[h];
            match first_in_field(header.children@, "name"@) {
                None => true,
                Some(n) => {
                    &&& spans(header.children@[n], encode_utf8(source).len() as int)
                    &&& parameter_count(header) > threshold ==> header.start_byte
                        <= header.end_byte
                },
            }
        },
    }
}

/// The diagnostics reported as the given report.
pub open spec fn reports_as(r: Option<Vec<Diagnostic<TooManyParameters>>>, p: Option<ParameterReport>) -> bool {
    match p {
        None => r is None,
        Some(p) => match r {
            None => false,
            Some(v) => {
                &&& v@.len() == 1
                &&& v@[0].kind.name@ == p.name
                &&& v@[0].kind.count == p.count
                &&& v@[0].kind.threshold == p.threshold
                &&& v@[0].range == p.range
                &&& v@[0].fix is None
            },
        },
    }
}

/// The index of the first named child.
fn find_first_named(cs: &Vec<SyntaxNode>) -> (r: Option<usize>)
    ensures
        r matches Some(i) ==> first_named(cs@) == Some(i as int) && i < cs@.len(),
        r is None ==> first_named(cs@) is None,
{
    let mut i: usize = 0;
    while i < cs.len()
        invariant
            i <= cs@.len(),
            first_named(cs@.take(i as int)) is None,
        decreases cs@.len() - i,
    {
        assert(cs@.take(i + 1).drop_last() == cs@.take(i as int));
        if cs[i].is_named {
            proof {
                lemma_first_where_prefix(cs@, |n: SyntaxNode| n.is_named, i as int + 1);
            }
            return Some(i);
        }
        i = i + 1;
    }
    assert(cs@.take(cs@.len() as int) == cs@);
    None
}

/// The index of the first child under the field `field`.
fn find_field(cs: &Vec<SyntaxNode>, field: &str) -> (r: Option<usize>)
    ensures
        r matches Some(i) ==> first_in_field(cs@, field@) == Some(i as int) && i < cs@.len(),
        r is None ==> first_in_field(cs@, field@) is None,
{
    let mut i: usize = 0;
    while i < cs.len()
        invariant
            i <= cs@.len(),
            first_in_field(cs@.take(i as int), field@) is None,
        decreases cs@.len() - i,
    {
        assert(cs@.take(i + 1).drop_last() == cs@.take(i as int));
        let found = match &cs[i].field_name {
            Some(f) => crate::syntax::same_text(f.as_str(), field),
            None => false,
        };
        if found {
            proof {
                lemma_first_where_prefix(
                    cs@,
                    |n: SyntaxNode| opt_chars(n.field_name) == Some(field@),
                    i as int + 1,
                );
            }
            return Some(i);
        }
        i = i + 1;
    }
    assert(cs@.take(cs@.len() as int) == cs@);
    None
}

/// The number of dummy arguments in `cs`.
fn count_arguments(cs: &Vec<SyntaxNode>) -> (r: usize)
    ensures
        r == argument_count(cs@),
{
    let mut count: usize = 0;
    let mut i: usize = 0;
    while i < cs.len()
        invariant
            i <= cs@.len(),
            count == argument_count(cs@.take(i as int)),
            count <= i,
        decreases cs@.len() - i,
    {
        assert(cs@.take(i + 1).drop_last() == cs@.take(i as int));
        if cs[i].is_named && cs[i].is_kind("identifier") {
            count = count + 1;
        }
        i = i + 1;
    }
    assert(cs@.take(cs@.len() as int) == cs@);
    count
}

impl TooManyParameters {
    /// The message of the rule.
    pub fn message(&self) -> (r: String)
        ensures
            r@ == parameters_message(self.name@, self.count as nat, self.threshold as nat),
    {
        let mut r = "Function/subroutine '".to_owned();
        r.append(self.name.as_str());
        r.append("' has ");
        let count = decimal_string(self.count);
        r.append(count.as_str());
        r.append(" parameters (threshold: ");
        let threshold = decimal_string(self.threshold);
        r.append(threshold.as_str());
        r.append(")");
        r
    }

    /// Reports a function or subroutine that declares more parameters than the threshold.
    pub fn check(settings: &Settings, node: &SyntaxNode, source: &str) -> (r: Option<
        Vec<Diagnostic<TooManyParameters>>,
    >)
        requires
            procedure_in(settings.max_parameters, *node, source@),
        ensures
            reports_as(r, too_many_parameters_report(settings.max_parameters, *node, source@)),
    {
        let h = match find_first_named(&node.children) {
            Some(h) => h,
            None => return None,
        };
        let header = &node.children[h];
        let n = match find_field(&header.children, "name") {
            Some(n) => n,
            None => return None,
        };
        assert(spans(node.children@[h as int].children@[n as int], source.spec_bytes().len() as int));
        let name = match header.children[n].to_text(source) {
            Some(t) => t,
            None => String::new(),
        };
        let count = match find_field(&header.children, "parameters") {
            Some(p) => count_arguments(&header.children[p].children),
            None => 0,
        };
        let threshold = settings.max_parameters;
        if count > threshold {
            let diag = Diagnostic::new(TooManyParameters { name, count, threshold }, header.textrange());
            let mut out: Vec<Diagnostic<TooManyParameters>> = Vec::new();
            out.push(diag);
            return Some(out);
        }
        None
    }

    /// The kinds of node that the rule checks.
    pub fn entrypoints() -> (r: Vec<&'static str>)
        ensures
            r@.len() == 2,
            r@[0]@ == "function"@,
            r@[1]@ == "subroutine"@,
    {
        vec!["function", "subroutine"]
    }
}

/// A procedure is reported only with a count above the configured threshold, and then with
/// that threshold; a procedure with a header and a name is reported whenever its header has more
/// parameters than the threshold.
pub proof fn lemma_reported_over_threshold(t: usize, node: SyntaxNode, source: Seq<char>)
    ensures
        too_many_parameters_report(t, node, source) matches Some(p) ==> p.count > p.threshold
            && p.threshold == t,
        first_named(node.children@) matches Some(h) ==> (first_in_field(
            node.children@[h].children@,
            "name"@,
        ) is Some && parameter_count(node.children@[h]) > t ==> too_many_parameters_report(
            t,
            node,
            source,
        ) is Some),
{
}

/// Lowering the threshold keeps every report, with the same count; raising it never adds one.
pub proof fn lemma_lower_threshold_keeps_reports(t: usize, u: usize, node: SyntaxNode, source: Seq<char>)
    requires
        t <= u,
    ensures
        too_many_parameters_report(u, node, source) matches Some(p) ==> too_many_parameters_report(
            t,
            node,
            source,
        ) matches Some(q) && q.count == p.count && q.name == p.name,
{
}

} // verus!
