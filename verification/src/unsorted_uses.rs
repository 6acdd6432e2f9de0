use vstd::prelude::*;
use vstd::utf8::encode_utf8;

use crate::range::TextRange;
use crate::source_lines::{bom_start, full_line_end, is_offset, line_start, lemma_line_bounds_order};
use crate::sorting::{
    alike, in_order, is_sort_order, lemma_sort_in_order, sorts_alike, lemma_sort_stable, lemma_sort_keeps_ordered, lemma_sort_len,
    lemma_use_after_is_sort_order, sort_uses, use_after,
};
use crate::syntax::SyntaxNode;
use crate::use_statement::{
    adjacent_runs, concat_blocks, first_per_row, lemma_adjacent_runs, runs_of_adjacent, use_blocks,
    use_statement_in, use_statement_of, use_statement_placed, use_statement_splits, UseStatement,
};
use crate::diagnostic::{findings_of, opt_findings, Diagnostic, Edit, Finding, Fix, Replacement};
use crate::sorting::sort_use_statements;
use crate::source_lines::{compute_full_line_end, compute_line_start};
use crate::use_statement::{
    block_targets, extract_use_statement_data, group_use_statements_into_blocks, statement_views,
    targets, UseStatementData,
};
use vstd::string::StringExecFns;

verus! {

/// A statement whose range lies in the source, past its byte order mark, and at character
/// boundaries.
pub open spec fn statement_in(st: UseStatement, source: Seq<char>) -> bool {
    &&& st.text_range.start <= st.text_range.end
    &&& is_offset(source, st.text_range.start as int)
    &&& is_offset(source, st.text_range.end as int)
    &&& bom_start(source) <= st.text_range.start
}

/// The statements lie in the source, in order, without overlapping.
pub open spec fn laid_out(s: Seq<UseStatement>, source: Seq<char>) -> bool {
    &&& forall|i: int| 0 <= i < s.len() ==> #[trigger] statement_in(s[i], source)
    &&& forall|i: int, j: int|
        0 <= i < j < s.len() ==> #[trigger] s[i].text_range.end <= #[trigger] s[j].text_range.start
}

proof fn lemma_laid_out_first_per_row(s: Seq<UseStatement>, source: Seq<char>)
    requires
        laid_out(s, source),
    ensures
        laid_out(first_per_row(s), source),
        forall|i: int|
            0 <= i < first_per_row(s).len() ==> exists|k: int|
                0 <= k < s.len() && #[trigger] first_per_row(s)[i] == s[k],
    decreases s.len(),
{
    if s.len() > 0 {
        let t = s.drop_last();
        assert(laid_out(t, source)) by {
            assert forall|i: int| 0 <= i < t.len() implies #[trigger] statement_in(t[i], source) by {
                assert(t[i] == s[i]);
            }
            assert forall|i: int, j: int| 0 <= i < j < t.len() implies #[trigger] t[i].text_range.end
                <= #[trigger] t[j].text_range.start by {
                assert(t[i] == s[i] && t[j] == s[j]);
            }
        }
        lemma_laid_out_first_per_row(t, source);
        let f = first_per_row(t);
        if s.len() >= 2 && s.last().start_row == s[s.len() - 2].start_row {
            assert forall|i: int| 0 <= i < f.len() implies exists|k: int|
                0 <= k < s.len() && #[trigger] f[i] == s[k] by {
                let k = choose|k: int| 0 <= k < t.len() && f[i] == t[k];
                assert(t[k] == s[k]);
            }
        } else {
            let g = f.push(s.last());
            assert forall|i: int| 0 <= i < g.len() implies exists|k: int|
                0 <= k < s.len() && #[trigger] g[i] == s[k] by {
                if i < f.len() {
                    let k = choose|k: int| 0 <= k < t.len() && f[i] == t[k];
                    assert(t[k] == s[k]);
                    assert(g[i] == s[k]);
                } else {
                    assert(g[i] == s[s.len() - 1]);
                }
            }
            assert forall|i: int| 0 <= i < g.len() implies #[trigger] statement_in(g[i], source) by {
                let k = choose|k: int| 0 <= k < s.len() && g[i] == s[k];
                assert(statement_in(s[k], source));
            }
            assert forall|i: int, j: int| 0 <= i < j < g.len() implies #[trigger] g[i].text_range.end
                <= #[trigger] g[j].text_range.start by {
                if j < f.len() {
                    assert(g[i] == f[i] && g[j] == f[j]);
                } else {
                    assert(g[i] == f[i]);
                    let k = choose|k: int| 0 <= k < t.len() && f[i] == t[k];
                    assert(t[k] == s[k]);
                    assert(g[j] == s[s.len() - 1]);
                    assert(s[k].text_range.end <= s[s.len() - 1].text_range.start);
                }
            }
        }
    }
}

proof fn lemma_laid_out_split(x: Seq<UseStatement>, y: Seq<UseStatement>, source: Seq<char>)
    requires
        laid_out(x + y, source),
    ensures
        laid_out(x, source),
        laid_out(y, source),
{
    let s = x + y;
    assert forall|i: int| 0 <= i < x.len() implies #[trigger] statement_in(x[i], source) by {
        assert(x[i] == s[i]);
    }
    assert forall|i: int, j: int| 0 <= i < j < x.len() implies #[trigger] x[i].text_range.end
        <= #[trigger] x[j].text_range.start by {
        assert(x[i] == s[i] && x[j] == s[j]);
    }
    assert forall|i: int| 0 <= i < y.len() implies #[trigger] statement_in(y[i], source) by {
        assert(y[i] == s[x.len() + i]);
    }
    assert forall|i: int, j: int| 0 <= i < j < y.len() implies #[trigger] y[i].text_range.end
        <= #[trigger] y[j].text_range.start by {
        assert(y[i] == s[x.len() + i] && y[j] == s[x.len() + j]);
    }
}

proof fn lemma_laid_out_blocks(bs: Seq<Seq<UseStatement>>, source: Seq<char>)
    requires
        laid_out(concat_blocks(bs), source),
    ensures
        forall|j: int| 0 <= j < bs.len() ==> laid_out(#[trigger] bs[j], source),
    decreases bs.len(),
{
    if bs.len() > 0 {
        lemma_laid_out_split(concat_blocks(bs.drop_last()), bs.last(), source);
        lemma_laid_out_blocks(bs.drop_last(), source);
        assert forall|j: int| 0 <= j < bs.len() implies laid_out(#[trigger] bs[j], source) by {
            if j < bs.len() - 1 {
                assert(bs[j] == bs.drop_last()[j]);
            }
        }
    }
}

/// Every block of statements that lie in order in the source lies in order in it too.
pub proof fn lemma_blocks_laid_out(s: Seq<UseStatement>, source: Seq<char>)
    requires
        laid_out(s, source),
    ensures
        forall|j: int| 0 <= j < use_blocks(s).len() ==> laid_out(#[trigger] use_blocks(s)[j], source),
{
    lemma_laid_out_first_per_row(s, source);
    lemma_adjacent_runs(first_per_row(s));
    lemma_laid_out_blocks(use_blocks(s), source);
}

/// The texts of the statements.
pub open spec fn texts(s: Seq<UseStatement>) -> Seq<Seq<char>> {
    s.map_values(|st: UseStatement| st.text)
}

/// The texts, one after the other.
pub open spec fn joined(ts: Seq<Seq<char>>) -> Seq<char>
    decreases ts.len(),
{
    if ts.len() == 0 {
        seq![]
    } else {
        joined(ts.drop_last()) + ts.last()
    }
}

/// The range that the fix of an unsorted block replaces: from the start of the line of its
/// first statement to the end of the line of its last one, line ending included.
pub open spec fn block_fix_range(b: Seq<UseStatement>, source: Seq<char>) -> TextRange {
    TextRange {
        start: line_start(source, b[0].text_range.start as int) as u32,
        end: full_line_end(source, b.last().text_range.end as int) as u32,
    }
}

/// What a block of `use` statements is reported for: nothing when it holds one statement or
/// when its texts already are in sorted order; else a finding at its first statement whose fix
/// replaces the block's lines by the texts of its statements in sorted order.
pub open spec fn block_finding(b: Seq<UseStatement>, source: Seq<char>) -> Option<Finding> {
    if b.len() <= 1 || texts(b) == texts(sort_uses(b)) {
        None
    } else {
        Some(
            Finding {
                range: b[0].text_range,
                fix: Some(
                    Replacement {
                        range: block_fix_range(b, source),
                        content: joined(texts(sort_uses(b))),
                    },
                ),
            },
        )
    }
}

/// The findings of the blocks, in order.
pub open spec fn block_findings(bs: Seq<Seq<UseStatement>>, source: Seq<char>) -> Seq<Finding>
    decreases bs.len(),
{
    if bs.len() == 0 {
        seq![]
    } else {
        let prev = block_findings(bs.drop_last(), source);
        match block_finding(bs.last(), source) {
            Some(f) => prev.push(f),
            None => prev,
        }
    }
}

/// What the sorted-`use` rule reports for the statements of one scope: nothing for fewer than
/// two statements or when no block is out of order, else one finding per unsorted block.
pub open spec fn unsorted_uses_findings(s: Seq<UseStatement>, source: Seq<char>) -> Option<
    Seq<Finding>,
> {
    if s.len() <= 1 {
        None
    } else {
        let f = block_findings(use_blocks(s), source);
        if f.len() == 0 {
            None
        } else {
            Some(f)
        }
    }
}

/// The texts of two blocks of the same length are equal, statement by statement.
fn same_texts(a: &Vec<&UseStatementData>, b: &Vec<&UseStatementData>) -> (r: bool)
    requires
        a@.len() == b@.len(),
    ensures
        r == (texts(targets(a@)) == texts(targets(b@))),
{
    let mut i: usize = 0;
    while i < a.len()
        invariant
            a@.len() == b@.len(),
            i <= a@.len(),
            forall|k: int| 0 <= k < i ==> a@[k].text@ == b@[k].text@,
        decreases a@.len() - i,
    {
        if a[i].text != b[i].text {
            assert(texts(targets(a@))[i as int] != texts(targets(b@))[i as int]);
            return false;
        }
        i = i + 1;
    }
    assert(texts(targets(a@)) =~= texts(targets(b@)));
    true
}

/// The texts of the statements, one after the other.
fn join_texts(v: &Vec<&UseStatementData>) -> (r: String)
    ensures
        r@ == joined(texts(targets(v@))),
{
    let mut r = String::new();
    let mut i: usize = 0;
    while i < v.len()
        invariant
            i <= v@.len(),
            r@ == joined(texts(targets(v@)).take(i as int)),
        decreases v@.len() - i,
    {
        assert(texts(targets(v@)).take(i + 1).drop_last() == texts(targets(v@)).take(i as int));
        r.append(v[i].text.as_str());
        i = i + 1;
    }
    assert(texts(targets(v@)).take(v@.len() as int) == texts(targets(v@)));
    r
}

/// The rule that `use` statements are sorted within each block.
pub struct UnsortedUses {}

/// The range of the fix of a block can be formed, if the block is reported: its first
/// statement starts and its last one ends at character boundaries of the source, and the
/// lines they cover start no later than they end.
pub open spec fn fix_range_valid(b: Seq<UseStatement>, source: Seq<char>) -> bool {
    b.len() > 1 && texts(b) != texts(sort_uses(b)) ==> {
        &&& is_offset(source, b[0].text_range.start as int)
        &&& is_offset(source, b.last().text_range.end as int)
        &&& line_start(source, b[0].text_range.start as int) <= full_line_end(
            source,
            b.last().text_range.end as int,
        )
    }
}

/// The fix of every block of the statements can be formed.
pub open spec fn fixes_in(s: Seq<UseStatement>, source: Seq<char>) -> bool {
    forall|j: int| 0 <= j < use_blocks(s).len() ==> fix_range_valid(#[trigger] use_blocks(s)[j], source)
}

/// Statements that lie in the source in order, past its byte order mark, form fixes that can
/// be formed.
pub proof fn lemma_laid_out_fixes_in(s: Seq<UseStatement>, source: Seq<char>)
    requires
        laid_out(s, source),
    ensures
        fixes_in(s, source),
{
    lemma_blocks_laid_out(s, source);
    assert forall|j: int| 0 <= j < use_blocks(s).len() implies fix_range_valid(
        #[trigger] use_blocks(s)[j],
        source,
    ) by {
        let b = use_blocks(s)[j];
        assert(laid_out(b, source));
        if b.len() > 1 {
            assert(statement_in(b[0], source));
            assert(statement_in(b[b.len() - 1], source));
            assert(b[0].text_range.end <= b[b.len() - 1].text_range.start);
            lemma_line_bounds_order(source, b[0].text_range.start as int, b.last().text_range.end as int);
        }
    }
}

/// Reports each block of the given statements of one scope whose statements are not in
/// sorted order (intrinsic modules first, then by module name), with a fix that sorts it.
pub fn find_unsorted_uses(use_statements: &Vec<UseStatementData>, source: &str) -> (r: Option<
    Vec<Diagnostic<UnsortedUses>>,
>)
    requires
        fixes_in(statement_views(use_statements@), source@),
        encode_utf8(source@).len() <= u32::MAX,
    ensures
        opt_findings(r) == unsorted_uses_findings(statement_views(use_statements@), source@),
{
    let ghost s = statement_views(use_statements@);
    if use_statements.len() <= 1 {
        return None;
    }
    let blocks = group_use_statements_into_blocks(use_statements.as_slice());
    let ghost bs = block_targets(blocks@);
    let mut diagnostics: Vec<Diagnostic<UnsortedUses>> = Vec::new();
    let mut j: usize = 0;
    while j < blocks.len()
        invariant
            bs == block_targets(blocks@),
            bs == use_blocks(s),
            forall|k: int| 0 <= k < bs.len() ==> fix_range_valid(#[trigger] bs[k], source@),
            encode_utf8(source@).len() <= u32::MAX,
            j <= blocks@.len(),
            findings_of(diagnostics@) == block_findings(bs.take(j as int), source@),
        decreases blocks@.len() - j,
    {
        assert(bs.take(j + 1).drop_last() == bs.take(j as int));
        let block = &blocks[j];
        let ghost b = targets(block@);
        assert(b == bs[j as int]);
        if block.len() > 1 {
            let sorted = sort_use_statements(block);
            proof {
                lemma_sort_len(b, use_after());
            }
            if !same_texts(block, &sorted) {
                let first = block[0];
                let last = block[block.len() - 1];
                assert(fix_range_valid(b, source@));
                let block_start = compute_line_start(source, first.text_range.start);
                let block_end = compute_full_line_end(source, last.text_range.end);
                let replacement = join_texts(&sorted);
                let edit = Edit::range_replacement(replacement, TextRange::new(block_start, block_end));
                let fix = Fix::safe_edit(edit);
                let diag = Diagnostic::new(UnsortedUses {}, first.text_range).with_fix(fix);
                let ghost before = diagnostics@;
                diagnostics.push(diag);
                assert(findings_of(diagnostics@) =~= findings_of(before).push(diag@));
            }
        }
        j = j + 1;
    }
    assert(bs.take(blocks@.len() as int) == bs);
    if diagnostics.len() == 0 {
        None
    } else {
        Some(diagnostics)
    }
}

/// The children of kind `use_statement`, in order.
pub open spec fn use_statement_nodes(cs: Seq<SyntaxNode>) -> Seq<SyntaxNode>
    decreases cs.len(),
{
    if cs.len() == 0 {
        seq![]
    } else if cs.last().kind@ == "use_statement"@ {
        use_statement_nodes(cs.drop_last()).push(cs.last())
    } else {
        use_statement_nodes(cs.drop_last())
    }
}

/// The `use` statements directly inside a scope node.
pub open spec fn uses_of(node: SyntaxNode, source: Seq<char>) -> Seq<UseStatement> {
    use_statement_nodes(node.children@).map_values(|c: SyntaxNode| use_statement_of(c, source))
}

/// A scope node whose `use` statements lie in a source of at most `u32::MAX` bytes.
pub open spec fn scope_in(node: SyntaxNode, source: Seq<char>) -> bool {
    &&& encode_utf8(source).len() <= u32::MAX
    &&& forall|i: int|
        0 <= i < node.children@.len() && (#[trigger] node.children@[i]).kind@ == "use_statement"@
            ==> use_statement_in(node.children@[i], source)
}

/// A scope node whose `use` statements lie in a source of at most `u32::MAX` bytes, with ranges
/// whose lines can be cut out.
pub open spec fn scope_placed(node: SyntaxNode, source: Seq<char>) -> bool {
    &&& encode_utf8(source).len() <= u32::MAX
    &&& forall|i: int|
        0 <= i < node.children@.len() && (#[trigger] node.children@[i]).kind@ == "use_statement"@
            ==> use_statement_placed(node.children@[i], source)
}

/// Whether each item of each `only:` list of the `use` statements of a scope can be cut at its
/// ` as `.
pub fn scope_splits(node: &SyntaxNode, source: &str) -> (r: bool)
    requires
        scope_placed(*node, source@),
    ensures
        r == scope_in(*node, source@),
{
    let n = node.children.len();
    let mut i: usize = 0;
    while i < n
        invariant
            n == node.children@.len(),
            i <= n,
            scope_placed(*node, source@),
            forall|j: int|
                0 <= j < i && (#[trigger] node.children@[j]).kind@ == "use_statement"@
                    ==> use_statement_in(node.children@[j], source@),
        decreases n - i,
    {
        let child = &node.children[i];
        if child.is_kind("use_statement") {
            if !use_statement_splits(child, source) {
                assert(node.children@[i as int].kind@ == "use_statement"@);
                return false;
            }
        }
        i = i + 1;
    }
    true
}

/// The nodes come in order without overlapping, and the `use` statements among them start
/// past the byte order mark of the source.
pub open spec fn in_source_order(cs: Seq<SyntaxNode>, source: Seq<char>) -> bool {
    &&& forall|i: int, j: int| 0 <= i < j < cs.len() ==> #[trigger] cs[i].end_byte <= #[trigger] cs[j].start_byte
    &&& forall|i: int|
        0 <= i < cs.len() && (#[trigger] cs[i]).kind@ == "use_statement"@ ==> bom_start(source)
            <= cs[i].start_byte
}

/// The `use` statements of nodes that come in order lie in the source in order.
proof fn lemma_use_nodes_laid_out(cs: Seq<SyntaxNode>, source: Seq<char>)
    requires
        in_source_order(cs, source),
        forall|i: int|
            0 <= i < cs.len() && (#[trigger] cs[i]).kind@ == "use_statement"@ ==> use_statement_placed(
                cs[i],
                source,
            ),
    ensures
        laid_out(use_statement_nodes(cs).map_values(|c: SyntaxNode| use_statement_of(c, source)), source),
        use_statement_nodes(cs).len() > 0 ==> exists|m: int|
            0 <= m < cs.len() && use_statement_nodes(cs).last().end_byte == #[trigger] cs[m].end_byte,
    decreases cs.len(),
{
    if cs.len() > 0 {
        let t = cs.drop_last();
        assert(in_source_order(t, source)) by {
            assert forall|i: int, j: int| 0 <= i < j < t.len() implies #[trigger] t[i].end_byte
                <= #[trigger] t[j].start_byte by {
                assert(t[i] == cs[i] && t[j] == cs[j]);
            }
            assert forall|i: int| 0 <= i < t.len() && (#[trigger] t[i]).kind@ == "use_statement"@ implies bom_start(
                source,
            ) <= t[i].start_byte by {
                assert(t[i] == cs[i]);
            }
        }
        assert forall|i: int|
            0 <= i < t.len() && (#[trigger] t[i]).kind@ == "use_statement"@ implies use_statement_placed(t[i], source) by {
            assert(t[i] == cs[i]);
        }
        lemma_use_nodes_laid_out(t, source);
        let before = use_statement_nodes(t).map_values(|c: SyntaxNode| use_statement_of(c, source));
        if cs.last().kind@ == "use_statement"@ {
            let x = cs.last();
            let after = use_statement_nodes(cs).map_values(|c: SyntaxNode| use_statement_of(c, source));
            assert(after == before.push(use_statement_of(x, source)));
            assert(use_statement_placed(cs[cs.len() - 1], source));
            assert(bom_start(source) <= cs[cs.len() - 1].start_byte);
            if before.len() > 0 {
                let m = choose|m: int|
                    0 <= m < t.len() && use_statement_nodes(t).last().end_byte == #[trigger] t[m].end_byte;
                assert(t[m] == cs[m]);
                assert(cs[m].end_byte <= cs[cs.len() - 1].start_byte);
                assert(before.last() == use_statement_of(use_statement_nodes(t).last(), source));
                assert forall|k: int| 0 <= k < before.len() implies before[k].text_range.end
                    <= x.start_byte by {
                    if k < before.len() - 1 {
                        assert(before[k].text_range.end <= before[before.len() - 1].text_range.start);
                        assert(statement_in(before[before.len() - 1], source));
                    }
                }
            }
            assert forall|k: int| 0 <= k < after.len() implies #[trigger] statement_in(after[k], source) by {
                if k < before.len() {
                    assert(after[k] == before[k]);
                }
            }
            assert forall|a: int, b: int| 0 <= a < b < after.len() implies #[trigger] after[a].text_range.end
                <= #[trigger] after[b].text_range.start by {
                if b < before.len() {
                    assert(after[a] == before[a] && after[b] == before[b]);
                } else {
                    assert(after[a] == before[a]);
                }
            }
            assert(use_statement_nodes(cs).last() == cs[cs.len() - 1]);
        } else {
            if use_statement_nodes(t).len() > 0 {
                let m = choose|m: int|
                    0 <= m < t.len() && use_statement_nodes(t).last().end_byte == #[trigger] t[m].end_byte;
                assert(t[m] == cs[m]);
            }
        }
    }
}

/// The fix of each block of a scope whose children come in order can be formed.
pub proof fn lemma_ordered_scope_fixes_in(node: SyntaxNode, source: Seq<char>)
    requires
        scope_placed(node, source),
        in_source_order(node.children@, source),
    ensures
        fixes_in(uses_of(node, source), source),
{
    lemma_use_nodes_laid_out(node.children@, source);
    lemma_laid_out_fixes_in(uses_of(node, source), source);
}

/// The `use` statements directly inside a scope node, read in order.
pub fn collect_use_statements(node: &SyntaxNode, source: &str) -> (r: Vec<UseStatementData>)
    requires
        scope_in(*node, source@),
    ensures
        statement_views(r@) == uses_of(*node, source@),
{
    let mut out: Vec<UseStatementData> = Vec::new();
    let n = node.children.len();
    let mut i: usize = 0;
    while i < n
        invariant
            n == node.children@.len(),
            i <= n,
            scope_in(*node, source@),
            statement_views(out@) == use_statement_nodes(node.children@.take(i as int)).map_values(
                |c: SyntaxNode| use_statement_of(c, source@),
            ),
        decreases n - i,
    {
        let ghost before = statement_views(out@);
        let ghost cs = node.children@.take(i + 1);
        assert(cs.drop_last() == node.children@.take(i as int));
        let child = &node.children[i];
        if child.is_kind("use_statement") {
            let st = extract_use_statement_data(child, source);
            out.push(st);
            assert(statement_views(out@) =~= before.push(st@));
            assert(use_statement_nodes(cs) == use_statement_nodes(node.children@.take(i as int)).push(
                node.children@[i as int],
            ));
        }
        i = i + 1;
    }
    assert(node.children@.take(n as int) == node.children@);
    out
}

impl UnsortedUses {
    /// The message of the rule.
    pub fn message(&self) -> (r: String)
        ensures
            r@ == "`use` statements are not sorted"@,
    {
        "`use` statements are not sorted".to_owned()
    }

    /// The title of the rule's fix.
    pub fn fix_title(&self) -> (r: String)
        ensures
            r@ == "Sort `use` statements"@,
    {
        "Sort `use` statements".to_owned()
    }

    /// Checks that the `use` statements of a scope are sorted within each block.
    pub fn check(node: &SyntaxNode, source: &str) -> (r: Option<Vec<Diagnostic<UnsortedUses>>>)
        requires
            scope_in(*node, source@),
            fixes_in(uses_of(*node, source@), source@),
        ensures
            opt_findings(r) == unsorted_uses_findings(uses_of(*node, source@), source@),
    {
        let use_statements = collect_use_statements(node, source);
        find_unsorted_uses(&use_statements, source)
    }

    /// Checks a scope as `check` does, where each item of each `only:` list of its `use`
    /// statements can be cut at its ` as `; `None` where one cannot.
    pub fn try_check(node: &SyntaxNode, source: &str) -> (r: Option<
        Option<Vec<Diagnostic<UnsortedUses>>>,
    >)
        requires
            scope_placed(*node, source@),
            fixes_in(uses_of(*node, source@), source@),
        ensures
            r is Some <==> scope_in(*node, source@),
            r matches Some(x) ==> opt_findings(x) == unsorted_uses_findings(
                uses_of(*node, source@),
                source@,
            ),
    {
        if scope_splits(node, source) {
            Some(Self::check(node, source))
        } else {
            None
        }
    }

    /// The kinds of node whose `use` statements the rule checks.
    pub fn entrypoints() -> (r: Vec<&'static str>)
        ensures
            r@.len() == 5,
            r@[0]@ == "module"@,
            r@[1]@ == "submodule"@,
            r@[2]@ == "program"@,
            r@[3]@ == "subroutine"@,
            r@[4]@ == "function"@,
    {
        vec!["module", "submodule", "program", "subroutine", "function"]
    }
}

proof fn lemma_first_per_row_rows(s: Seq<UseStatement>)
    ensures
        s.len() > 0 ==> first_per_row(s).len() > 0 && first_per_row(s).last().start_row
            == s.last().start_row,
        forall|i: int|
            0 < i < first_per_row(s).len() ==> (#[trigger] first_per_row(s)[i]).start_row
                != first_per_row(s)[i - 1].start_row,
    decreases s.len(),
{
    if s.len() > 0 {
        let t = s.drop_last();
        lemma_first_per_row_rows(t);
        let f = first_per_row(t);
        if !(s.len() >= 2 && s.last().start_row == s[s.len() - 2].start_row) {
            let g = f.push(s.last());
            assert forall|i: int| 0 < i < g.len() implies (#[trigger] g[i]).start_row
                != g[i - 1].start_row by {
                if i < f.len() {
                    assert(g[i] == f[i] && g[i - 1] == f[i - 1]);
                } else {
                    assert(g[i - 1] == f.last());
                    assert(t.last() == s[s.len() - 2]);
                }
            }
        } else {
            assert(t.last() == s[s.len() - 2]);
        }
    }
}

/// The blocks of a scope's `use` statements: of statements that start on one line only the
/// first is kept; the blocks hold exactly the kept statements, in order; each block is a
/// maximal run of statements each starting on the line after the previous one ends; and no
/// two statements kept one after the other start on the same line.
pub proof fn lemma_use_blocks(s: Seq<UseStatement>)
    ensures
        concat_blocks(use_blocks(s)) == first_per_row(s),
        runs_of_adjacent(use_blocks(s)),
        forall|i: int|
            0 < i < first_per_row(s).len() ==> (#[trigger] first_per_row(s)[i]).start_row
                != first_per_row(s)[i - 1].start_row,
{
    lemma_adjacent_runs(first_per_row(s));
    lemma_first_per_row_rows(s);
}

/// The fix of an unsorted block lists the block's statements in sorted order, intrinsic
/// modules first and then by module name, each statement exactly as often as in the block, and
/// statements that sort alike in the order they had.
pub proof fn lemma_block_fix_sorted(b: Seq<UseStatement>)
    ensures
        in_order(sort_uses(b), use_after()),
        sort_uses(b).to_multiset() == b.to_multiset(),
        forall|c: UseStatement| #[trigger] alike(sort_uses(b), c, use_after()) == alike(b, c, use_after()),
{
    lemma_use_after_is_sort_order();
    lemma_sort_in_order(b, use_after());
    assert forall|c: UseStatement| #[trigger] alike(sort_uses(b), c, use_after()) == alike(b, c, use_after()) by {
        lemma_sort_stable(b, c, use_after());
    }
}

/// A block whose statements are already in sorted order is not reported.
pub proof fn lemma_sorted_block_not_reported(b: Seq<UseStatement>, source: Seq<char>)
    requires
        in_order(b, use_after()),
    ensures
        block_finding(b, source) is None,
{
    lemma_sort_keeps_ordered(b, use_after());
}

/// A reported block is out of order.
pub proof fn lemma_reported_block_unsorted(b: Seq<UseStatement>, source: Seq<char>)
    requires
        block_finding(b, source) is Some,
    ensures
        !in_order(b, use_after()),
        b.len() > 1,
{
    if in_order(b, use_after()) {
        lemma_sorted_block_not_reported(b, source);
    }
}

/// A block of two or more statements that is out of sorted order is reported, wherever
/// statements with the same text sort alike (the rule compares the texts of the block with
/// those of its sorted form).
pub proof fn lemma_unsorted_block_reported(b: Seq<UseStatement>, source: Seq<char>)
    requires
        b.len() > 1,
        !in_order(b, use_after()),
        forall|i: int, j: int|
            #![trigger b[i], b[j]]
            0 <= i < b.len() && 0 <= j < b.len() && b[i].text == b[j].text ==> sorts_alike(
                b[i],
                b[j],
                use_after(),
            ),
    ensures
        block_finding(b, source) is Some,
{
    let after = use_after();
    let s = sort_uses(b);
    lemma_block_fix_sorted(b);
    lemma_use_after_is_sort_order();
    lemma_sort_len(b, after);
    if texts(b) == texts(s) {
        assert forall|k: int| 0 <= k < b.len() implies sorts_alike(#[trigger] s[k], b[k], after) by {
            assert(texts(b)[k] == texts(s)[k]);
            s.to_multiset_ensures();
            b.to_multiset_ensures();
            assert(s.contains(s[k]));
            assert(s.to_multiset().count(s[k]) > 0);
            assert(b.to_multiset().count(s[k]) > 0);
            assert(b.contains(s[k]));
            let m = choose|m: int| 0 <= m < b.len() && b[m] == s[k];
            assert(b[m].text == b[k].text);
            assert(sorts_alike(b[m], b[k], after));
        }
        assert forall|i: int, j: int| 0 <= i < j < b.len() implies !after(#[trigger] b[i], #[trigger] b[j]) by {
            assert(sorts_alike(s[i], b[i], after));
            assert(sorts_alike(s[j], b[j], after));
            assert(!after(s[i], s[j]));
            assert(!after(b[i], s[i]));
            assert(!after(b[i], s[j]));
            assert(!after(s[j], b[j]));
        }
        assert(false);
    }
}

proof fn lemma_first_per_row_len(s: Seq<UseStatement>)
    ensures
        first_per_row(s).len() <= s.len(),
    decreases s.len(),
{
    if s.len() > 0 {
        lemma_first_per_row_len(s.drop_last());
    }
}

proof fn lemma_concat_holds_block(bs: Seq<Seq<UseStatement>>, k: int)
    requires
        0 <= k < bs.len(),
    ensures
        bs[k].len() <= concat_blocks(bs).len(),
    decreases bs.len(),
{
    if k < bs.len() - 1 {
        lemma_concat_holds_block(bs.drop_last(), k);
        assert(bs.drop_last()[k] == bs[k]);
    }
}

proof fn lemma_block_findings_hold_finding(bs: Seq<Seq<UseStatement>>, source: Seq<char>, k: int)
    requires
        0 <= k < bs.len(),
        block_finding(bs[k], source) is Some,
    ensures
        block_findings(bs, source).len() > 0,
    decreases bs.len(),
{
    if k < bs.len() - 1 {
        lemma_block_findings_hold_finding(bs.drop_last(), source, k);
        assert(bs.drop_last()[k] == bs[k]);
    }
}

/// A scope is reported as soon as one of its blocks is.
pub proof fn lemma_reported_block_reports_scope(s: Seq<UseStatement>, source: Seq<char>, k: int)
    requires
        0 <= k < use_blocks(s).len(),
        block_finding(use_blocks(s)[k], source) is Some,
    ensures
        unsorted_uses_findings(s, source) is Some,
{
    lemma_use_blocks(s);
    lemma_concat_holds_block(use_blocks(s), k);
    lemma_first_per_row_len(s);
    lemma_block_findings_hold_finding(use_blocks(s), source, k);
}

/// The statements of a block as its fix arranges them are not reported again.
pub proof fn lemma_fixed_block_not_reported(b: Seq<UseStatement>, source: Seq<char>)
    ensures
        block_finding(sort_uses(b), source) is None,
{
    lemma_block_fix_sorted(b);
    lemma_sorted_block_not_reported(sort_uses(b), source);
}

} // verus!
