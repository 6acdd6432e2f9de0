use vstd::prelude::*;
use vstd::string::StringSliceAdditionalSpecFns;
use vstd::utf8::encode_utf8;

use crate::only_items::{
    extract_only_items, item_views, only_items, only_items_split, only_list_splits_cleanly, OnlyItem,
    OnlyStatementData,
};
use crate::range::TextRange;
use crate::source_lines::{full_line_end, full_lines_str, full_lines_text, is_offset, line_start};
use crate::syntax::{
    first_where, lemma_first_where_prefix, node_range, node_text, placed_in, spans, SyntaxNode,
};
use crate::text::{
    eq_ignore_ascii_case, from_chars, lowercase, lowercased, same_ignoring_ascii_case, to_chars,
};

verus! {

/// What the sorting rules read of one `use` statement.
pub struct UseStatementData {
    /// The byte range of the statement.
    pub text_range: TextRange,
    /// The zero-based line where the statement starts.
    pub start_position_row: usize,
    /// The zero-based line where the statement ends.
    pub end_position_row: usize,
    /// The full source lines that the statement covers, line endings included.
    pub text: String,
    /// The name of the used module, in lowercase; empty when the statement names none.
    pub module_name: String,
    /// The statement is `use, intrinsic :: ...`.
    pub is_intrinsic: bool,
    /// The items of its `only:` list.
    pub only_items: Vec<OnlyStatementData>,
}

/// The mathematical content of a `use` statement.
pub struct UseStatement {
    pub text_range: TextRange,
    pub start_row: usize,
    pub end_row: usize,
    pub text: Seq<char>,
    pub module_name: Seq<char>,
    pub is_intrinsic: bool,
    pub only_items: Seq<OnlyItem>,
}

impl View for UseStatementData {
    type V = UseStatement;

    open spec fn view(&self) -> UseStatement {
        UseStatement {
            text_range: self.text_range,
            start_row: self.start_position_row,
            end_row: self.end_position_row,
            text: self.text@,
            module_name: self.module_name@,
            is_intrinsic: self.is_intrinsic,
            only_items: item_views(self.only_items@),
        }
    }
}

/// What a `use` statement node of the source holds.
pub open spec fn use_statement_of(node: SyntaxNode, source: Seq<char>) -> UseStatement {
    let text = full_lines_text(source, node.start_byte as int, node.end_byte as int);
    UseStatement {
        text_range: node_range(node),
        start_row: node.start_row,
        end_row: node.end_row,
        text,
        module_name: module_key(node, source),
        is_intrinsic: names_intrinsic(node, source),
        only_items: only_items(text),
    }
}

/// The index of the first named node of kind `kind` in `cs`.
pub open spec fn first_named_of_kind(cs: Seq<SyntaxNode>, kind: Seq<char>) -> Option<int> {
    first_where(cs, |n: SyntaxNode| n.is_named && n.kind@ == kind)
}

/// The name of the module that a `use` statement names: the text of its first `module_name`
/// child.
pub open spec fn module_name_text(node: SyntaxNode, source: Seq<char>) -> Option<Seq<char>> {
    match first_named_of_kind(node.children@, "module_name"@) {
        Some(i) => node_text(node.children@[i], source),
        None => None,
    }
}

/// A child of a `use` statement that marks the module as intrinsic: the `intrinsic` keyword
/// (an unnamed node of kind `intrinsic`), or any child but the module name that reads
/// `intrinsic` in any ASCII case.
pub open spec fn intrinsic_marker(child: SyntaxNode, source: Seq<char>) -> bool {
    ||| !child.is_named && child.kind@ == "intrinsic"@
    ||| child.kind@ != "module_name"@ && match node_text(child, source) {
        Some(t) => same_ignoring_ascii_case(t, "intrinsic"@),
        None => false,
    }
}

/// A `use` statement is intrinsic (`use, intrinsic :: m`, in any case) when one of its
/// children marks it so.
pub open spec fn names_intrinsic(node: SyntaxNode, source: Seq<char>) -> bool {
    exists|i: int| 0 <= i < node.children@.len() && #[trigger] intrinsic_marker(node.children@[i], source)
}

/// A `use` statement node that lies in the source, with a range whose lines can be cut out.
pub open spec fn use_statement_placed(node: SyntaxNode, source: Seq<char>) -> bool {
    &&& encode_utf8(source).len() <= u32::MAX
    &&& placed_in(node, encode_utf8(source).len() as int)
    &&& is_offset(source, node.start_byte as int)
    &&& is_offset(source, node.end_byte as int)
    &&& line_start(source, node.start_byte as int) <= full_line_end(source, node.end_byte as int)
}

/// A `use` statement node that lies in the source, and whose `only:` items can each be cut at
/// their ` as `.
pub open spec fn use_statement_in(node: SyntaxNode, source: Seq<char>) -> bool {
    &&& use_statement_placed(node, source)
    &&& only_items_split(full_lines_text(source, node.start_byte as int, node.end_byte as int))
}

/// Whether each item of the `only:` list of a `use` statement can be cut at its ` as `.
pub fn use_statement_splits(node: &SyntaxNode, source: &str) -> (r: bool)
    requires
        use_statement_placed(*node, source@),
    ensures
        r == use_statement_in(*node, source@),
{
    let text = full_lines_str(source, node.start_byte, node.end_byte);
    only_list_splits_cleanly(text.as_str())
}

/// The lowercase module name, or the empty string.
pub open spec fn module_key(node: SyntaxNode, source: Seq<char>) -> Seq<char> {
    match module_name_text(node, source) {
        Some(t) => lowercase(t),
        None => seq![],
    }
}

/// The text of the first named `module_name` child of `node`.
pub fn module_name(node: &SyntaxNode, source: &str) -> (r: Option<String>)
    requires
        placed_in(*node, source.spec_bytes().len() as int),
    ensures
        crate::text::opt_chars(r) == module_name_text(*node, source@),
{
    let mut i: usize = 0;
    let n = node.children.len();
    while i < n
        invariant
            n == node.children@.len(),
            i <= n,
            placed_in(*node, source.spec_bytes().len() as int),
            first_named_of_kind(node.children@.take(i as int), "module_name"@) is None,
        decreases n - i,
    {
        assert(node.children@.take(i + 1).drop_last() == node.children@.take(i as int));
        let child = &node.children[i];
        if child.is_named && child.is_kind("module_name") {
            assert(first_named_of_kind(node.children@.take(i + 1), "module_name"@) == Some(i as int));
            proof {
                lemma_first_where_prefix(
                    node.children@,
                    |n: SyntaxNode| n.is_named && n.kind@ == "module_name"@,
                    i as int + 1,
                );
            }
            assert(spans(node.children@[i as int], source.spec_bytes().len() as int));
            return child.to_text(source);
        }
        i = i + 1;
    }
    assert(node.children@.take(n as int) == node.children@);
    None
}

/// Whether one of the children of `node` marks it as intrinsic.
fn is_intrinsic_statement(node: &SyntaxNode, source: &str) -> (r: bool)
    requires
        placed_in(*node, source.spec_bytes().len() as int),
    ensures
        r == names_intrinsic(*node, source@),
{
    let mut i: usize = 0;
    let n = node.children.len();
    while i < n
        invariant
            n == node.children@.len(),
            i <= n,
            placed_in(*node, source.spec_bytes().len() as int),
            forall|j: int| 0 <= j < i ==> !#[trigger] intrinsic_marker(node.children@[j], source@),
        decreases n - i,
    {
        assert(spans(node.children@[i as int], source.spec_bytes().len() as int));
        let child = &node.children[i];
        if !child.is_named && child.is_kind("intrinsic") {
            assert(intrinsic_marker(node.children@[i as int], source@));
            return true;
        }
        if !child.is_kind("module_name") {
            match child.to_text(source) {
                Some(t) => {
                    if eq_ignore_ascii_case(t.as_str(), "intrinsic") {
                        assert(intrinsic_marker(node.children@[i as int], source@));
                        return true;
                    }
                },
                None => {},
            }
        }
        i = i + 1;
    }
    false
}

/// Reads one `use` statement: its range and lines, the lowercase module name, whether it is
/// intrinsic, and the items of its `only:` list.
pub fn extract_use_statement_data(node: &SyntaxNode, source: &str) -> (r: UseStatementData)
    requires
        use_statement_in(*node, source@),
    ensures
        r@ == use_statement_of(*node, source@),
{
    let text = full_lines_str(source, node.start_byte, node.end_byte);
    let module_name = match module_name(node, source) {
        Some(m) => {
            let chars = to_chars(m.as_str());
            let lower = lowercased(chars.as_slice());
            from_chars(lower.as_slice())
        },
        None => String::new(),
    };
    let is_intrinsic = is_intrinsic_statement(node, source);
    let only_items = extract_only_items(text.as_str());
    UseStatementData {
        text_range: node.textrange(),
        start_position_row: node.start_row,
        end_position_row: node.end_row,
        text,
        module_name,
        is_intrinsic,
        only_items,
    }
}

/// Reads one `use` statement, where each item of its `only:` list can be cut at its ` as `;
/// `None` where one cannot.
pub fn checked_extract_use_statement_data(node: &SyntaxNode, source: &str) -> (r: Option<
    UseStatementData,
>)
    requires
        use_statement_placed(*node, source@),
    ensures
        r is Some <==> use_statement_in(*node, source@),
        r matches Some(d) ==> d@ == use_statement_of(*node, source@),
{
    if use_statement_splits(node, source) {
        Some(extract_use_statement_data(node, source))
    } else {
        None
    }
}

/// The second statement starts on the line right after the one where the first ends.
pub open spec fn adjacent(first: UseStatement, second: UseStatement) -> bool {
    second.start_row == first.end_row + 1
}

/// Two `use` statements are adjacent if the second one starts on the line immediately
/// following the end of the first one.
pub fn are_statements_adjacent(stmt1: &UseStatementData, stmt2: &UseStatementData) -> (r: bool)
    ensures
        r == adjacent(stmt1@, stmt2@),
{
    let line1 = stmt1.end_position_row;
    let line2 = stmt2.start_position_row;
    line2 > 0 && line2 - 1 == line1
}

/// The statements without those that start on the same line as the statement before them:
/// of statements that share a starting line, only the first is kept.
pub open spec fn first_per_row(s: Seq<UseStatement>) -> Seq<UseStatement>
    decreases s.len(),
{
    if s.len() == 0 {
        s
    } else if s.len() >= 2 && s.last().start_row == s[s.len() - 2].start_row {
        first_per_row(s.drop_last())
    } else {
        first_per_row(s.drop_last()).push(s.last())
    }
}

/// The maximal runs of `s` in which each statement is adjacent to the one before it.
pub open spec fn adjacent_runs(s: Seq<UseStatement>) -> Seq<Seq<UseStatement>>
    decreases s.len(),
{
    if s.len() == 0 {
        seq![]
    } else if s.len() == 1 {
        seq![s]
    } else {
        let prev = adjacent_runs(s.drop_last());
        if adjacent(s[s.len() - 2], s.last()) {
            prev.update(prev.len() - 1, prev.last().push(s.last()))
        } else {
            prev.push(seq![s.last()])
        }
    }
}

/// The blocks that a sequence of `use` statements forms: first per row, then split into runs
/// of adjacent statements.
pub open spec fn use_blocks(s: Seq<UseStatement>) -> Seq<Seq<UseStatement>> {
    adjacent_runs(first_per_row(s))
}

/// The statements that a vector of references points to.
pub open spec fn targets(v: Seq<&UseStatementData>) -> Seq<UseStatement> {
    crate::sorting::ref_views(v)
}

/// The views of a sequence of statements.
pub open spec fn statement_views(v: Seq<UseStatementData>) -> Seq<UseStatement> {
    v.map_values(|x: UseStatementData| x@)
}

/// The statements of each block.
pub open spec fn block_targets(v: Seq<Vec<&UseStatementData>>) -> Seq<Seq<UseStatement>> {
    v.map_values(|b: Vec<&UseStatementData>| targets(b@))
}

/// Groups `use` statements into contiguous blocks: of statements that start on the same line
/// only the first counts, and a block ends where the next statement does not start on the line
/// after the previous one ends.
pub fn group_use_statements_into_blocks<'a>(all_use_statements: &'a [UseStatementData]) -> (r: Vec<
    Vec<&'a UseStatementData>,
>)
    ensures
        block_targets(r@) == use_blocks(statement_views(all_use_statements@)),
{
    let n = all_use_statements.len();
    let mut use_statements: Vec<&'a UseStatementData> = Vec::new();
    let mut i: usize = 0;
    while i < n
        invariant
            n == all_use_statements@.len(),
            i <= n,
            targets(use_statements@) == first_per_row(statement_views(all_use_statements@).take(i as int)),
        decreases n - i,
    {
        let ghost before = use_statements@;
        let ghost s = statement_views(all_use_statements@).take(i + 1);
        assert(s.drop_last() == statement_views(all_use_statements@).take(i as int));
        if i == 0 || all_use_statements[i].start_position_row != all_use_statements[i
            - 1].start_position_row {
            use_statements.push(&all_use_statements[i]);
            assert(targets(use_statements@) == targets(before).push(all_use_statements@[i as int]@));
        }
        i = i + 1;
    }
    assert(statement_views(all_use_statements@).take(n as int) == statement_views(all_use_statements@));
    let ghost d = targets(use_statements@);
    let m = use_statements.len();
    if m == 0 {
        assert(block_targets(Seq::<Vec<&UseStatementData>>::empty()) =~= Seq::<Seq<UseStatement>>::empty());
        return Vec::new();
    }
    let mut blocks: Vec<Vec<&'a UseStatementData>> = Vec::new();
    let mut current: Vec<&'a UseStatementData> = Vec::new();
    current.push(use_statements[0]);
    assert(d.take(1) == seq![d[0]]);
    assert(targets(current@) == seq![d[0]]);
    let mut k: usize = 1;
    while k < m
        invariant
            m == use_statements@.len(),
            d == targets(use_statements@),
            1 <= k <= m,
            current@.len() > 0,
            targets(current@).last() == d[k - 1],
            adjacent_runs(d.take(k as int)) == block_targets(blocks@).push(targets(current@)),
        decreases m - k,
    {
        let ghost bs = block_targets(blocks@);
        let ghost cur = targets(current@);
        let ghost s = d.take(k + 1);
        assert(s.drop_last() == d.take(k as int));
        assert(s[s.len() - 2] == d[k - 1]);
        let prev = use_statements[k - 1];
        let curr = use_statements[k];
        if are_statements_adjacent(prev, curr) {
            current.push(curr);
            assert(targets(current@) == cur.push(d[k as int]));
            assert(bs.push(cur).update(bs.len() as int, cur.push(d[k as int])) == bs.push(cur.push(d[k as int])));
        } else {
            blocks.push(current);
            assert(block_targets(blocks@) == bs.push(cur));
            current = Vec::new();
            current.push(curr);
            assert(targets(current@) == seq![d[k as int]]);
        }
        k = k + 1;
    }
    let ghost bs = block_targets(blocks@);
    let ghost cur = targets(current@);
    blocks.push(current);
    assert(block_targets(blocks@) == bs.push(cur));
    assert(d.take(m as int) == d);
    blocks
}

/// The statements of all blocks, one block after the other.
pub open spec fn concat_blocks(bs: Seq<Seq<UseStatement>>) -> Seq<UseStatement>
    decreases bs.len(),
{
    if bs.len() == 0 {
        seq![]
    } else {
        concat_blocks(bs.drop_last()) + bs.last()
    }
}

/// The blocks are the runs of adjacent statements: each is non-empty, each statement of a block
/// is adjacent to the one before it, and the first statement of a block is not adjacent to the
/// last one of the block before.
pub open spec fn runs_of_adjacent(bs: Seq<Seq<UseStatement>>) -> bool {
    &&& forall|j: int| 0 <= j < bs.len() ==> #[trigger] bs[j].len() > 0
    &&& forall|j: int, k: int|
        0 <= j < bs.len() && 1 <= k < bs[j].len() ==> adjacent(#[trigger] bs[j][k - 1], bs[j][k])
    &&& forall|j: int|
        1 <= j < bs.len() ==> !adjacent(#[trigger] bs[j - 1].last(), bs[j][0])
}

/// Grouping into blocks keeps every statement and its order, and the blocks are exactly the
/// maximal runs of adjacent statements.
pub proof fn lemma_adjacent_runs(s: Seq<UseStatement>)
    ensures
        concat_blocks(adjacent_runs(s)) == s,
        runs_of_adjacent(adjacent_runs(s)),
        s.len() > 0 ==> adjacent_runs(s).len() > 0 && adjacent_runs(s).last().last() == s.last(),
    decreases s.len(),
{
    if s.len() == 0 {
    } else if s.len() == 1 {
        assert(seq![s].drop_last() =~= Seq::<Seq<UseStatement>>::empty());
        assert(concat_blocks(seq![s]) == concat_blocks(Seq::<Seq<UseStatement>>::empty()) + s);
        assert(Seq::<UseStatement>::empty() + s == s);
    } else {
        let t = s.drop_last();
        let x = s.last();
        lemma_adjacent_runs(t);
        let prev = adjacent_runs(t);
        assert(t.last() == s[s.len() - 2]);
        if adjacent(s[s.len() - 2], x) {
            let bs = prev.update(prev.len() - 1, prev.last().push(x));
            assert(bs.drop_last() == prev.drop_last());
            assert(concat_blocks(bs) == concat_blocks(prev.drop_last()) + prev.last().push(x));
            assert(concat_blocks(prev) == concat_blocks(prev.drop_last()) + prev.last());
            assert(concat_blocks(bs) == concat_blocks(prev).push(x));
            assert(t.push(x) == s);
            assert forall|j: int, k: int|
                0 <= j < bs.len() && 1 <= k < bs[j].len() implies adjacent(#[trigger] bs[j][k - 1], bs[j][k]) by {
                if j < prev.len() - 1 {
                    assert(bs[j] == prev[j]);
                } else if k < bs[j].len() - 1 {
                    assert(bs[j][k] == prev[j][k]);
                    assert(bs[j][k - 1] == prev[j][k - 1]);
                }
            }
            assert forall|j: int| 1 <= j < bs.len() implies !adjacent(#[trigger] bs[j - 1].last(), bs[j][0]) by {
                if j < prev.len() - 1 {
                    assert(bs[j] == prev[j]);
                    assert(bs[j - 1] == prev[j - 1]);
                } else {
                    assert(bs[j][0] == prev[j][0]);
                    assert(bs[j - 1] == prev[j - 1]);
                }
            }
            assert forall|j: int| 0 <= j < bs.len() implies #[trigger] bs[j].len() > 0 by {
                if j < prev.len() - 1 {
                    assert(bs[j] == prev[j]);
                }
            }
        } else {
            let bs = prev.push(seq![x]);
            assert(bs.drop_last() == prev);
            assert(concat_blocks(bs) == concat_blocks(prev) + seq![x]);
            assert(t + seq![x] == s);
            assert forall|j: int, k: int|
                0 <= j < bs.len() && 1 <= k < bs[j].len() implies adjacent(#[trigger] bs[j][k - 1], bs[j][k]) by {
                assert(bs[j] == prev[j]);
            }
            assert forall|j: int| 1 <= j < bs.len() implies !adjacent(#[trigger] bs[j - 1].last(), bs[j][0]) by {
                if j < prev.len() {
                    assert(bs[j] == prev[j]);
                    assert(bs[j - 1] == prev[j - 1]);
                }
            }
            assert forall|j: int| 0 <= j < bs.len() implies #[trigger] bs[j].len() > 0 by {
                if j < prev.len() {
                    assert(bs[j] == prev[j]);
                }
            }
        }
    }
}

/// Statements are adjacent exactly when the second starts on the line right after the first
/// ends. So within each block of a scope every statement starts on the line after the one
/// before it ends, and a block starts elsewhere than on the line after the previous block ends:
/// statements with any line between them fall in different blocks.
pub proof fn lemma_blocks_on_consecutive_lines(s: Seq<UseStatement>)
    ensures
        forall|a: UseStatement, b: UseStatement|
            #[trigger] adjacent(a, b) <==> b.start_row == a.end_row + 1,
        forall|j: int, k: int|
            0 <= j < use_blocks(s).len() && 1 <= k < use_blocks(s)[j].len() ==> (#[trigger] use_blocks(s)[j][k]).start_row
                == use_blocks(s)[j][k - 1].end_row + 1,
        forall|j: int|
            1 <= j < use_blocks(s).len() ==> (#[trigger] use_blocks(s)[j])[0].start_row
                != use_blocks(s)[j - 1].last().end_row + 1,
{
    lemma_adjacent_runs(first_per_row(s));
    let bs = use_blocks(s);
    assert forall|j: int, k: int|
        0 <= j < bs.len() && 1 <= k < bs[j].len() implies (#[trigger] bs[j][k]).start_row
            == bs[j][k - 1].end_row + 1 by {
        assert(adjacent(bs[j][k - 1], bs[j][k]));
    }
    assert forall|j: int| 1 <= j < bs.len() implies (#[trigger] bs[j])[0].start_row
        != bs[j - 1].last().end_row + 1 by {
        assert(!adjacent(bs[j - 1].last(), bs[j][0]));
    }
}

} // verus!
