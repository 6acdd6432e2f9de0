use vstd::prelude::*;
use vstd::string::StringExecFns;

use crate::diagnostic::{opt_findings, Diagnostic, Edit, Finding, Fix, Replacement};
use crate::only_items::{extract_item_name, only_keyword, OnlyItem, OnlyStatementData};
use crate::sorting::{
    alike, in_order, item_after, ref_views, lemma_sort_stable, lemma_item_after_is_sort_order, lemma_sort_in_order,
    lemma_sort_keeps_ordered, lemma_sort_len, sort_items, sort_only_items,
};
use crate::syntax::SyntaxNode;
use crate::text::{copy_range, find, find_chars, from_chars, to_chars};
use crate::use_statement::{
    extract_use_statement_data, use_statement_in, use_statement_of, use_statement_placed,
    use_statement_splits, UseStatement,
};

verus! {

/// The names of the items.
pub open spec fn names(items: Seq<OnlyItem>) -> Seq<Seq<char>> {
    items.map_values(|it: OnlyItem| it.name)
}

/// The text of an item as the fix writes it: its name, ` as ` and its alias if it has one, and
/// a space and its comment if it has one.
pub open spec fn item_text(it: OnlyItem) -> Seq<char> {
    let renamed = match it.alias {
        Some(a) => it.name + " as "@ + a,
        None => it.name,
    };
    match it.inline_comment {
        Some(c) => renamed + " "@ + c,
        None => renamed,
    }
}

/// The texts joined with `sep` between each two of them (`slice::join`).
pub open spec fn join_with(ts: Seq<Seq<char>>, sep: Seq<char>) -> Seq<char>
    decreases ts.len(),
{
    if ts.len() == 0 {
        seq![]
    } else if ts.len() == 1 {
        ts[0]
    } else {
        join_with(ts.drop_last(), sep) + sep + ts.last()
    }
}

/// The text before the first `only:` (`text.split("only:").nth(0)`).
pub open spec fn before_only(text: Seq<char>) -> Seq<char> {
    match find(text, only_keyword()) {
        Some(p) => text.take(p),
        None => text,
    }
}

/// The text that replaces a statement whose `only:` list is unsorted: the text before `only:`,
/// then `only: ` and the items sorted by name, separated by `, `.
pub open spec fn sorted_statement_text(st: UseStatement) -> Seq<char> {
    before_only(st.text) + "only: "@ + join_with(
        sort_items(st.only_items).map_values(|it: OnlyItem| item_text(it)),
        ", "@,
    )
}

/// What the sorted-`only` rule reports for one `use` statement: nothing unless it has two or
/// more items that are not in order of name; else a finding on the statement whose fix replaces
/// it by its sorted form.
pub open spec fn unsorted_onlys_findings(st: UseStatement) -> Option<Seq<Finding>> {
    if st.only_items.len() > 1 && names(st.only_items) != names(sort_items(st.only_items)) {
        Some(
            seq![
                Finding {
                    range: st.text_range,
                    fix: Some(Replacement { range: st.text_range, content: sorted_statement_text(st) }),
                },
            ],
        )
    } else {
        None
    }
}

/// The rule that the items of an `only:` list are sorted by name.
pub struct UnsortedOnlys {}

/// The names of the items in `items` and in `sorted` agree, position by position.
fn same_names(items: &Vec<OnlyStatementData>, sorted: &Vec<&OnlyStatementData>) -> (r: bool)
    requires
        items@.len() == sorted@.len(),
    ensures
        r == (names(crate::only_items::item_views(items@)) == names(ref_views(sorted@))),
{
    let mut i: usize = 0;
    while i < items.len()
        invariant
            items@.len() == sorted@.len(),
            i <= items@.len(),
            forall|k: int| 0 <= k < i ==> items@[k].name@ == sorted@[k].name@,
        decreases items@.len() - i,
    {
        let a = extract_item_name(&items[i]);
        let b = extract_item_name(sorted[i]);
        if a != b {
            assert(names(crate::only_items::item_views(items@))[i as int] != names(
                ref_views(sorted@),
            )[i as int]);
            return false;
        }
        i = i + 1;
    }
    assert(names(crate::only_items::item_views(items@)) =~= names(ref_views(sorted@)));
    true
}

/// The text of an item as the fix writes it.
fn render_item(item: &OnlyStatementData) -> (r: String)
    ensures
        r@ == item_text(item@),
{
    let mut text = item.name.clone();
    match &item.alias {
        Some(alias) => {
            text.append(" as ");
            text.append(alias.as_str());
        },
        None => {},
    }
    match &item.inline_comment {
        Some(comment) => {
            text.append(" ");
            text.append(comment.as_str());
        },
        None => {},
    }
    text
}

/// The items in the given order, rendered and joined with `, `.
fn join_items(sorted: &Vec<&OnlyStatementData>) -> (r: String)
    ensures
        r@ == join_with(ref_views(sorted@).map_values(|it: OnlyItem| item_text(it)), ", "@),
{
    let ghost ts = ref_views(sorted@).map_values(|it: OnlyItem| item_text(it));
    let mut r = String::new();
    let mut i: usize = 0;
    while i < sorted.len()
        invariant
            ts == ref_views(sorted@).map_values(|it: OnlyItem| item_text(it)),
            i <= sorted@.len(),
            r@ == join_with(ts.take(i as int), ", "@),
        decreases sorted@.len() - i,
    {
        assert(ts.take(i + 1).drop_last() == ts.take(i as int));
        let piece = render_item(sorted[i]);
        if i > 0 {
            r.append(", ");
        } else {
            assert(ts.take(0) =~= Seq::<Seq<char>>::empty());
            assert(ts.take(1)[0] == ts[0]);
        }
        r.append(piece.as_str());
        i = i + 1;
    }
    assert(ts.take(sorted@.len() as int) == ts);
    r
}

/// The text before the first `only:`.
fn text_before_only(text: &String) -> (r: String)
    ensures
        r@ == before_only(text@),
{
    let chars = to_chars(text.as_str());
    let keyword: Vec<char> = vec!['o', 'n', 'l', 'y', ':'];
    assert(keyword@ == only_keyword());
    match find_chars(chars.as_slice(), keyword.as_slice()) {
        Some(p) => {
            let before = copy_range(chars.as_slice(), 0, p);
            assert(before@ == chars@.take(p as int));
            from_chars(before.as_slice())
        },
        None => text.clone(),
    }
}

impl UnsortedOnlys {
    /// The message of the rule.
    pub fn message(&self) -> (r: String)
        ensures
            r@ == "Items in `only` clause are not sorted"@,
    {
        "Items in `only` clause are not sorted".to_owned()
    }

    /// The title of the rule's fix.
    pub fn fix_title(&self) -> (r: String)
        ensures
            r@ == "Sort items in `only` clause"@,
    {
        "Sort items in `only` clause".to_owned()
    }

    /// Checks that the items of the `only:` list of a `use` statement are sorted by name.
    pub fn check(node: &SyntaxNode, source: &str) -> (r: Option<Vec<Diagnostic<UnsortedOnlys>>>)
        requires
            use_statement_in(*node, source@),
        ensures
            opt_findings(r) == unsorted_onlys_findings(use_statement_of(*node, source@)),
    {
        let use_stmt = extract_use_statement_data(node, source);
        let ghost st = use_stmt@;
        if use_stmt.only_items.len() > 0 && use_stmt.only_items.len() > 1 {
            let sorted_items = sort_only_items(&use_stmt.only_items);
            proof {
                crate::sorting::lemma_sort_len(st.only_items, crate::sorting::item_after());
            }
            let is_sorted = same_names(&use_stmt.only_items, &sorted_items);
            if !is_sorted {
                let sorted_only = join_items(&sorted_items);
                let mut replacement = text_before_only(&use_stmt.text);
                replacement.append("only: ");
                replacement.append(sorted_only.as_str());
                let edit = Edit::range_replacement(replacement, use_stmt.text_range);
                let fix = Fix::safe_edit(edit);
                let diag = Diagnostic::new(UnsortedOnlys {}, use_stmt.text_range).with_fix(fix);
                let mut out: Vec<Diagnostic<UnsortedOnlys>> = Vec::new();
                out.push(diag);
                assert(crate::diagnostic::findings_of(out@) =~= seq![diag@]);
                return Some(out);
            }
        }
        None
    }

    /// Checks a `use` statement as `check` does, where each item of its `only:` list can be cut
    /// at its ` as `; `None` where one cannot.
    pub fn try_check(node: &SyntaxNode, source: &str) -> (r: Option<
        Option<Vec<Diagnostic<UnsortedOnlys>>>,
    >)
        requires
            use_statement_placed(*node, source@),
        ensures
            r is Some <==> use_statement_in(*node, source@),
            r matches Some(x) ==> opt_findings(x) == unsorted_onlys_findings(
                use_statement_of(*node, source@),
            ),
    {
        if use_statement_splits(node, source) {
            Some(Self::check(node, source))
        } else {
            None
        }
    }

    /// The kind of node that the rule checks.
    pub fn entrypoints() -> (r: Vec<&'static str>)
        ensures
            r@.len() == 1,
            r@[0]@ == "use_statement"@,
    {
        vec!["use_statement"]
    }
}

/// Items with the same names, position by position, are in order together.
proof fn lemma_order_by_names(x: Seq<OnlyItem>, y: Seq<OnlyItem>)
    requires
        names(x) == names(y),
        in_order(y, item_after()),
    ensures
        in_order(x, item_after()),
{
    assert(x.len() == names(x).len() && y.len() == names(y).len());
    assert forall|i: int, j: int| 0 <= i < j < x.len() implies !item_after()(
        #[trigger] x[i],
        #[trigger] x[j],
    ) by {
        assert(names(x)[i] == names(y)[i] && names(x)[j] == names(y)[j]);
        assert(!item_after()(y[i], y[j]));
    }
}

/// The sorted-`only` rule reports a statement exactly when its `only:` list holds two or more
/// items whose names are not in sorted order.
pub proof fn lemma_onlys_reported_iff_unsorted(st: UseStatement)
    ensures
        unsorted_onlys_findings(st) is Some <==> st.only_items.len() > 1 && !in_order(
            st.only_items,
            item_after(),
        ),
{
    lemma_item_after_is_sort_order();
    lemma_sort_in_order(st.only_items, item_after());
    if in_order(st.only_items, item_after()) {
        lemma_sort_keeps_ordered(st.only_items, item_after());
    } else if names(st.only_items) == names(sort_items(st.only_items)) {
        lemma_order_by_names(st.only_items, sort_items(st.only_items));
    }
}

/// The fix of an unsorted `only:` list lists its items in order of name, each exactly as often
/// as in the list, and items of the same name in the order they had.
pub proof fn lemma_onlys_fix_sorted(items: Seq<OnlyItem>)
    ensures
        in_order(sort_items(items), item_after()),
        sort_items(items).to_multiset() == items.to_multiset(),
        forall|c: OnlyItem| #[trigger] alike(sort_items(items), c, item_after()) == alike(items, c, item_after()),
{
    lemma_item_after_is_sort_order();
    lemma_sort_in_order(items, item_after());
    assert forall|c: OnlyItem| #[trigger] alike(sort_items(items), c, item_after()) == alike(items, c, item_after()) by {
        lemma_sort_stable(items, c, item_after());
    }
}

/// A statement whose `only:` items stand as its fix arranges them is not reported again.
pub proof fn lemma_fixed_onlys_not_reported(st: UseStatement)
    ensures
        unsorted_onlys_findings(UseStatement { only_items: sort_items(st.only_items), ..st }) is None,
{
    let fixed = UseStatement { only_items: sort_items(st.only_items), ..st };
    lemma_onlys_fix_sorted(st.only_items);
    lemma_onlys_reported_iff_unsorted(fixed);
}

/// Joining puts the separator between every two texts: one more text after at least one adds
/// the separator and then that text; a single text is joined as it is.
pub proof fn lemma_join_with_push(ts: Seq<Seq<char>>, t: Seq<char>, sep: Seq<char>)
    ensures
        ts.len() > 0 ==> join_with(ts.push(t), sep) == join_with(ts, sep) + sep + t,
        join_with(seq![t], sep) == t,
{
    assert(ts.push(t).drop_last() == ts);
    assert(ts.push(t).last() == t);
}

} // verus!
