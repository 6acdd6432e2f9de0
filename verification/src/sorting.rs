use vstd::prelude::*;

use crate::only_items::{item_views, OnlyItem, OnlyStatementData};
use crate::ordering::{
    item_sorts_after, lemma_name_goes_after, name_goes_after, use_goes_after, use_sorts_after,
};
use crate::text::{lemma_lex_lt_order, lex_lt};
use vstd::utf8::encode_utf8;
use crate::use_statement::{targets, UseStatement, UseStatementData};

verus! {

/// `x` inserted into `sorted` right after the last element that `x` does not sort before;
/// `after(a, b)` holds when `b` sorts strictly before `a`.
pub open spec fn insert_sorted<T>(sorted: Seq<T>, x: T, after: spec_fn(T, T) -> bool) -> Seq<T>
    decreases sorted.len(),
{
    if sorted.len() == 0 {
        seq![x]
    } else if after(sorted.last(), x) {
        insert_sorted(sorted.drop_last(), x, after).push(sorted.last())
    } else {
        sorted.push(x)
    }
}

/// The stable sort of `s` (`slice::sort_by`): each element in turn is inserted after all
/// earlier ones that it does not sort before, so elements that sort alike keep their order.
pub open spec fn stable_sort<T>(s: Seq<T>, after: spec_fn(T, T) -> bool) -> Seq<T>
    decreases s.len(),
{
    if s.len() == 0 {
        s
    } else {
        insert_sorted(stable_sort(s.drop_last(), after), s.last(), after)
    }
}

/// No element of `s` sorts strictly before an element ahead of it.
pub open spec fn in_order<T>(s: Seq<T>, after: spec_fn(T, T) -> bool) -> bool {
    forall|i: int, j: int| 0 <= i < j < s.len() ==> !after(#[trigger] s[i], #[trigger] s[j])
}

/// `after` compares as "sorts strictly after" does for an order in which any two elements
/// compare: never both ways, and "does not sort after" is transitive.
pub open spec fn is_sort_order<T>(after: spec_fn(T, T) -> bool) -> bool {
    &&& forall|a: T, b: T| #[trigger] after(a, b) ==> !after(b, a)
    &&& forall|a: T, b: T, c: T|
        !#[trigger] after(a, b) && !#[trigger] after(b, c) ==> !after(a, c)
}

/// `b` sorts strictly before `a` among `use` statements.
pub open spec fn use_after() -> spec_fn(UseStatement, UseStatement) -> bool {
    |a: UseStatement, b: UseStatement| use_goes_after(a, b)
}

/// The name of `b` sorts strictly before the name of `a`.
pub open spec fn item_after() -> spec_fn(OnlyItem, OnlyItem) -> bool {
    |a: OnlyItem, b: OnlyItem| name_goes_after(a.name, b.name)
}

/// The stable sort of `use` statements: intrinsic modules first, then by module name.
pub open spec fn sort_uses(s: Seq<UseStatement>) -> Seq<UseStatement> {
    stable_sort(s, use_after())
}

/// The stable sort of `only:` items by name.
pub open spec fn sort_items(s: Seq<OnlyItem>) -> Seq<OnlyItem> {
    stable_sort(s, item_after())
}

/// Inserting at the position found by scanning back over the elements that sort after `x`.
proof fn lemma_insert_at<T>(sorted: Seq<T>, x: T, after: spec_fn(T, T) -> bool, p: int)
    requires
        0 <= p <= sorted.len(),
        forall|k: int| p <= k < sorted.len() ==> after(#[trigger] sorted[k], x),
        p > 0 ==> !after(sorted[p - 1], x),
    ensures
        insert_sorted(sorted, x, after) == sorted.insert(p, x),
    decreases sorted.len() - p,
{
    if p == sorted.len() {
        assert(sorted.insert(p, x) =~= sorted.push(x));
        if sorted.len() > 0 {
            assert(sorted.last() == sorted[p - 1]);
        }
    } else {
        let d = sorted.drop_last();
        assert(after(sorted[sorted.len() - 1], x));
        lemma_insert_at(d, x, after, p);
        assert(d.insert(p, x).push(sorted.last()) =~= sorted.insert(p, x));
    }
}

/// Values that a stable sort orders, compared through their views.
pub trait SortsAfter: View + Sized {
    /// `after(a, b)` holds when `b` sorts strictly before `a`.
    spec fn goes_after() -> spec_fn(Self::V, Self::V) -> bool;

    /// Whether `b` sorts strictly before `a`.
    fn sorts_after(a: &Self, b: &Self) -> (r: bool)
        ensures
            r == Self::goes_after()(a@, b@),
    ;
}

impl SortsAfter for UseStatementData {
    open spec fn goes_after() -> spec_fn(UseStatement, UseStatement) -> bool {
        use_after()
    }

    fn sorts_after(a: &UseStatementData, b: &UseStatementData) -> (r: bool) {
        use_sorts_after(a, b)
    }
}

impl SortsAfter for OnlyStatementData {
    open spec fn goes_after() -> spec_fn(OnlyItem, OnlyItem) -> bool {
        item_after()
    }

    fn sorts_after(a: &OnlyStatementData, b: &OnlyStatementData) -> (r: bool) {
        item_sorts_after(a, b)
    }
}

/// The values that a vector of references points to, by their views.
pub open spec fn ref_views<T: View>(v: Seq<&T>) -> Seq<T::V> {
    v.map_values(|x: &T| x@)
}

/// The references, stably sorted (`slice::sort_by`): each one in turn is inserted after all
/// earlier ones that it does not sort before.
pub fn stable_sorted<'a, T: SortsAfter>(v: &Vec<&'a T>) -> (r: Vec<&'a T>)
    ensures
        ref_views(r@) == stable_sort(ref_views(v@), T::goes_after()),
{
    let ghost all = ref_views(v@);
    let mut sorted: Vec<&'a T> = Vec::new();
    let mut i: usize = 0;
    let n = v.len();
    while i < n
        invariant
            n == v@.len(),
            all == ref_views(v@),
            i <= n,
            ref_views(sorted@) == stable_sort(all.take(i as int), T::goes_after()),
        decreases n - i,
    {
        let x = v[i];
        let ghost before = ref_views(sorted@);
        let mut p: usize = sorted.len();
        while p > 0 && T::sorts_after(sorted[p - 1], x)
            invariant
                p <= sorted@.len(),
                before == ref_views(sorted@),
                forall|k: int| p <= k < before.len() ==> T::goes_after()(#[trigger] before[k], x@),
            decreases p,
        {
            p = p - 1;
        }
        proof {
            lemma_insert_at(before, x@, T::goes_after(), p as int);
            assert(all.take(i + 1).drop_last() == all.take(i as int));
        }
        sorted.insert(p, x);
        assert(ref_views(sorted@) =~= before.insert(p as int, x@));
        i = i + 1;
    }
    assert(all.take(n as int) == all);
    sorted
}

/// The statements of `block`, stably sorted: intrinsic modules first, then by module name.
pub fn sort_use_statements<'a>(block: &Vec<&'a UseStatementData>) -> (r: Vec<&'a UseStatementData>)
    ensures
        targets(r@) == sort_uses(targets(block@)),
{
    stable_sorted(block)
}

/// References to the given items, stably sorted by name.
pub fn sort_only_items<'a>(items: &'a Vec<OnlyStatementData>) -> (r: Vec<&'a OnlyStatementData>)
    ensures
        ref_views(r@) == sort_items(item_views(items@)),
{
    let mut refs: Vec<&'a OnlyStatementData> = Vec::new();
    let mut i: usize = 0;
    while i < items.len()
        invariant
            i <= items@.len(),
            refs@.len() == i,
            ref_views(refs@) == item_views(items@).take(i as int),
        decreases items@.len() - i,
    {
        let ghost before = refs@;
        refs.push(&items[i]);
        assert(refs@ == before.push(&items@[i as int]));
        assert(ref_views(refs@) =~= item_views(items@).take(i + 1)) by {
            assert(ref_views(before) =~= item_views(items@).take(i as int));
        }
        i = i + 1;
    }
    assert(item_views(items@).take(items@.len() as int) == item_views(items@));
    stable_sorted(&refs)
}

proof fn lemma_insert_len<T>(s: Seq<T>, x: T, after: spec_fn(T, T) -> bool)
    ensures
        insert_sorted(s, x, after).len() == s.len() + 1,
    decreases s.len(),
{
    if s.len() > 0 {
        lemma_insert_len(s.drop_last(), x, after);
    }
}

/// Sorting keeps the number of elements.
pub proof fn lemma_sort_len<T>(s: Seq<T>, after: spec_fn(T, T) -> bool)
    ensures
        stable_sort(s, after).len() == s.len(),
    decreases s.len(),
{
    if s.len() > 0 {
        lemma_sort_len(s.drop_last(), after);
        lemma_insert_len(stable_sort(s.drop_last(), after), s.last(), after);
    }
}

/// Where `insert_sorted` puts `x`: after the last element that `x` does not sort before.
pub open spec fn insert_index<T>(sorted: Seq<T>, x: T, after: spec_fn(T, T) -> bool) -> int
    decreases sorted.len(),
{
    if sorted.len() == 0 {
        0
    } else if after(sorted.last(), x) {
        insert_index(sorted.drop_last(), x, after)
    } else {
        sorted.len() as int
    }
}

proof fn lemma_insert_index<T>(sorted: Seq<T>, x: T, after: spec_fn(T, T) -> bool)
    ensures
        0 <= insert_index(sorted, x, after) <= sorted.len(),
        forall|k: int|
            insert_index(sorted, x, after) <= k < sorted.len() ==> after(#[trigger] sorted[k], x),
        insert_index(sorted, x, after) > 0 ==> !after(sorted[insert_index(sorted, x, after) - 1], x),
        insert_sorted(sorted, x, after) == sorted.insert(insert_index(sorted, x, after), x),
    decreases sorted.len(),
{
    if sorted.len() > 0 {
        let d = sorted.drop_last();
        lemma_insert_index(d, x, after);
        if after(sorted.last(), x) {
            assert forall|k: int|
                insert_index(sorted, x, after) <= k < sorted.len() implies after(#[trigger] sorted[k], x) by {
                if k < sorted.len() - 1 {
                    assert(sorted[k] == d[k]);
                }
            }
            if insert_index(sorted, x, after) > 0 {
                assert(sorted[insert_index(sorted, x, after) - 1] == d[insert_index(d, x, after) - 1]);
            }
        }
        lemma_insert_at(sorted, x, after, insert_index(sorted, x, after));
    }
}

/// Inserting into a sequence in order keeps it in order and adds exactly the inserted element.
pub proof fn lemma_insert_in_order<T>(sorted: Seq<T>, x: T, after: spec_fn(T, T) -> bool)
    requires
        is_sort_order(after),
        in_order(sorted, after),
    ensures
        in_order(insert_sorted(sorted, x, after), after),
        insert_sorted(sorted, x, after).to_multiset() == sorted.to_multiset().insert(x),
{
    lemma_insert_index(sorted, x, after);
    let p = insert_index(sorted, x, after);
    let r = sorted.insert(p, x);
    vstd::seq_lib::to_multiset_insert(sorted, p, x);
    assert forall|i: int, j: int| 0 <= i < j < r.len() implies !after(#[trigger] r[i], #[trigger] r[j]) by {
        if j < p {
            assert(r[i] == sorted[i] && r[j] == sorted[j]);
        } else if j == p {
            assert(r[i] == sorted[i] && r[j] == x);
            if i < p - 1 {
                assert(!after(sorted[i], sorted[p - 1]));
            }
        } else if i > p {
            assert(r[i] == sorted[i - 1] && r[j] == sorted[j - 1]);
        } else if i == p {
            assert(r[i] == x && r[j] == sorted[j - 1]);
            assert(after(sorted[j - 1], x));
        } else {
            assert(r[i] == sorted[i] && r[j] == sorted[j - 1]);
        }
    }
}

/// A stable sort is in order and holds the same elements, as often, as its input.
pub proof fn lemma_sort_in_order<T>(s: Seq<T>, after: spec_fn(T, T) -> bool)
    requires
        is_sort_order(after),
    ensures
        in_order(stable_sort(s, after), after),
        stable_sort(s, after).to_multiset() == s.to_multiset(),
    decreases s.len(),
{
    if s.len() == 0 {
    } else {
        let d = s.drop_last();
        lemma_sort_in_order(d, after);
        lemma_insert_in_order(stable_sort(d, after), s.last(), after);
        assert(d.push(s.last()) == s);
        d.to_multiset_ensures();
    }
}

/// Sorting a sequence that is already in order leaves it as it is.
pub proof fn lemma_sort_keeps_ordered<T>(s: Seq<T>, after: spec_fn(T, T) -> bool)
    requires
        in_order(s, after),
    ensures
        stable_sort(s, after) == s,
    decreases s.len(),
{
    if s.len() > 0 {
        let d = s.drop_last();
        assert(in_order(d, after)) by {
            assert forall|i: int, j: int| 0 <= i < j < d.len() implies !after(#[trigger] d[i], #[trigger] d[j]) by {
                assert(d[i] == s[i] && d[j] == s[j]);
            }
        }
        lemma_sort_keeps_ordered(d, after);
        if d.len() > 0 {
            assert(!after(s[d.len() - 1], s[s.len() - 1]));
            assert(d.last() == s[d.len() - 1]);
        }
        assert(d.push(s.last()) == s);
    }
}

/// Names never sort after each other both ways, and "does not sort after" is transitive among
/// them.
proof fn lemma_names_sort_order(a: Seq<char>, b: Seq<char>, c: Seq<char>)
    ensures
        name_goes_after(a, b) ==> !name_goes_after(b, a),
        !name_goes_after(a, b) && !name_goes_after(b, c) ==> !name_goes_after(a, c),
{
    lemma_name_goes_after(a, b);
    lemma_name_goes_after(b, a);
    lemma_name_goes_after(b, c);
    lemma_name_goes_after(a, c);
    let (ea, eb, ec) = (encode_utf8(a), encode_utf8(b), encode_utf8(c));
    lemma_lex_lt_order(ea, eb, ea);
    lemma_lex_lt_order(ec, eb, ea);
    lemma_lex_lt_order(eb, ec, ea);
    lemma_lex_lt_order(ec, ea, eb);
    lemma_lex_lt_order(ea, eb, ec);
    lemma_lex_lt_order(eb, ea, ec);
    lemma_lex_lt_order(ea, ec, eb);
}

/// Sorting `only:` items by name follows a sort order.
pub proof fn lemma_item_after_is_sort_order()
    ensures
        is_sort_order(item_after()),
{
    let after = item_after();
    assert forall|a: OnlyItem, b: OnlyItem| #[trigger] after(a, b) implies !after(b, a) by {
        lemma_names_sort_order(a.name, b.name, a.name);
    }
    assert forall|a: OnlyItem, b: OnlyItem, c: OnlyItem|
        !#[trigger] after(a, b) && !#[trigger] after(b, c) implies !after(a, c) by {
        lemma_names_sort_order(a.name, b.name, c.name);
    }
}

/// Sorting `use` statements, intrinsic modules first and then by module name, follows a sort
/// order.
pub proof fn lemma_use_after_is_sort_order()
    ensures
        is_sort_order(use_after()),
{
    let after = use_after();
    assert forall|a: UseStatement, b: UseStatement| #[trigger] after(a, b) implies !after(b, a) by {
        lemma_names_sort_order(a.module_name, b.module_name, a.module_name);
    }
    assert forall|a: UseStatement, b: UseStatement, c: UseStatement|
        !#[trigger] after(a, b) && !#[trigger] after(b, c) implies !after(a, c) by {
        lemma_names_sort_order(a.module_name, b.module_name, c.module_name);
    }
}

/// Neither of `a` and `b` sorts before the other.
pub open spec fn sorts_alike<T>(a: T, b: T, after: spec_fn(T, T) -> bool) -> bool {
    !after(a, b) && !after(b, a)
}

/// The elements of `s` that sort alike with `c`, in their order in `s`.
pub open spec fn alike<T>(s: Seq<T>, c: T, after: spec_fn(T, T) -> bool) -> Seq<T>
    decreases s.len(),
{
    if s.len() == 0 {
        s
    } else if sorts_alike(s.last(), c, after) {
        alike(s.drop_last(), c, after).push(s.last())
    } else {
        alike(s.drop_last(), c, after)
    }
}

proof fn lemma_alike_append<T>(x: Seq<T>, y: Seq<T>, c: T, after: spec_fn(T, T) -> bool)
    ensures
        alike(x + y, c, after) == alike(x, c, after) + alike(y, c, after),
    decreases y.len(),
{
    if y.len() == 0 {
        assert(x + y == x);
    } else {
        assert((x + y).drop_last() == x + y.drop_last());
        lemma_alike_append(x, y.drop_last(), c, after);
    }
}

proof fn lemma_alike_push<T>(t: Seq<T>, x: T, c: T, after: spec_fn(T, T) -> bool)
    ensures
        alike(t.push(x), c, after) == (if sorts_alike(x, c, after) {
            alike(t, c, after).push(x)
        } else {
            alike(t, c, after)
        }),
{
    assert(t.push(x).drop_last() == t);
    assert(t.push(x).last() == x);
}

proof fn lemma_alike_none<T>(y: Seq<T>, c: T, after: spec_fn(T, T) -> bool)
    requires
        forall|k: int| 0 <= k < y.len() ==> !sorts_alike(#[trigger] y[k], c, after),
    ensures
        alike(y, c, after) == Seq::<T>::empty(),
    decreases y.len(),
{
    if y.len() > 0 {
        lemma_alike_none(y.drop_last(), c, after);
    }
}

/// Inserting `x` appends it to the elements that sort alike with it, and leaves the others'.
proof fn lemma_insert_alike<T>(sorted: Seq<T>, x: T, c: T, after: spec_fn(T, T) -> bool)
    requires
        is_sort_order(after),
    ensures
        alike(insert_sorted(sorted, x, after), c, after) == alike(sorted.push(x), c, after),
{
    lemma_insert_index(sorted, x, after);
    let p = insert_index(sorted, x, after);
    let head = sorted.take(p);
    let tail = sorted.skip(p);
    assert(sorted.insert(p, x) == head.push(x) + tail);
    assert(sorted == head + tail);
    lemma_alike_append(head.push(x), tail, c, after);
    lemma_alike_append(head, tail, c, after);
    assert(head.push(x).drop_last() == head);
    if sorts_alike(x, c, after) {
        assert forall|k: int| 0 <= k < tail.len() implies !sorts_alike(#[trigger] tail[k], c, after) by {
            assert(tail[k] == sorted[p + k]);
            assert(after(sorted[p + k], x));
        }
        lemma_alike_none(tail, c, after);
        lemma_alike_push(sorted, x, c, after);
        lemma_alike_push(head, x, c, after);
        assert(alike(head, c, after) + alike(tail, c, after) == alike(head, c, after));
    } else {
        lemma_alike_push(sorted, x, c, after);
        lemma_alike_push(head, x, c, after);
    }
}

/// The sort is stable: the elements that sort alike with any given value keep their order.
pub proof fn lemma_sort_stable<T>(s: Seq<T>, c: T, after: spec_fn(T, T) -> bool)
    requires
        is_sort_order(after),
    ensures
        alike(stable_sort(s, after), c, after) == alike(s, c, after),
    decreases s.len(),
{
    if s.len() > 0 {
        let d = s.drop_last();
        lemma_sort_stable(d, c, after);
        lemma_insert_alike(stable_sort(d, after), s.last(), c, after);
        lemma_alike_push(stable_sort(d, after), s.last(), c, after);
        lemma_alike_push(d, s.last(), c, after);
        assert(d.push(s.last()) == s);
    }
}

} // verus!
