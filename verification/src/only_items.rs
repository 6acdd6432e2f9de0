use vstd::prelude::*;

use vstd::string::StringSliceAdditionalSpecFns;
use vstd::utf8::{
    decode_utf8, encode_utf8, encode_utf8_decode_utf8, encode_utf8_valid_utf8, is_char_boundary,
    valid_utf8_split,
};

use crate::text::{
    contains, copy_range, opt_chars, find, find_chars, from_chars, lines, lowercase, lowercased,
    remove_char, removed_char, split_lines, to_chars, trim, trim_end_char, trim_end_pat, trim_start,
    trimmed, trimmed_end_char, trimmed_end_pat, trimmed_start, views,
};

verus! {

/// One item of the `only:` list of a `use` statement.
#[derive(Clone, Debug)]
pub struct OnlyStatementData {
    /// The item name (without its `as` alias), in lowercase for sorting.
    pub name: String,
    /// The alias, if the item is renamed (`fun_1 as alias`), in its original case.
    pub alias: Option<String>,
    /// The inline comment that follows the item (`!! comment`).
    pub inline_comment: Option<String>,
}

/// The mathematical content of an `only:` item.
pub struct OnlyItem {
    pub name: Seq<char>,
    pub alias: Option<Seq<char>>,
    pub inline_comment: Option<Seq<char>>,
}

impl View for OnlyStatementData {
    type V = OnlyItem;

    open spec fn view(&self) -> OnlyItem {
        OnlyItem {
            name: self.name@,
            alias: opt_chars(self.alias),
            inline_comment: opt_chars(self.inline_comment),
        }
    }
}

/// The marker that opens an inline comment.
pub open spec fn comment_marker() -> Seq<char> {
    seq!['!', '!']
}

/// The item text with continuation markers (`&`) removed and surrounding white space trimmed.
pub open spec fn cleaned_item(item: Seq<char>) -> Seq<char> {
    trim(remove_char(item, '&'))
}

/// The inline comment of an item: from the first `!!` to the end, trimmed.
pub open spec fn item_comment(item: Seq<char>) -> Option<Seq<char>> {
    let c = cleaned_item(item);
    match find(c, comment_marker()) {
        Some(p) => Some(trim(c.skip(p))),
        None => None,
    }
}

/// The item without its comment and without trailing commas: the name and the alias.
pub open spec fn item_entity(item: Seq<char>) -> Seq<char> {
    let c = cleaned_item(item);
    let body = match find(c, comment_marker()) {
        Some(p) => trim(c.take(p)),
        None => c,
    };
    trim(trim_end_char(body, ','))
}

/// The separator between a name and its alias.
pub open spec fn rename_keyword() -> Seq<char> {
    seq![' ', 'a', 's', ' ']
}

/// The byte offset of the first ` as ` in the lowercase form of the entity
/// (`e.to_lowercase().find(" as ")`).
pub open spec fn rename_offset(e: Seq<char>) -> Option<int> {
    match find(lowercase(e), rename_keyword()) {
        Some(q) => Some(encode_utf8(lowercase(e).take(q)).len() as int),
        None => None,
    }
}

/// The entity can be cut at that offset: the offset is a character boundary of the entity, and
/// so is the fourth byte after it (`split_at` and `[4..]` do not panic).
pub open spec fn entity_splits(e: Seq<char>) -> bool {
    let b = encode_utf8(e);
    match rename_offset(e) {
        Some(p) => is_char_boundary(b, p) && is_char_boundary(b.subrange(p, b.len() as int), 4),
        None => true,
    }
}

/// The lowercase name of an entity: its bytes before the offset of ` as `, trimmed and in
/// lowercase, or the whole entity in lowercase.
pub open spec fn entity_name(e: Seq<char>) -> Seq<char> {
    match rename_offset(e) {
        Some(p) => lowercase(trim(decode_utf8(encode_utf8(e).subrange(0, p)))),
        None => lowercase(e),
    }
}

/// The alias of an entity: its bytes from four past the offset of ` as `, trimmed, in their
/// original case.
pub open spec fn entity_alias(e: Seq<char>) -> Option<Seq<char>> {
    let b = encode_utf8(e);
    match rename_offset(e) {
        Some(p) => Some(trim(decode_utf8(b.subrange(p + 4, b.len() as int)))),
        None => None,
    }
}

/// An item whose entity can be cut at its ` as `.
pub open spec fn item_splits(item: Seq<char>) -> bool {
    entity_splits(item_entity(item))
}

/// The lowercase name of an item.
pub open spec fn item_name(item: Seq<char>) -> Seq<char> {
    entity_name(item_entity(item))
}

/// The alias of an item, if it is renamed.
pub open spec fn item_alias(item: Seq<char>) -> Option<Seq<char>> {
    entity_alias(item_entity(item))
}

/// What one line of an `only:` list holds.
pub open spec fn parse_only_item(item: Seq<char>) -> OnlyItem {
    OnlyItem { name: item_name(item), alias: item_alias(item), inline_comment: item_comment(item) }
}

/// The item without its inline comment, and the comment itself.
fn split_comment(cleaned: &Vec<char>) -> (r: (Vec<char>, Option<String>))
    ensures
        r.0@ == (match find(cleaned@, comment_marker()) {
            Some(p) => trim(cleaned@.take(p)),
            None => cleaned@,
        }),
        opt_chars(r.1) == (match find(cleaned@, comment_marker()) {
            Some(p) => Some(trim(cleaned@.skip(p))),
            None => None,
        }),
{
    let marker: Vec<char> = vec!['!', '!'];
    assert(marker@ == comment_marker());
    match find_chars(cleaned.as_slice(), marker.as_slice()) {
        Some(p) => {
            let before = copy_range(cleaned.as_slice(), 0, p);
            let after = copy_range(cleaned.as_slice(), p, cleaned.len());
            assert(before@ == cleaned@.take(p as int));
            assert(after@ == cleaned@.skip(p as int));
            let comment = trimmed(after.as_slice());
            (trimmed(before.as_slice()), Some(from_chars(comment.as_slice())))
        },
        None => (copy_range(cleaned.as_slice(), 0, cleaned.len()), None),
    }
}

/// The byte offset of the first ` as ` in the lowercase form of the entity.
fn rename_offset_of(entity: &Vec<char>) -> (r: (Vec<char>, Option<usize>))
    ensures
        r.0@ == lowercase(entity@),
        r.1 matches Some(p) ==> rename_offset(entity@) == Some(p as int),
        r.1 is None ==> rename_offset(entity@) is None,
{
    let lower = lowercased(entity.as_slice());
    let keyword: Vec<char> = vec![' ', 'a', 's', ' '];
    assert(keyword@ == rename_keyword());
    match find_chars(lower.as_slice(), keyword.as_slice()) {
        Some(q) => {
            let head = copy_range(lower.as_slice(), 0, q);
            assert(head@ == lower@.take(q as int));
            let prefix = from_chars(head.as_slice());
            let bytes = prefix.as_str().as_bytes();
            (lower, Some(bytes.len()))
        },
        None => (lower, None),
    }
}

/// The lowercase name of an entity and its alias.
fn split_rename(entity: &Vec<char>) -> (r: (String, Option<String>))
    requires
        entity_splits(entity@),
    ensures
        r.0@ == entity_name(entity@),
        opt_chars(r.1) == entity_alias(entity@),
{
    let (lower, found) = rename_offset_of(entity);
    match found {
        Some(p) => {
            let text = from_chars(entity.as_slice());
            let ghost b = encode_utf8(entity@);
            let whole = text.as_str();
            assert(whole.spec_bytes() == b);
            proof {
                encode_utf8_valid_utf8(entity@);
                valid_utf8_split(b, p as int);
            }
            assert(p + 4 <= b.len());
            let (left, right) = whole.split_at(p);
            assert(right.spec_bytes() =~= b.subrange(p as int, b.len() as int));
            let (_, rest) = right.split_at(4);
            assert(rest.spec_bytes() =~= b.subrange(p + 4, b.len() as int));
            proof {
                encode_utf8_decode_utf8(left@);
                encode_utf8_decode_utf8(rest@);
            }
            assert(left@ == decode_utf8(b.subrange(0, p as int)));
            assert(rest@ == decode_utf8(b.subrange(p + 4, b.len() as int)));
            let left_chars = to_chars(left);
            let left_trimmed = trimmed(left_chars.as_slice());
            let name = lowercased(left_trimmed.as_slice());
            let rest_chars = to_chars(rest);
            let alias = trimmed(rest_chars.as_slice());
            (from_chars(name.as_slice()), Some(from_chars(alias.as_slice())))
        },
        None => (from_chars(lower.as_slice()), None),
    }
}

/// Splits one `only:` item into its lowercase name, its alias and its inline comment.
///
/// Continuation markers (`&`) are dropped, the comment runs from the first `!!`, and trailing
/// commas are dropped. The name and the alias are cut at the byte offset of the first ` as ` in
/// the lowercase form of what remains.
pub fn extract_name_and_comment(item: &str) -> (r: OnlyStatementData)
    requires
        item_splits(item@),
    ensures
        r@ == parse_only_item(item@),
{
    let chars = to_chars(item);
    let no_amp = removed_char(chars.as_slice(), '&');
    let cleaned = trimmed(no_amp.as_slice());
    let (body, inline_comment) = split_comment(&cleaned);
    let no_commas = trimmed_end_char(body.as_slice(), ',');
    let entity = trimmed(no_commas.as_slice());
    assert(entity@ == item_entity(item@));
    let (name, alias) = split_rename(&entity);
    OnlyStatementData { name, alias, inline_comment }
}

/// Whether the item can be cut at the byte offset of the first ` as ` in its lowercase form: that
/// offset, and the fourth byte after it, fall on character boundaries of the item.
pub fn item_splits_cleanly(item: &str) -> (r: bool)
    ensures
        r == item_splits(item@),
{
    let chars = to_chars(item);
    let no_amp = removed_char(chars.as_slice(), '&');
    let cleaned = trimmed(no_amp.as_slice());
    let (body, _) = split_comment(&cleaned);
    let no_commas = trimmed_end_char(body.as_slice(), ',');
    let entity = trimmed(no_commas.as_slice());
    assert(entity@ == item_entity(item@));
    entity_splits_cleanly(&entity)
}

/// Splits one `only:` item as `extract_name_and_comment` does, where it can be cut at its ` as `;
/// `None` where it cannot.
pub fn checked_extract_name_and_comment(item: &str) -> (r: Option<OnlyStatementData>)
    ensures
        r is Some <==> item_splits(item@),
        r matches Some(d) ==> d@ == parse_only_item(item@),
{
    if item_splits_cleanly(item) {
        Some(extract_name_and_comment(item))
    } else {
        None
    }
}

/// Whether an entity can be cut at its ` as `.
fn entity_splits_cleanly(entity: &Vec<char>) -> (r: bool)
    ensures
        r == entity_splits(entity@),
{
    let (_, found) = rename_offset_of(entity);
    match found {
        Some(p) => {
            let text = from_chars(entity.as_slice());
            let whole = text.as_str();
            if !whole.is_char_boundary(p) {
                return false;
            }
            let (_, right) = whole.split_at(p);
            right.is_char_boundary(4)
        },
        None => true,
    }
}

/// The key by which `only:` items are sorted: their lowercase name.
pub fn extract_item_name(item: &OnlyStatementData) -> (r: String)
    ensures
        r@ == item.name@,
{
    item.name.clone()
}

/// The keyword that opens the list of imported items.
pub open spec fn only_keyword() -> Seq<char> {
    seq!['o', 'n', 'l', 'y', ':']
}

/// The continuation that ends a line of an `only:` list.
pub open spec fn continuation() -> Seq<char> {
    seq![',', ' ', '&']
}

/// The text between the first `only:` of `text` and the next one, or the end of `text`
/// (`text.split("only:").nth(1)`).
pub open spec fn only_list(text: Seq<char>) -> Seq<char> {
    let rest = text.skip(find(text, only_keyword()).unwrap() + 5);
    match find(rest, only_keyword()) {
        Some(q) => rest.take(q),
        None => rest,
    }
}

/// A line of an `only:` list once trimmed and stripped of its trailing continuation and commas.
pub open spec fn only_line(line: Seq<char>) -> Seq<char> {
    trim(trim_end_char(trim_end_pat(trim(line), continuation()), ','))
}

/// The items that the given lines of an `only:` list hold: one per line that is not empty once
/// cleaned, in order.
pub open spec fn items_of_lines(ls: Seq<Seq<char>>) -> Seq<OnlyItem>
    decreases ls.len(),
{
    if ls.len() == 0 {
        seq![]
    } else {
        let prev = items_of_lines(ls.drop_last());
        let l = only_line(ls.last());
        if l.len() == 0 {
            prev
        } else {
            prev.push(parse_only_item(l))
        }
    }
}

/// The items of the `only:` list in the text of a `use` statement; none without `only:`.
pub open spec fn only_items(text: Seq<char>) -> Seq<OnlyItem> {
    if contains(text, only_keyword()) {
        items_of_lines(lines(trim_start(only_list(text))))
    } else {
        seq![]
    }
}

/// Every item of the given lines of an `only:` list can be cut at its ` as `.
pub open spec fn lines_split(ls: Seq<Seq<char>>) -> bool {
    forall|i: int|
        0 <= i < ls.len() && (#[trigger] only_line(ls[i])).len() > 0 ==> item_splits(
            only_line(ls[i]),
        )
}

/// Every item of the `only:` list in the text of a `use` statement can be cut at its ` as `.
pub open spec fn only_items_split(text: Seq<char>) -> bool {
    contains(text, only_keyword()) ==> lines_split(lines(trim_start(only_list(text))))
}

/// The views of a sequence of items.
pub open spec fn item_views(v: Seq<OnlyStatementData>) -> Seq<OnlyItem> {
    v.map_values(|x: OnlyStatementData| x@)
}

/// Whether each item of the `only:` list in the text of a `use` statement can be cut at its ` as `.
pub fn only_list_splits_cleanly(text: &str) -> (r: bool)
    ensures
        r == only_items_split(text@),
{
    let chars = to_chars(text);
    let keyword: Vec<char> = vec!['o', 'n', 'l', 'y', ':'];
    assert(keyword@ == only_keyword());
    let p = match find_chars(chars.as_slice(), keyword.as_slice()) {
        Some(p) => p,
        None => return true,
    };
    let list = only_list_chars(&chars, p);
    let after = trimmed_start(list.as_slice());
    let ls = split_lines(after.as_slice());
    let ghost vs = views(ls@);
    let mut i: usize = 0;
    while i < ls.len()
        invariant
            i <= ls@.len(),
            vs == views(ls@),
            vs == lines(trim_start(only_list(text@))),
            contains(text@, only_keyword()),
            forall|j: int|
                0 <= j < i && (#[trigger] only_line(vs[j])).len() > 0 ==> item_splits(
                    only_line(vs[j]),
                ),
        decreases ls@.len() - i,
    {
        assert(vs[i as int] == ls@[i as int]@);
        let line = only_line_chars(&ls[i]);
        if line.len() > 0 {
            let s = from_chars(line.as_slice());
            if !item_splits_cleanly(s.as_str()) {
                assert(s@ == only_line(vs[i as int]));
                return false;
            }
        }
        i = i + 1;
    }
    true
}

/// The items of the `only:` list in the text of a `use` statement, where each can be cut at its
/// ` as `; `None` where one cannot.
pub fn checked_extract_only_items(text: &str) -> (r: Option<Vec<OnlyStatementData>>)
    ensures
        r is Some <==> only_items_split(text@),
        r matches Some(v) ==> item_views(v@) == only_items(text@),
{
    if only_list_splits_cleanly(text) {
        Some(extract_only_items(text))
    } else {
        None
    }
}

/// The text after the first `only:` and up to the next one.
fn only_list_chars(text: &Vec<char>, p: usize) -> (r: Vec<char>)
    requires
        find(text@, only_keyword()) == Some(p as int),
        p + 5 <= text@.len(),
    ensures
        r@ == only_list(text@),
{
    let n = text.len();
    let rest = copy_range(text.as_slice(), p + 5, n);
    assert(rest@ == text@.skip(p + 5));
    let keyword: Vec<char> = vec!['o', 'n', 'l', 'y', ':'];
    assert(keyword@ == only_keyword());
    match find_chars(rest.as_slice(), keyword.as_slice()) {
        Some(q) => {
            let r = copy_range(rest.as_slice(), 0, q);
            assert(r@ == rest@.take(q as int));
            r
        },
        None => rest,
    }
}

/// The cleaned form of one line of an `only:` list.
fn only_line_chars(line: &Vec<char>) -> (r: Vec<char>)
    ensures
        r@ == only_line(line@),
{
    let t = trimmed(line.as_slice());
    let cont: Vec<char> = vec![',', ' ', '&'];
    assert(cont@ == continuation());
    let a = trimmed_end_pat(t.as_slice(), cont.as_slice());
    let b = trimmed_end_char(a.as_slice(), ',');
    trimmed(b.as_slice())
}

/// The items of the `only:` list in the text of a `use` statement, one per non-empty line.
pub fn extract_only_items(text: &str) -> (r: Vec<OnlyStatementData>)
    requires
        only_items_split(text@),
    ensures
        item_views(r@) == only_items(text@),
{
    let chars = to_chars(text);
    let keyword: Vec<char> = vec!['o', 'n', 'l', 'y', ':'];
    assert(keyword@ == only_keyword());
    let p = match find_chars(chars.as_slice(), keyword.as_slice()) {
        Some(p) => p,
        None => {
            assert(item_views(Seq::<OnlyStatementData>::empty()) =~= Seq::<OnlyItem>::empty());
            return Vec::new();
        },
    };
    let list = only_list_chars(&chars, p);
    let after = trimmed_start(list.as_slice());
    let ls = split_lines(after.as_slice());
    let mut items: Vec<OnlyStatementData> = Vec::new();
    let mut i: usize = 0;
    while i < ls.len()
        invariant
            i <= ls@.len(),
            views(ls@) == lines(trim_start(only_list(text@))),
            lines_split(views(ls@)),
            item_views(items@) == items_of_lines(views(ls@).take(i as int)),
        decreases ls@.len() - i,
    {
        let ghost old_items = items@;
        assert(views(ls@).take(i + 1).drop_last() == views(ls@).take(i as int));
        assert(views(ls@)[i as int] == ls@[i as int]@);
        let line = only_line_chars(&ls[i]);
        if line.len() > 0 {
            let s = from_chars(line.as_slice());
            let item = extract_name_and_comment(s.as_str());
            items.push(item);
            assert(item_views(items@) =~= item_views(old_items).push(item@));
        }
        i = i + 1;
    }
    assert(views(ls@).take(ls@.len() as int) == views(ls@));
    items
}

} // verus!
