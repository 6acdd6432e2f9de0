use std::cmp::Ordering;

use vstd::prelude::*;
use vstd::string::StringSliceAdditionalSpecFns;
use vstd::utf8::encode_utf8;

use crate::only_items::OnlyStatementData;
use crate::text::{bytes_lt, lemma_lex_lt_order, lex_lt};
use vstd::utf8::encode_utf8_decode_utf8;
use crate::use_statement::{UseStatement, UseStatementData};

verus! {

/// How two strings compare (`str::cmp`): lexicographically by their UTF-8 bytes.
pub open spec fn text_order(a: Seq<char>, b: Seq<char>) -> Ordering {
    if a == b {
        Ordering::Equal
    } else if lex_lt(encode_utf8(a), encode_utf8(b)) {
        Ordering::Less
    } else {
        Ordering::Greater
    }
}

/// How two `use` statements compare: intrinsic modules first, then by module name.
pub open spec fn use_order(a: UseStatement, b: UseStatement) -> Ordering {
    if a.is_intrinsic && !b.is_intrinsic {
        Ordering::Less
    } else if !a.is_intrinsic && b.is_intrinsic {
        Ordering::Greater
    } else {
        text_order(a.module_name, b.module_name)
    }
}

/// Compares two strings by their bytes (`str::cmp`).
pub fn compare_text(a: &str, b: &str) -> (r: Ordering)
    ensures
        r == text_order(a@, b@),
{
    if crate::syntax::same_text(a, b) {
        Ordering::Equal
    } else if bytes_lt(a.as_bytes(), b.as_bytes()) {
        Ordering::Less
    } else {
        Ordering::Greater
    }
}

/// Intrinsic modules (e.g. `use, intrinsic :: iso_fortran_env`) always come first,
/// followed by regular modules sorted alphabetically by name.
pub fn compare_use_statements(a: &UseStatementData, b: &UseStatementData) -> (r: Ordering)
    ensures
        r == use_order(a@, b@),
{
    match (a.is_intrinsic, b.is_intrinsic) {
        (true, false) => Ordering::Less,
        (false, true) => Ordering::Greater,
        _ => compare_text(a.module_name.as_str(), b.module_name.as_str()),
    }
}

/// `b` sorts strictly before `a`: a stable sort moves it in front of `a`.
pub open spec fn use_goes_after(a: UseStatement, b: UseStatement) -> bool {
    use_order(a, b) == Ordering::Greater
}

/// `b` sorts strictly before `a`.
pub fn use_sorts_after(a: &UseStatementData, b: &UseStatementData) -> (r: bool)
    ensures
        r == use_goes_after(a@, b@),
{
    match compare_use_statements(a, b) {
        Ordering::Greater => true,
        _ => false,
    }
}

/// The name `b` sorts strictly before the name `a`.
pub open spec fn name_goes_after(a: Seq<char>, b: Seq<char>) -> bool {
    text_order(a, b) == Ordering::Greater
}

/// The name of `b` sorts strictly before the name of `a`.
pub fn item_sorts_after(a: &OnlyStatementData, b: &OnlyStatementData) -> (r: bool)
    ensures
        r == name_goes_after(a.name@, b.name@),
{
    match compare_text(a.name.as_str(), b.name.as_str()) {
        Ordering::Greater => true,
        _ => false,
    }
}

/// A name sorts after another exactly when its bytes come later.
pub proof fn lemma_name_goes_after(a: Seq<char>, b: Seq<char>)
    ensures
        name_goes_after(a, b) <==> lex_lt(encode_utf8(b), encode_utf8(a)),
{
    let ea = encode_utf8(a);
    let eb = encode_utf8(b);
    lemma_lex_lt_order(ea, eb, ea);
    lemma_lex_lt_order(eb, ea, eb);
    encode_utf8_decode_utf8(a);
    encode_utf8_decode_utf8(b);
}

/// Two statements that are both intrinsic, or both not, compare by module name; an intrinsic one
/// comes before one that is not; and two statements compare equal only when both are intrinsic
/// or both not and their module names are the same.
pub proof fn lemma_use_order_intrinsic_then_name(a: UseStatement, b: UseStatement)
    ensures
        a.is_intrinsic == b.is_intrinsic ==> use_order(a, b) == text_order(
            a.module_name,
            b.module_name,
        ),
        a.is_intrinsic && !b.is_intrinsic ==> use_order(a, b) == Ordering::Less,
        !a.is_intrinsic && b.is_intrinsic ==> use_order(a, b) == Ordering::Greater,
        use_order(a, b) == Ordering::Equal <==> (a.is_intrinsic == b.is_intrinsic && a.module_name
            == b.module_name),
{
    lemma_text_order_reverses(a.module_name, b.module_name);
}

/// Names compare equal exactly when they are the same, and swapping them reverses the order.
pub proof fn lemma_text_order_reverses(a: Seq<char>, b: Seq<char>)
    ensures
        text_order(a, b) == Ordering::Equal <==> a == b,
        text_order(a, b) == Ordering::Less <==> text_order(b, a) == Ordering::Greater,
{
    let ea = encode_utf8(a);
    let eb = encode_utf8(b);
    lemma_lex_lt_order(ea, eb, ea);
    lemma_lex_lt_order(eb, ea, eb);
    encode_utf8_decode_utf8(a);
    encode_utf8_decode_utf8(b);
}

} // verus!
