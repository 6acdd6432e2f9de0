use vstd::prelude::*;
use vstd::string::{StrSliceExecFns, StringSliceAdditionalSpecFns};
use vstd::utf8::{
    decode_utf8, encode_utf8, encode_utf8_decode_utf8, encode_utf8_first_scalar,
    encode_utf8_valid_utf8, encode_scalar, is_char_boundary, is_char_boundary_iff_not_is_continuation_byte,
    is_char_boundary_start_end_of_seq, length_of_first_scalar, pop_first_scalar, valid_utf8,
    valid_utf8_split,
};

verus! {

/// A line break byte: `'\n'` or `'\r'`.
pub open spec fn is_break(b: u8) -> bool {
    b == 10 || b == 13
}

/// The index of the last line break byte in `bytes[..k]`.
pub open spec fn last_break_before(bytes: Seq<u8>, k: int) -> Option<int>
    decreases k,
{
    if k <= 0 {
        None
    } else if is_break(bytes[k - 1]) {
        Some(k - 1)
    } else {
        last_break_before(bytes, k - 1)
    }
}

/// The index of the first line break byte in `bytes[k..]`.
pub open spec fn first_break_from(bytes: Seq<u8>, k: int) -> Option<int>
    decreases bytes.len() - k,
{
    if k < 0 || k >= bytes.len() {
        None
    } else if is_break(bytes[k]) {
        Some(k)
    } else {
        first_break_from(bytes, k + 1)
    }
}

/// Where the content of a text starts: after a byte order mark, if there is one.
pub open spec fn bom_start(text: Seq<char>) -> int {
    if text.len() > 0 && text[0] == '\u{feff}' {
        3
    } else {
        0
    }
}

/// The byte offset where the line of `offset` starts (`LineRanges::line_start`): after the last
/// line break before `offset`, or at the start of the content.
pub open spec fn line_start(text: Seq<char>, offset: int) -> int {
    match last_break_before(encode_utf8(text), offset) {
        Some(i) => i + 1,
        None => bom_start(text),
    }
}

/// The byte offset right after the line ending of the line of `offset`
/// (`LineRanges::full_line_end`): a `"\r\n"` counts as one line ending.
pub open spec fn full_line_end(text: Seq<char>, offset: int) -> int {
    let b = encode_utf8(text);
    match first_break_from(b, offset) {
        Some(i) => if b[i] == 13 && i + 1 < b.len() && b[i + 1] == 10 {
            i + 2
        } else {
            i + 1
        },
        None => b.len() as int,
    }
}

/// The text of the lines that the byte range `start..end` covers, line endings of the last
/// line included (`LineRanges::full_lines_str`).
pub open spec fn full_lines_text(text: Seq<char>, start: int, end: int) -> Seq<char> {
    decode_utf8(encode_utf8(text).subrange(line_start(text, start), full_line_end(text, end)))
}

/// `offset` lies in the text, at the start of a character.
pub open spec fn is_offset(text: Seq<char>, offset: int) -> bool {
    0 <= offset <= encode_utf8(text).len() && is_char_boundary(encode_utf8(text), offset)
}

/// The byte after a one-byte character starts a character (or ends the text).
pub proof fn lemma_boundary_after_ascii(b: Seq<u8>, i: int)
    requires
        valid_utf8(b),
        0 <= i < b.len(),
        b[i] <= 0x7f,
    ensures
        is_char_boundary(b, i + 1),
    decreases b.len(),
{
    let len = length_of_first_scalar(b);
    if i < len {
        assert(i == 0);
        reveal_with_fuel(is_char_boundary, 2);
    } else {
        let rest = pop_first_scalar(b);
        assert(rest[i - len] == b[i]);
        lemma_boundary_after_ascii(rest, i - len);
    }
}

/// A character boundary of a text is one of each prefix that reaches it.
pub proof fn lemma_boundary_in_prefix(b: Seq<u8>, a: int, e: int)
    requires
        valid_utf8(b),
        0 <= a <= e <= b.len(),
        is_char_boundary(b, a),
        is_char_boundary(b, e),
    ensures
        valid_utf8(b.subrange(0, e)),
        is_char_boundary(b.subrange(0, e), a),
{
    valid_utf8_split(b, e);
    let p = b.subrange(0, e);
    if a == e {
        is_char_boundary_start_end_of_seq(p);
    } else if a == 0 {
    } else {
        is_char_boundary_iff_not_is_continuation_byte(b, a);
        is_char_boundary_iff_not_is_continuation_byte(p, a);
    }
}

/// The end of a byte order mark is a character boundary.
pub proof fn lemma_bom_boundary(text: Seq<char>)
    requires
        text.len() > 0,
        text[0] == '\u{feff}',
    ensures
        is_char_boundary(encode_utf8(text), 3),
        encode_utf8(text).len() >= 3,
{
    let b = encode_utf8(text);
    encode_utf8_first_scalar(text);
    encode_utf8_valid_utf8(text);
    assert(encode_scalar(text[0] as u32).len() == 3);
    assert(pop_first_scalar(b).len() == b.len() - 3);
    reveal_with_fuel(is_char_boundary, 2);
}

/// The offset where the content of `text` starts (`LineRanges::bom_start_offset`).
pub fn bom_start_offset(text: &str) -> (r: u32)
    ensures
        r == bom_start(text@),
{
    if !text.is_empty() && text.get_char(0) == '\u{feff}' {
        3
    } else {
        0
    }
}

/// The byte offset where the line of `offset` starts (`LineRanges::line_start`).
pub fn compute_line_start(text: &str, offset: u32) -> (r: u32)
    requires
        is_offset(text@, offset as int),
        encode_utf8(text@).len() <= u32::MAX,
    ensures
        r == line_start(text@, offset as int),
{
    let b = text.as_bytes();
    let mut k: u32 = offset;
    while k > 0 && b[(k - 1) as usize] != 10 && b[(k - 1) as usize] != 13
        invariant
            b@ == encode_utf8(text@),
            k <= offset <= b@.len(),
            last_break_before(b@, offset as int) == last_break_before(b@, k as int),
        decreases k,
    {
        k = k - 1;
    }
    if k > 0 {
        k
    } else {
        bom_start_offset(text)
    }
}

/// The byte offset right after the line ending of the line of `offset`
/// (`LineRanges::full_line_end`).
pub fn compute_full_line_end(text: &str, offset: u32) -> (r: u32)
    requires
        is_offset(text@, offset as int),
        encode_utf8(text@).len() <= u32::MAX,
    ensures
        r == full_line_end(text@, offset as int),
{
    let b = text.as_bytes();
    let n = b.len();
    let mut k: usize = offset as usize;
    while k < n && b[k] != 10 && b[k] != 13
        invariant
            b@ == encode_utf8(text@),
            n == b@.len(),
            n <= u32::MAX,
            offset <= k <= n,
            first_break_from(b@, offset as int) == first_break_from(b@, k as int),
        decreases n - k,
    {
        k = k + 1;
    }
    if k < n {
        if b[k] == 13 && k + 1 < n && b[k + 1] == 10 {
            (k + 2) as u32
        } else {
            (k + 1) as u32
        }
    } else {
        n as u32
    }
}

/// The computed line bounds are character boundaries.
proof fn lemma_line_bounds(text: Seq<char>, start: int, end: int)
    requires
        is_offset(text, start),
        is_offset(text, end),
    ensures
        is_offset(text, line_start(text, start)),
        is_offset(text, full_line_end(text, end)),
{
    let b = encode_utf8(text);
    encode_utf8_valid_utf8(text);
    is_char_boundary_start_end_of_seq(b);
    lemma_last_break(b, start);
    match last_break_before(b, start) {
        Some(i) => {
            lemma_boundary_after_ascii(b, i);
        },
        None => {
            if text.len() > 0 && text[0] == '\u{feff}' {
                lemma_bom_boundary(text);
            }
        },
    }
    lemma_first_break(b, end);
    match first_break_from(b, end) {
        Some(i) => {
            lemma_boundary_after_ascii(b, i);
            if b[i] == 13 && i + 1 < b.len() && b[i + 1] == 10 {
                lemma_boundary_after_ascii(b, i + 1);
            }
        },
        None => {},
    }
}

proof fn lemma_last_break(b: Seq<u8>, k: int)
    ensures
        last_break_before(b, k) matches Some(i) ==> 0 <= i < k && is_break(b[i]),
    decreases k,
{
    if k > 0 && !is_break(b[k - 1]) {
        lemma_last_break(b, k - 1);
    }
}

proof fn lemma_first_break(b: Seq<u8>, k: int)
    ensures
        first_break_from(b, k) matches Some(i) ==> k <= i < b.len() && is_break(b[i]),
    decreases b.len() - k,
{
    if 0 <= k < b.len() && !is_break(b[k]) {
        lemma_first_break(b, k + 1);
    }
}

/// The text of the lines that the byte range `start..end` covers (`LineRanges::full_lines_str`).
pub fn full_lines_str(text: &str, start: u32, end: u32) -> (r: String)
    requires
        is_offset(text@, start as int),
        is_offset(text@, end as int),
        encode_utf8(text@).len() <= u32::MAX,
        line_start(text@, start as int) <= full_line_end(text@, end as int),
    ensures
        r@ == full_lines_text(text@, start as int, end as int),
{
    let a = compute_line_start(text, start);
    let e = compute_full_line_end(text, end);
    let ghost b = encode_utf8(text@);
    proof {
        lemma_line_bounds(text@, start as int, end as int);
        encode_utf8_valid_utf8(text@);
        lemma_boundary_in_prefix(b, a as int, e as int);
    }
    let (head, _) = text.split_at(e as usize);
    assert(head.spec_bytes() == b.subrange(0, e as int));
    let (_, lines) = head.split_at(a as usize);
    assert(lines.spec_bytes() =~= b.subrange(a as int, e as int));
    proof {
        encode_utf8_decode_utf8(lines@);
    }
    lines.to_owned()
}

/// A line starts no later than any offset on it past the byte order mark, and ends no earlier.
pub proof fn lemma_line_bounds_order(text: Seq<char>, x: int, y: int)
    requires
        bom_start(text) <= x,
        0 <= y,
    ensures
        line_start(text, x) <= x,
        y <= full_line_end(text, y) || y > encode_utf8(text).len(),
{
    let b = encode_utf8(text);
    lemma_last_break(b, x);
    lemma_first_break(b, y);
}

} // verus!
