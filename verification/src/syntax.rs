use vstd::prelude::*;
use vstd::string::StringSliceAdditionalSpecFns;
use vstd::utf8::{
    decode_utf8, encode_utf8, encode_utf8_decode_utf8, encode_utf8_valid_utf8, is_char_boundary,
    valid_utf8,
};

use crate::range::TextRange;
use crate::source_lines::lemma_boundary_in_prefix;
use crate::text::opt_chars;

verus! {

/// A node of a syntax tree of a source text: what the rules read of a parsed node.
pub struct SyntaxNode {
    /// The grammar's name for the node (`use_statement`, `module_name`, ...).
    pub kind: String,
    /// The node stands for a rule of the grammar, not for an anonymous token.
    pub is_named: bool,
    /// The name of the field under which the parent holds this node, if any.
    pub field_name: Option<String>,
    /// The byte offset where the node starts.
    pub start_byte: u32,
    /// The byte offset where the node ends.
    pub end_byte: u32,
    /// The zero-based line of the node's first byte.
    pub start_row: usize,
    /// The zero-based line of the node's last byte.
    pub end_row: usize,
    /// The children, in source order.
    pub children: Vec<SyntaxNode>,
}

/// The node lies within a text of `len` bytes, starting no later than it ends.
pub open spec fn spans(node: SyntaxNode, len: int) -> bool {
    node.start_byte <= node.end_byte <= len
}

/// The node and its children lie within a text of `len` bytes.
pub open spec fn placed_in(node: SyntaxNode, len: int) -> bool {
    &&& spans(node, len)
    &&& forall|i: int| 0 <= i < node.children@.len() ==> #[trigger] spans(node.children@[i], len)
}

/// The text of a node (`Node::utf8_text`): its bytes, when they start and end at character
/// boundaries of the source.
pub open spec fn node_text(node: SyntaxNode, source: Seq<char>) -> Option<Seq<char>> {
    let b = encode_utf8(source);
    if is_char_boundary(b, node.start_byte as int) && is_char_boundary(b, node.end_byte as int) {
        Some(decode_utf8(b.subrange(node.start_byte as int, node.end_byte as int)))
    } else {
        None
    }
}

/// The index of the first node in `cs` that satisfies `p`.
pub open spec fn first_where(cs: Seq<SyntaxNode>, p: spec_fn(SyntaxNode) -> bool) -> Option<int>
    decreases cs.len(),
{
    if cs.len() == 0 {
        None
    } else {
        match first_where(cs.drop_last(), p) {
            Some(i) => Some(i),
            None => if p(cs.last()) {
                Some(cs.len() - 1)
            } else {
                None
            },
        }
    }
}

/// A first match among the first `k` nodes is the first match among all of them.
pub proof fn lemma_first_where_prefix(cs: Seq<SyntaxNode>, p: spec_fn(SyntaxNode) -> bool, k: int)
    requires
        0 <= k <= cs.len(),
        first_where(cs.take(k), p) is Some,
    ensures
        first_where(cs, p) == first_where(cs.take(k), p),
    decreases cs.len() - k,
{
    if k < cs.len() {
        assert(cs.take(k + 1).drop_last() == cs.take(k));
        lemma_first_where_prefix(cs, p, k + 1);
    } else {
        assert(cs.take(k) == cs);
    }
}

/// The byte range of a node.
pub open spec fn node_range(node: SyntaxNode) -> TextRange {
    TextRange { start: node.start_byte, end: node.end_byte }
}

/// The strings hold the same characters.
pub fn same_text(a: &str, b: &str) -> (r: bool)
    ensures
        r == (a@ == b@),
{
    a.to_owned() == b.to_owned()
}

impl SyntaxNode {
    /// The node's kind is `kind`.
    pub fn is_kind(&self, kind: &str) -> (r: bool)
        ensures
            r == (self.kind@ == kind@),
    {
        same_text(self.kind.as_str(), kind)
    }

    /// The byte range of the node.
    pub fn textrange(&self) -> (r: TextRange)
        requires
            self.start_byte <= self.end_byte,
        ensures
            r == node_range(*self),
    {
        TextRange::new(self.start_byte, self.end_byte)
    }

    /// The text of the node in `source`, when it starts and ends at character boundaries.
    pub fn to_text(&self, source: &str) -> (r: Option<String>)
        requires
            self.start_byte <= self.end_byte <= source.spec_bytes().len(),
        ensures
            opt_chars(r) == node_text(*self, source@),
    {
        let start = self.start_byte as usize;
        let end = self.end_byte as usize;
        if !source.is_char_boundary(start) || !source.is_char_boundary(end) {
            return None;
        }
        let ghost b = encode_utf8(source@);
        proof {
            encode_utf8_valid_utf8(source@);
            lemma_boundary_in_prefix(b, start as int, end as int);
        }
        let (head, _) = source.split_at(end);
        let (_, piece) = head.split_at(start);
        assert(piece.spec_bytes() =~= b.subrange(start as int, end as int));
        proof {
            encode_utf8_decode_utf8(piece@);
        }
        Some(piece.to_owned())
    }
}

} // verus!
