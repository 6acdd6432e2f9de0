# fortitude_linter

Three style rules of a Fortran linter, written in Verus and verified:

- `unsorted_uses`: within each block of consecutive `use` statements, intrinsic modules
  (`use, intrinsic :: m`, the keyword in any case) come first, then modules in order of name;
  an unsorted block is reported with a fix that sorts it.
- `unsorted_onlys`: the items of an `only:` list are in order of name; an unsorted list is
  reported with a fix that sorts it.
- `too_many_parameters`: a function or subroutine declares at most a configurable number of
  dummy arguments (five by default); comments inside the argument list do not count.

An `only:` item `name as alias` is cut at the byte offset of the first ` as ` in the lowercase
form of the item. Where a letter before it changes its length in bytes when lowercased, that
offset may fall inside a character; the extraction functions require that it does not, and
`item_splits_cleanly`, `use_statement_splits`, `scope_splits`, the `checked_*` functions and the
rules' `try_check` test it first.

`src/` is the verified library. The rules take a plain model of a parsed syntax tree
(`syntax::SyntaxNode`) and the source text; `app/` reads tree-sitter trees into that model and
turns the findings into ruff edits and fixes. `tests/` parse Fortran with tree-sitter and run the
rules.

Laws proved in `src/`: the blocks of `use` statements partition the statements kept (the first
per line), in order, into maximal runs of adjacent lines (`unsorted_uses::lemma_use_blocks`);
fixes list the statements or items in sorted order, as a stable permutation
(`lemma_block_fix_sorted`, `lemma_onlys_fix_sorted`, `sorting::lemma_sort_stable`); blocks and
lists already in order are not reported (`lemma_sorted_block_not_reported`,
`lemma_onlys_reported_iff_unsorted`), nor are they once fixed (`lemma_fixed_block_not_reported`,
`lemma_fixed_onlys_not_reported`).
