use fortitude_linter::diagnostic::{Diagnostic, Edit, Fix};
use fortitude_linter::only_items::{
    checked_extract_name_and_comment, checked_extract_only_items, extract_item_name, extract_name_and_comment,
    extract_only_items, item_splits_cleanly, only_list_splits_cleanly,
};
use fortitude_linter::ordering::compare_use_statements;
use fortitude_linter::range::TextRange;
use fortitude_linter::source_lines::{bom_start_offset, compute_full_line_end, compute_line_start, full_lines_str};
use fortitude_linter::syntax::{same_text, SyntaxNode};
use fortitude_linter::text::{decimal_string, find_chars, lowercased, split_lines, to_chars, trimmed};
use fortitude_linter::too_many_parameters::settings::Settings;
use fortitude_linter::too_many_parameters::TooManyParameters;
use fortitude_linter::unsorted_onlys::UnsortedOnlys;
use fortitude_linter::unsorted_uses::{find_unsorted_uses, scope_splits, UnsortedUses};
use fortitude_linter::use_statement::{
    are_statements_adjacent, checked_extract_use_statement_data, group_use_statements_into_blocks,
    use_statement_splits, UseStatementData,
};
use std::cmp::Ordering;

fn statement(start_row: usize, end_row: usize, module: &str, intrinsic: bool, start: u32, text: &str) -> UseStatementData {
    UseStatementData {
        text_range: TextRange::new(start, start + text.len() as u32 - 1),
        start_position_row: start_row,
        end_position_row: end_row,
        text: text.to_string(),
        module_name: module.to_string(),
        is_intrinsic: intrinsic,
        only_items: Vec::new(),
    }
}

#[test]
fn extract_item_name_is_the_name() {
    let item = extract_name_and_comment("Foo AS Bar !! note");
    assert_eq!(item.name, "foo");
    assert_eq!(item.alias, Some("Bar".to_string()));
    assert_eq!(item.inline_comment, Some("!! note".to_string()));
    assert_eq!(extract_item_name(&item), "foo");
}

#[test]
fn extract_name_and_comment_edge_cases() {
    let item = extract_name_and_comment("&&,, ,");
    assert_eq!(item.name, ",,");
    let item = extract_name_and_comment("x as");
    assert_eq!(item.name, "x as");
    assert_eq!(item.alias, None);
    let item = extract_name_and_comment("a !! one !! two");
    assert_eq!(item.name, "a");
    assert_eq!(item.inline_comment, Some("!! one !! two".to_string()));
    let item = extract_name_and_comment("\u{2003}Name as Other\u{a0}");
    assert_eq!(item.name, "name");
    assert_eq!(item.alias, Some("Other".to_string()));
}

#[test]
fn extract_name_cuts_at_the_byte_offset_found_in_the_lowercase_form() {
    // `ẞ` takes three bytes and its lowercase `ß` two, so ` as ` sits one byte earlier in the
    // lowercase form: the cut falls after `ẞ`, and the alias starts four bytes later.
    let item = extract_name_and_comment("ẞx as y");
    assert_eq!(item.name, "ß");
    assert_eq!(item.alias, Some("y".to_string()));
    assert!(item_splits_cleanly("ẞx as y"));
    // Here the offset falls inside the second `ẞ`, where the item cannot be cut.
    assert!(!item_splits_cleanly("ẞẞ as y"));
    assert!(checked_extract_name_and_comment("ẞẞ as y").is_none());
    let item = checked_extract_name_and_comment("Fun_1 AS Alias").unwrap();
    assert_eq!(item.name, "fun_1");
    assert_eq!(item.alias, Some("Alias".to_string()));
    assert!(item_splits_cleanly("no alias here"));
}

#[test]
fn checked_extract_only_items_refuses_an_item_that_cannot_be_cut() {
    assert!(!only_list_splits_cleanly("use m, only: b, &
 ẞẞ as y
"));
    assert!(checked_extract_only_items("use m, only: b, &
 ẞẞ as y
").is_none());
    assert!(only_list_splits_cleanly("use m
"));
    let items = checked_extract_only_items("use m, only: b, &
 A as y
").unwrap();
    let names: Vec<&str> = items.iter().map(|i| i.name.as_str()).collect();
    assert_eq!(names, vec!["b", "a"]);
}

#[test]
fn extract_only_items_reads_one_item_per_line() {
    let text = "  use m, only: fun_b, &\n      fun_a, & !! c\r\n\n      fun_c\n";
    let items = extract_only_items(text);
    let names: Vec<&str> = items.iter().map(|i| i.name.as_str()).collect();
    assert_eq!(names, vec!["fun_b", "fun_a", "fun_c"]);
    assert_eq!(items[1].inline_comment, Some("!! c".to_string()));
    assert!(extract_only_items("  use m\n").is_empty());
    let items = extract_only_items("use m, only: a\n only: b\n");
    assert_eq!(items.len(), 1);
    assert_eq!(items[0].name, "a");
    let items = extract_only_items("use m, only: x, y, z");
    assert_eq!(items.len(), 1);
    assert_eq!(items[0].name, "x, y, z");
}

#[test]
fn statements_adjacent_when_next_starts_on_following_line() {
    let a = statement(3, 4, "a", false, 0, "use a\n");
    let b = statement(5, 5, "b", false, 10, "use b\n");
    let c = statement(7, 7, "c", false, 20, "use c\n");
    assert!(are_statements_adjacent(&a, &b));
    assert!(!are_statements_adjacent(&b, &c));
    assert!(!are_statements_adjacent(&b, &a));
    let zero = statement(0, 0, "z", false, 0, "use z\n");
    assert!(!are_statements_adjacent(&zero, &zero));
}

#[test]
fn grouping_keeps_first_statement_per_line_and_splits_runs() {
    let all = vec![
        statement(1, 1, "a", false, 0, "use a; use x\n"),
        statement(1, 1, "x", false, 7, "use a; use x\n"),
        statement(2, 3, "b", false, 20, "use b\n"),
        statement(4, 4, "c", false, 30, "use c\n"),
        statement(6, 6, "d", false, 40, "use d\n"),
    ];
    let blocks = group_use_statements_into_blocks(&all);
    let names: Vec<Vec<&str>> = blocks
        .iter()
        .map(|b| b.iter().map(|s| s.module_name.as_str()).collect())
        .collect();
    assert_eq!(names, vec![vec!["a", "b", "c"], vec!["d"]]);
    assert!(group_use_statements_into_blocks(&[]).is_empty());
}

#[test]
fn compare_puts_intrinsic_first_then_names() {
    let i = statement(0, 0, "zzz", true, 0, "use, intrinsic :: zzz\n");
    let a = statement(1, 1, "abc", false, 30, "use abc\n");
    let b = statement(2, 2, "abd", false, 40, "use abd\n");
    let ab = statement(3, 3, "ab", false, 50, "use ab\n");
    assert_eq!(compare_use_statements(&i, &a), Ordering::Less);
    assert_eq!(compare_use_statements(&a, &i), Ordering::Greater);
    assert_eq!(compare_use_statements(&a, &b), Ordering::Less);
    assert_eq!(compare_use_statements(&b, &a), Ordering::Greater);
    assert_eq!(compare_use_statements(&ab, &a), Ordering::Less);
    assert_eq!(compare_use_statements(&a, &a), Ordering::Equal);
}

#[test]
fn find_unsorted_uses_on_plain_statements() {
    let source = "use b\nuse a\nuse c\n";
    let stmts = vec![
        statement(0, 0, "b", false, 0, "use b\n"),
        statement(1, 1, "a", false, 6, "use a\n"),
        statement(2, 2, "c", false, 12, "use c\n"),
    ];
    let found = find_unsorted_uses(&stmts, source).expect("unsorted");
    assert_eq!(found.len(), 1);
    let fix = found[0].fix.as_ref().unwrap();
    assert_eq!(fix.edit.range, TextRange::new(0, 18));
    assert_eq!(fix.edit.content, "use a\nuse b\nuse c\n");
    let sorted = vec![
        statement(0, 0, "a", false, 0, "use a\n"),
        statement(1, 1, "b", false, 6, "use b\n"),
    ];
    assert!(find_unsorted_uses(&sorted, "use a\nuse b\n").is_none());
    let stable = vec![
        statement(0, 0, "a", false, 0, "use a !one\n"),
        statement(1, 1, "a", false, 11, "use a !two\n"),
    ];
    assert!(find_unsorted_uses(&stable, "use a !one\nuse a !two\n").is_none());
}

#[test]
fn line_ranges_follow_line_endings() {
    let text = "First line\nsecond line\r\nthird line";
    assert_eq!(compute_line_start(text, 0), 0);
    assert_eq!(compute_line_start(text, 4), 0);
    assert_eq!(compute_line_start(text, 14), 11);
    assert_eq!(compute_line_start(text, 28), 24);
    assert_eq!(compute_full_line_end(text, 3), 11);
    assert_eq!(compute_full_line_end(text, 14), 24);
    assert_eq!(compute_full_line_end(text, 28), 34);
    assert_eq!(full_lines_str(text, 3, 5), "First line\n");
    assert_eq!(full_lines_str(text, 3, 14), "First line\nsecond line\r\n");
    let old_mac = "a\rb\rc";
    assert_eq!(compute_line_start(old_mac, 3), 2);
    assert_eq!(compute_full_line_end(old_mac, 2), 4);
    let bom = "\u{feff}use a\n";
    assert_eq!(bom_start_offset(bom), 3);
    assert_eq!(compute_line_start(bom, 4), 3);
    assert_eq!(full_lines_str(bom, 4, 5), "use a\n");
    assert_eq!(bom_start_offset("x"), 0);
}

#[test]
fn text_helpers() {
    let lines = split_lines(&to_chars("a\r\nb\n\nc\rd\n"));
    let lines: Vec<String> = lines.iter().map(|l| l.iter().collect()).collect();
    assert_eq!(lines, vec!["a", "b", "", "c\rd"]);
    assert!(split_lines(&to_chars("")).is_empty());
    let t: String = trimmed(&to_chars("\t x y \u{3000}")).iter().collect();
    assert_eq!(t, "x y");
    assert_eq!(find_chars(&to_chars("abcabc"), &to_chars("ca")), Some(2));
    assert_eq!(find_chars(&to_chars("abc"), &to_chars("x")), None);
    let lower: String = lowercased(&to_chars("ÉCOLE Straße")).iter().collect();
    assert_eq!(lower, "école straße");
    assert_eq!(decimal_string(0), "0");
    assert_eq!(decimal_string(1234567), "1234567");
    assert!(same_text("abc", "abc"));
    assert!(!same_text("abc", "abd"));
}

#[test]
fn settings_and_messages() {
    let settings = Settings::default();
    assert_eq!(settings.max_parameters, 5);
    assert_eq!(settings.display_text(), "check.too-many-parameters.max_parameters = 5\n");
    let v = TooManyParameters { name: "solve".to_string(), count: 12, threshold: 10 };
    assert_eq!(v.message(), "Function/subroutine 'solve' has 12 parameters (threshold: 10)");
}

#[test]
fn diagnostics_carry_their_fix() {
    let range = TextRange::new(3, 9);
    assert!(!range.is_empty());
    assert!(TextRange::new(4, 4).is_empty());
    let edit = Edit::range_replacement("new".to_string(), range);
    let d = Diagnostic::new(UnsortedUses {}, TextRange::new(1, 2)).with_fix(Fix::safe_edit(edit));
    assert_eq!(d.range, TextRange::new(1, 2));
    let fix = d.fix.unwrap();
    assert_eq!(fix.edit.range, range);
    assert_eq!(fix.edit.content, "new");
}

#[test]
fn node_texts() {
    let source = "héllo wörld";
    let node = SyntaxNode {
        kind: "word".to_string(),
        is_named: true,
        field_name: None,
        start_byte: 7,
        end_byte: 13,
        start_row: 0,
        end_row: 0,
        children: Vec::new(),
    };
    assert_eq!(node.to_text(source), Some("wörld".to_string()));
    assert!(node.is_kind("word"));
    assert_eq!(node.textrange(), TextRange::new(7, 13));
    let split = SyntaxNode { start_byte: 2, ..node };
    assert_eq!(split.to_text(source), None);
}

fn use_node(start: u32, end: u32, start_row: usize, end_row: usize) -> SyntaxNode {
    SyntaxNode {
        kind: "use_statement".to_string(),
        is_named: true,
        field_name: None,
        start_byte: start,
        end_byte: end,
        start_row,
        end_row,
        children: Vec::new(),
    }
}

#[test]
fn try_check_refuses_an_only_item_that_cannot_be_cut() {
    let code = "  use m, only: b, &\n   ẞẞ as y\n";
    let node = use_node(2, (code.len() - 1) as u32, 0, 1);
    assert!(!use_statement_splits(&node, code));
    assert!(checked_extract_use_statement_data(&node, code).is_none());
    assert!(UnsortedOnlys::try_check(&node, code).is_none());
    let scope = SyntaxNode {
        kind: "program".to_string(),
        is_named: true,
        field_name: None,
        start_byte: 0,
        end_byte: code.len() as u32,
        start_row: 0,
        end_row: 2,
        children: vec![use_node(2, (code.len() - 1) as u32, 0, 1)],
    };
    assert!(!scope_splits(&scope, code));
    assert!(UnsortedUses::try_check(&scope, code).is_none());
}

#[test]
fn try_check_runs_the_rule_where_items_can_be_cut() {
    let code = "  use m, only: ẞx as y, &\n   b\n";
    let node = use_node(2, (code.len() - 1) as u32, 0, 1);
    assert!(use_statement_splits(&node, code));
    let data = checked_extract_use_statement_data(&node, code).unwrap();
    let names: Vec<&str> = data.only_items.iter().map(|i| i.name.as_str()).collect();
    assert_eq!(names, vec!["ß", "b"]);
    let found = UnsortedOnlys::try_check(&node, code).unwrap().expect("the list is unsorted");
    assert_eq!(found.len(), 1);
    assert_eq!(found[0].fix.as_ref().unwrap().edit.content, "  use m, only: b, ß as y");
    let scope = SyntaxNode {
        kind: "program".to_string(),
        is_named: true,
        field_name: None,
        start_byte: 0,
        end_byte: code.len() as u32,
        start_row: 0,
        end_row: 2,
        children: vec![use_node(2, (code.len() - 1) as u32, 0, 1)],
    };
    assert!(scope_splits(&scope, code));
    assert!(matches!(UnsortedUses::try_check(&scope, code), Some(None)));
}
