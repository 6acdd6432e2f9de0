use fortitude_linter::only_items::{extract_item_name, OnlyStatementData};
use fortitude_linter::syntax::SyntaxNode;
use fortitude_linter::use_statement::{
    extract_use_statement_data, group_use_statements_into_blocks, UseStatementData,
};
use tree_sitter::{Parser, TreeCursor};

fn convert(cursor: &mut TreeCursor) -> SyntaxNode {
    let node = cursor.node();
    let field_name = cursor.field_name().map(|f| f.to_string());
    let mut children = Vec::new();
    if cursor.goto_first_child() {
        loop {
            children.push(convert(cursor));
            if !cursor.goto_next_sibling() {
                break;
            }
        }
        cursor.goto_parent();
    }
    SyntaxNode {
        kind: node.kind().to_string(),
        is_named: node.is_named(),
        field_name,
        start_byte: u32::try_from(node.start_byte()).unwrap(),
        end_byte: u32::try_from(node.end_byte()).unwrap(),
        start_row: node.start_position().row,
        end_row: node.end_position().row,
        children,
    }
}

fn first_child_of_root(code: &str) -> SyntaxNode {
    let mut parser = Parser::new();
    parser
        .set_language(&tree_sitter_fortran::LANGUAGE.into())
        .expect("Error loading Fortran grammar");
    let tree = parser.parse(code, None).expect("Failed to parse");
    let root = tree.root_node();
    let child = root.child(0).expect("Missing program node");
    let mut cursor = child.walk();
    convert(&mut cursor)
}

fn use_statements_of(node: &SyntaxNode, code: &str) -> Vec<UseStatementData> {
    node.children
        .iter()
        .filter(|child| child.kind == "use_statement")
        .map(|child| extract_use_statement_data(child, code))
        .collect()
}

#[test]
fn test_group_use_statements_into_blocks() {
    // Block 1: alpha, beta
    // blank line separator
    // Block 2: charlie, delta
    // comment separator
    // Block 3: echo (alone)
    // Block 4: only foxtrot is kept — golf is on the same line and must be ignored
    let code = r#"
        program foo
          use alpha_module
          use beta_module

          use charlie_module
          use delta_module
          ! a comment acts as a separator
          use echo_module

          use foxtrot_module; use golf_module
        end program foo
    "#;

    let program_node = first_child_of_root(code);
    assert_eq!(program_node.kind, "program");

    let use_statements = use_statements_of(&program_node, code);
    let blocks = group_use_statements_into_blocks(&use_statements);
    let block_names = |block: &Vec<&UseStatementData>| -> Vec<String> {
        block.iter().map(|s| s.module_name.clone()).collect()
    };

    assert_eq!(blocks.len(), 4, "expected 4 blocks");
    assert_eq!(block_names(&blocks[0]), vec!["alpha_module", "beta_module"]);
    assert_eq!(block_names(&blocks[1]), vec!["charlie_module", "delta_module"]);
    assert_eq!(block_names(&blocks[2]), vec!["echo_module"]);
    assert_eq!(block_names(&blocks[3]), vec!["foxtrot_module"]); // golf_module ignored: same line
}

#[test]
fn test_extract_use_statement_data() {
    let code = r#"
        program foo
          use iso_fortran_env, only: real64
          use, intrinsic :: iso_c_binding, only: c_int
          use My_Module
          use foxtrot_module; use golf_module
          use multiline_module, only: fun_1, &
                                      fun_2, & !! 123_comments
                                      fun_3
        end program foo
    "#;

    let root = first_child_of_root(code);
    let all_use_statements = use_statements_of(&root, code);

    assert_eq!(all_use_statements.len(), 6);

    // Test regular use statement
    let regular = &all_use_statements[0];
    assert!(!regular.is_intrinsic);
    assert_eq!(regular.module_name, "iso_fortran_env");
    assert_eq!(regular.start_position_row, 2);
    assert_eq!(regular.end_position_row, 2);
    assert!(regular.text.contains("iso_fortran_env"));
    assert!(!regular.text_range.is_empty());

    // Test intrinsic use statement
    let intrinsic = &all_use_statements[1];
    assert!(intrinsic.is_intrinsic);
    assert_eq!(intrinsic.module_name, "iso_c_binding");
    assert_eq!(intrinsic.start_position_row, 3);
    assert_eq!(intrinsic.end_position_row, 3);
    assert!(intrinsic.text.contains("iso_c_binding"));
    assert!(!intrinsic.text_range.is_empty());

    // Test mixed case use statement
    let mixed_case = &all_use_statements[2];
    assert!(!mixed_case.is_intrinsic);
    assert_eq!(mixed_case.module_name, "my_module");
    assert_eq!(mixed_case.start_position_row, 4);
    assert_eq!(mixed_case.end_position_row, 4);
    assert!(mixed_case.text.contains("My_Module"));
    assert!(!mixed_case.text_range.is_empty());

    // Test foxtrot_module (first on same line)
    let foxtrot = &all_use_statements[3];
    assert!(!foxtrot.is_intrinsic);
    assert_eq!(foxtrot.module_name, "foxtrot_module");
    assert_eq!(foxtrot.start_position_row, 5);
    assert_eq!(foxtrot.end_position_row, 5);
    assert!(foxtrot.text.contains("foxtrot_module"));
    assert!(!foxtrot.text_range.is_empty());

    // Test golf_module (second on same line)
    let golf = &all_use_statements[4];
    assert!(!golf.is_intrinsic);
    assert_eq!(golf.module_name, "golf_module");
    assert_eq!(golf.start_position_row, 5);
    assert_eq!(golf.end_position_row, 5);
    assert!(golf.text.contains("golf_module"));
    assert!(!golf.text_range.is_empty());

    // Test multiline_module
    let multiline = &all_use_statements[5];
    assert!(!multiline.is_intrinsic);
    assert_eq!(multiline.module_name, "multiline_module");
    assert_eq!(multiline.start_position_row, 6);
    assert_eq!(multiline.end_position_row, 8);
    assert!(multiline.text.contains("fun_1"));
    assert!(multiline.text.contains("fun_2"));
    assert!(multiline.text.contains("fun_3"));
    assert!(multiline.text.contains("123_comments"));

    assert!(!golf.text_range.is_empty());
}

#[test]
fn test_unsorted_onlys_multiline_with_comments() {
    let code = r#"
program test
  use multiline_module, only: fun_2, & !! fun_2_comments
                              fun_3, & !! fun_3_comments
                              fun_1 !! fun_1_comments
end program test
"#;

    let program_node = first_child_of_root(code);
    assert_eq!(program_node.kind, "program");

    let use_statements = use_statements_of(&program_node, code);

    assert_eq!(use_statements.len(), 1);
    let use_stmt = &use_statements[0];

    assert_eq!(use_stmt.only_items.len(), 3);
    assert_eq!(use_stmt.only_items[0].name, "fun_2");
    assert_eq!(use_stmt.only_items[1].name, "fun_3");
    assert_eq!(use_stmt.only_items[2].name, "fun_1");

    // Check that names are extracted correctly for sorting
    let names: Vec<String> = use_stmt.only_items.iter().map(|item| extract_item_name(item)).collect();
    assert_eq!(names, vec!["fun_2", "fun_3", "fun_1"]);

    // The items should be detected as unsorted
    let mut items_with_names: Vec<(String, OnlyStatementData)> = use_stmt
        .only_items
        .iter()
        .map(|item| (extract_item_name(item), item.clone()))
        .collect();
    items_with_names.sort_by(|a, b| a.0.cmp(&b.0));

    let sorted_names: Vec<String> = items_with_names
        .iter()
        .map(|(name, _): &(String, OnlyStatementData)| name.clone())
        .collect();
    assert_eq!(sorted_names, vec!["fun_1", "fun_2", "fun_3"]);

    // Check the expected fix result
    let sorted_items: Vec<String> = items_with_names
        .into_iter()
        .map(|(_, item)| {
            let mut text = item.name.clone();
            if let Some(alias) = &item.alias {
                text.push_str(" as ");
                text.push_str(alias);
            }
            if let Some(ref comment) = item.inline_comment {
                text.push_str(" ");
                text.push_str(comment);
            }
            text
        })
        .collect();
    let sorted_only = sorted_items.join(", ");
    let before = use_stmt.text.split("only:").nth(0).unwrap();
    let expected_replacement = format!("{}only: {}", before, sorted_only);

    // The expected result should contain the items in sorted order
    assert!(expected_replacement.contains("fun_1"));
    assert!(expected_replacement.contains("fun_2"));
    assert!(expected_replacement.contains("fun_3"));
    assert!(expected_replacement.contains("fun_1_comments"));
    assert!(expected_replacement.contains("fun_2_comments"));
    assert!(expected_replacement.contains("fun_3_comments"));
}

use fortitude_linter::too_many_parameters::settings::Settings;
use fortitude_linter::too_many_parameters::TooManyParameters;
use fortitude_linter::unsorted_onlys::UnsortedOnlys;
use fortitude_linter::unsorted_uses::UnsortedUses;

fn use_statement_nodes(node: &SyntaxNode) -> Vec<&SyntaxNode> {
    node.children.iter().filter(|c| c.kind == "use_statement").collect()
}

#[test]
fn unsorted_uses_reports_block_with_sorted_fix() {
    let code = "program foo\n  use module_c, only: fun_c\n  use, intrinsic :: iso_fortran_env, only: int32\n  use module_a, only: fun_a\n  use module_b, only: fun_b\nend program foo\n";
    let program = first_child_of_root(code);
    let diagnostics = UnsortedUses::check(&program, code).expect("the block is unsorted");
    assert_eq!(diagnostics.len(), 1);
    let uses = use_statement_nodes(&program);
    let d = &diagnostics[0];
    assert_eq!(d.range.start, uses[0].start_byte);
    assert_eq!(d.range.end, uses[0].end_byte);
    let fix = d.fix.as_ref().expect("a fix");
    assert_eq!(fix.edit.range.start, 12);
    assert_eq!(fix.edit.range.end as usize, code.len() - "end program foo\n".len());
    assert_eq!(
        fix.edit.content,
        "  use, intrinsic :: iso_fortran_env, only: int32\n  use module_a, only: fun_a\n  use module_b, only: fun_b\n  use module_c, only: fun_c\n"
    );
}

#[test]
fn unsorted_uses_accepts_sorted_blocks() {
    let code = "program foo\n  use, intrinsic :: iso_c_binding\n  use alpha\n  use beta\n\n  use aaa\nend program foo\n";
    let program = first_child_of_root(code);
    assert!(UnsortedUses::check(&program, code).is_none());
}

#[test]
fn unsorted_uses_sorts_blocks_independently() {
    let code = "program foo\n  use beta\n  use alpha\n\n  use zeta\n  use eta\nend program foo\n";
    let program = first_child_of_root(code);
    let diagnostics = UnsortedUses::check(&program, code).expect("both blocks are unsorted");
    assert_eq!(diagnostics.len(), 2);
    assert_eq!(diagnostics[0].fix.as_ref().unwrap().edit.content, "  use alpha\n  use beta\n");
    assert_eq!(diagnostics[1].fix.as_ref().unwrap().edit.content, "  use eta\n  use zeta\n");
}

#[test]
fn unsorted_uses_ignores_single_statement() {
    let code = "program foo\n  use zeta\nend program foo\n";
    let program = first_child_of_root(code);
    assert!(UnsortedUses::check(&program, code).is_none());
}

#[test]
fn unsorted_uses_texts() {
    let rule = UnsortedUses {};
    assert_eq!(rule.message(), "`use` statements are not sorted");
    assert_eq!(rule.fix_title(), "Sort `use` statements");
    assert_eq!(
        UnsortedUses::entrypoints(),
        vec!["module", "submodule", "program", "subroutine", "function"]
    );
}

#[test]
fn unsorted_onlys_reports_unsorted_list() {
    let code = "program p\n  use m, only: zeta, &\n              alpha\nend program p\n";
    let program = first_child_of_root(code);
    let uses = use_statement_nodes(&program);
    let diagnostics = UnsortedOnlys::check(uses[0], code).expect("the list is unsorted");
    assert_eq!(diagnostics.len(), 1);
    let d = &diagnostics[0];
    assert_eq!(d.range.start, uses[0].start_byte);
    assert_eq!(d.range.end, uses[0].end_byte);
    let fix = d.fix.as_ref().unwrap();
    assert_eq!(fix.edit.range, d.range);
    assert_eq!(fix.edit.content, "  use m, only: alpha, zeta");
}

#[test]
fn unsorted_onlys_keeps_aliases_and_comments() {
    let code = "program p\n  use m, only: b_fun as B, & !! second\n              a_fun !! first\nend program p\n";
    let program = first_child_of_root(code);
    let uses = use_statement_nodes(&program);
    let diagnostics = UnsortedOnlys::check(uses[0], code).expect("the list is unsorted");
    assert_eq!(
        diagnostics[0].fix.as_ref().unwrap().edit.content,
        "  use m, only: a_fun !! first, b_fun as B !! second"
    );
}

#[test]
fn unsorted_onlys_accepts_sorted_or_single_lists() {
    let code = "program p\n  use m, only: a, &\n              b\n  use n, only: z, y\n  use o\nend program p\n";
    let program = first_child_of_root(code);
    for node in use_statement_nodes(&program) {
        assert!(UnsortedOnlys::check(node, code).is_none());
    }
    let rule = UnsortedOnlys {};
    assert_eq!(rule.message(), "Items in `only` clause are not sorted");
    assert_eq!(rule.fix_title(), "Sort items in `only` clause");
    assert_eq!(UnsortedOnlys::entrypoints(), vec!["use_statement"]);
}

#[test]
fn too_many_parameters_reports_over_threshold() {
    let code = "subroutine foo(a, b, c, d, e, f)\nend subroutine foo\n";
    let node = first_child_of_root(code);
    let settings = Settings::default();
    let diagnostics = TooManyParameters::check(&settings, &node, code).expect("six parameters");
    assert_eq!(diagnostics.len(), 1);
    let d = &diagnostics[0];
    assert_eq!(d.kind.name, "foo");
    assert_eq!(d.kind.count, 6);
    assert_eq!(d.kind.threshold, 5);
    assert!(d.fix.is_none());
    let header = &node.children[0];
    assert_eq!(header.kind, "subroutine_statement");
    assert_eq!((d.range.start, d.range.end), (header.start_byte, header.end_byte));
    assert_eq!(d.kind.message(), "Function/subroutine 'foo' has 6 parameters (threshold: 5)");
}

#[test]
fn too_many_parameters_accepts_threshold() {
    let code = "function bar(a, b, c, d, e)\nend function bar\n";
    let node = first_child_of_root(code);
    assert!(TooManyParameters::check(&Settings::default(), &node, code).is_none());
    let strict = Settings { max_parameters: 4 };
    let diagnostics = TooManyParameters::check(&strict, &node, code).expect("five over four");
    assert_eq!(diagnostics[0].kind.name, "bar");
    assert_eq!(diagnostics[0].kind.count, 5);
    assert_eq!(diagnostics[0].kind.threshold, 4);
}

#[test]
fn too_many_parameters_without_parameters() {
    let code = "subroutine nothing\nend subroutine nothing\n";
    let node = first_child_of_root(code);
    assert!(TooManyParameters::check(&Settings { max_parameters: 0 }, &node, code).is_none());
    assert_eq!(TooManyParameters::entrypoints(), vec!["function", "subroutine"]);
}

#[test]
fn intrinsic_keyword_in_any_case() {
    let code = "program foo\n  use, INTRINSIC :: iso_c_binding\n  use, Intrinsic :: iso_fortran_env\n  use intrinsic\n  use, non_intrinsic :: other\nend program foo\n";
    let program = first_child_of_root(code);
    let uses = use_statements_of(&program, code);
    assert_eq!(uses.len(), 4);
    assert!(uses[0].is_intrinsic);
    assert!(uses[1].is_intrinsic);
    assert_eq!(uses[2].module_name, "intrinsic");
    assert!(!uses[2].is_intrinsic);
    assert!(!uses[3].is_intrinsic);
}

#[test]
fn upper_case_intrinsic_sorts_first() {
    let code = "program foo\n  use alpha\n  use, INTRINSIC :: iso_c_binding\nend program foo\n";
    let program = first_child_of_root(code);
    let diagnostics = UnsortedUses::check(&program, code).expect("intrinsic module must come first");
    assert_eq!(
        diagnostics[0].fix.as_ref().unwrap().edit.content,
        "  use, INTRINSIC :: iso_c_binding\n  use alpha\n"
    );
}

#[test]
fn comments_in_parameter_list_are_not_parameters() {
    let code = "subroutine foo(a, b, c, & ! first three\n               d, e) ! two more\nend subroutine foo\n";
    let node = first_child_of_root(code);
    assert!(TooManyParameters::check(&Settings::default(), &node, code).is_none());
    let diagnostics = TooManyParameters::check(&Settings { max_parameters: 4 }, &node, code).expect("five over four");
    assert_eq!(diagnostics[0].kind.count, 5);
}
