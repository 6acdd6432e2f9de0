use fortitude_linter::only_items::extract_name_and_comment;

#[test]
fn test_extract_name_and_comment() {
    // Test simple item without comment
    let item = extract_name_and_comment("fun_1");
    assert_eq!(item.name, "fun_1");
    assert_eq!(item.alias, None);
    assert_eq!(item.inline_comment, None);

    // Test item with comment
    let item = extract_name_and_comment("fun_1 !! comment");
    assert_eq!(item.name, "fun_1");
    assert_eq!(item.alias, None);
    assert_eq!(item.inline_comment, Some("!! comment".to_string()));

    // Test item with continuation marker
    let item = extract_name_and_comment("fun_1 &");
    assert_eq!(item.name, "fun_1");
    assert_eq!(item.alias, None);
    assert_eq!(item.inline_comment, None);

    // Test item with continuation and comment
    let item = extract_name_and_comment("fun_1 & !! comment");
    assert_eq!(item.name, "fun_1");
    assert_eq!(item.alias, None);
    assert_eq!(item.inline_comment, Some("!! comment".to_string()));

    // Test item with trailing comma
    let item = extract_name_and_comment("fun_1,");
    assert_eq!(item.name, "fun_1");
    assert_eq!(item.alias, None);
    assert_eq!(item.inline_comment, None);

    // Test item with trailing comma and comment
    let item = extract_name_and_comment("fun_1, !! comment");
    assert_eq!(item.name, "fun_1");
    assert_eq!(item.alias, None);
    assert_eq!(item.inline_comment, Some("!! comment".to_string()));

    // Test item with renaming
    let item = extract_name_and_comment("fun_1 as alias");
    assert_eq!(item.name, "fun_1");
    assert_eq!(item.alias, Some("alias".to_string()));
    assert_eq!(item.inline_comment, None);

    // Test item with renaming and comment
    let item = extract_name_and_comment("fun_1 as alias !! comment");
    assert_eq!(item.name, "fun_1");
    assert_eq!(item.alias, Some("alias".to_string()));
    assert_eq!(item.inline_comment, Some("!! comment".to_string()));

    // Test complex case with continuation, comma, and comment
    let item = extract_name_and_comment("fun_1, & !! comment");
    assert_eq!(item.name, "fun_1");
    assert_eq!(item.alias, None);
    assert_eq!(item.inline_comment, Some("!! comment".to_string()));

    // Test empty string
    let item = extract_name_and_comment("");
    assert_eq!(item.name, "");
    assert_eq!(item.alias, None);
    assert_eq!(item.inline_comment, None);

    // Test only comment
    let item = extract_name_and_comment("!! comment");
    assert_eq!(item.name, "");
    assert_eq!(item.alias, None);
    assert_eq!(item.inline_comment, Some("!! comment".to_string()));

    // Test whitespace handling
    let item = extract_name_and_comment("  fun_1  ");
    assert_eq!(item.name, "fun_1");
    assert_eq!(item.alias, None);
    assert_eq!(item.inline_comment, None);

    // Test mixed case (should be lowercased)
    let item = extract_name_and_comment("Fun_1");
    assert_eq!(item.name, "fun_1");
    assert_eq!(item.alias, None);
    assert_eq!(item.inline_comment, None);
}
