use reader_core::cbz::{image_entries, is_image_file, select_page_name, sort_names, str_lex_le};
use reader_core::errors::DocumentError;

#[test]
fn test_is_image_file() {
    assert!(is_image_file("page.jpg"));
    assert!(is_image_file("PAGE.PNG"));
    assert!(is_image_file("test.webp"));
    assert!(!is_image_file("readme.txt"));
    assert!(!is_image_file("folder/"));
}

#[test]
fn image_entries_filters_and_sorts() {
    let entries = vec![
        ("b.png".to_string(), false),
        ("A.txt".to_string(), false),
        ("a.jpg".to_string(), false),
        ("dir/".to_string(), true),
        ("c.GIF".to_string(), false),
    ];
    let names = image_entries(&entries);
    assert_eq!(names, vec!["a.jpg".to_string(), "b.png".to_string(), "c.GIF".to_string()]);
}

#[test]
fn sort_names_orders_by_code_point() {
    let names = vec!["z".to_string(), "10".to_string(), "2".to_string(), "a".to_string()];
    let sorted = sort_names(names);
    assert_eq!(
        sorted,
        vec!["10".to_string(), "2".to_string(), "a".to_string(), "z".to_string()]
    );
}

#[test]
fn lex_order_matches_str_order() {
    assert!(str_lex_le("abc", "abd"));
    assert!(str_lex_le("ab", "abc"));
    assert!(!str_lex_le("abd", "abc"));
    assert!(str_lex_le("", "x"));
    assert_eq!(str_lex_le("page10", "page2"), "page10" <= "page2");
}

#[test]
fn select_page_name_bounds() {
    let entries = vec!["a.jpg".to_string(), "b.jpg".to_string()];
    assert_eq!(select_page_name(&entries, 1).unwrap(), "b.jpg".to_string());
    assert_eq!(
        select_page_name(&entries, -1).unwrap_err(),
        DocumentError::PageIndexOutOfRange
    );
    assert_eq!(
        select_page_name(&entries, 2).unwrap_err(),
        DocumentError::PageIndexOutOfRange
    );
}
