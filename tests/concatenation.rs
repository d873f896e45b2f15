use const_concat::{concat_str, const_concat};

const SALUTATION: &str = "Hello";
const TARGET: &str = "world";

#[test]
fn top_level_constants() {
    let greeting = const_concat(&[SALUTATION, ", ", TARGET, "!"]);
    let greeting_trailing_comma = const_concat(&[SALUTATION, ", ", TARGET, "!",]);

    assert_eq!(greeting, "Hello, world!");
    assert_eq!(greeting_trailing_comma, "Hello, world!");
}

#[test]
fn pair_equals_runtime_concatenation() {
    let a = "const";
    let b = "_concat";
    assert_eq!(concat_str(a, b), format!("{}{}", a, b));
    assert_eq!(const_concat(&[a, b]), a.to_string() + b);
}

#[test]
fn pair_with_empty_sides() {
    assert_eq!(concat_str("", "abc"), "abc");
    assert_eq!(concat_str("abc", ""), "abc");
    assert_eq!(concat_str("", ""), "");
}

#[test]
fn three_parts_associate() {
    let left = concat_str(&concat_str("ab", "cd"), "ef");
    let right = concat_str("ab", &concat_str("cd", "ef"));
    assert_eq!(left, "abcdef");
    assert_eq!(right, "abcdef");
    assert_eq!(const_concat(&["ab", "cd", "ef"]), "abcdef");
    let first_two = const_concat(&["ab", "cd"]);
    assert_eq!(const_concat(&[first_two.as_str(), "ef"]), "abcdef");
}

#[test]
fn single_part_is_unchanged() {
    assert_eq!(const_concat(&["only"]), "only");
}

#[test]
fn no_parts_give_empty_text() {
    let none: [&str; 0] = [];
    assert_eq!(const_concat(&none), "");
}

#[test]
fn trailing_comma_form_matches() {
    assert_eq!(const_concat(&["x", "y", "z",]), const_concat(&["x", "y", "z"]));
}

#[test]
fn hello_world_example() {
    assert_eq!(const_concat(&["Hello", ", ", "world", "!"]), "Hello, world!");
}

#[test]
fn bytes_are_joined_in_order() {
    assert_eq!(const_concat::concat(&[1, 2, 3], &[4, 5]), vec![1, 2, 3, 4, 5]);
    assert_eq!(const_concat::concat(&[], &[9]), vec![9]);
    assert_eq!(const_concat::concat(&[7], &[]), vec![7]);
    assert_eq!(const_concat::concat(&[], &[]), Vec::<u8>::new());
}

#[test]
fn text_bytes_match_joined_bytes() {
    let a = "caf\u{e9}";
    let b = "\u{1f600}!";
    let joined = concat_str(a, b);
    assert_eq!(joined.as_bytes().to_vec(), const_concat::concat(a.as_bytes(), b.as_bytes()));
    assert_eq!(joined, "caf\u{e9}\u{1f600}!");
}
