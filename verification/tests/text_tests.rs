use elm_assist::text::{chars_of, contains_chars, push_decimal, push_str, starts_with_chars, string_from_chars};

#[test]
fn decimal_notation() {
    let mut s = String::new();
    push_decimal(&mut s, 0);
    push_str(&mut s, " ");
    push_decimal(&mut s, 1234567890);
    assert_eq!(s, "0 1234567890");
}

#[test]
fn substring_and_prefix_search() {
    let h = chars_of("hello world");
    assert!(contains_chars(&h, &chars_of("lo w")));
    assert!(!contains_chars(&h, &chars_of("low")));
    assert!(contains_chars(&h, &chars_of("")));
    assert!(starts_with_chars(&h, &chars_of("hell")));
    assert!(!starts_with_chars(&h, &chars_of("world")));
    assert_eq!(string_from_chars(&chars_of("ünï")), "ünï");
}
