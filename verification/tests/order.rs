use rmenu::order::{lex_le_chars, sort_order};

fn chars(s: &str) -> Vec<char> {
    s.chars().collect()
}

#[test]
fn keys_compare_like_strings() {
    let le = |a: &str, b: &str| lex_le_chars(&chars(a), &chars(b));
    assert!(le("a", "b") && !le("b", "a"));
    assert!(le("ab", "abc") && !le("abc", "ab"));
    assert!(le("", "a") && le("x", "x"));
    assert!(le("Z", "a"), "uppercase sorts before lowercase");
    assert!(le("z", "é"), "by code point");
}

#[test]
fn sort_order_is_stable_by_key() {
    let keys: Vec<Vec<char>> = ["b", "a", "b", "", "a"].iter().map(|s| chars(s)).collect();
    assert_eq!(sort_order(&keys), vec![3, 1, 4, 0, 2]);
    assert!(sort_order(&Vec::new()).is_empty());
}
