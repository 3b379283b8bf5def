use s2_tiler::order::{stable_order, take_in_order, text_at_or_before};
use s2_tiler::text::{
    clone_texts, push_decimal, push_decimal2, str_eq, trim_end_slashes, trim_start_slashes,
};
use s2_tiler::textmap::TextMap;

#[test]
fn decimals_are_written_plainly() {
    let mut s = String::from("n=");
    push_decimal(&mut s, 0);
    push_decimal(&mut s, 907);
    push_decimal(&mut s, u64::MAX);
    assert_eq!(s, "n=090718446744073709551615");
}

#[test]
fn two_digit_decimals_are_padded() {
    let mut s = String::new();
    push_decimal2(&mut s, 0);
    push_decimal2(&mut s, 7);
    push_decimal2(&mut s, 31);
    push_decimal2(&mut s, 123);
    assert_eq!(s, "000731123");
}

#[test]
fn texts_are_compared_whole() {
    assert!(str_eq("", ""));
    assert!(str_eq("größe", "größe"));
    assert!(!str_eq("abc", "abd"));
    assert!(!str_eq("abc", "ab"));
}

#[test]
fn slashes_are_trimmed() {
    assert_eq!(trim_end_slashes("https://a/b//"), "https://a/b");
    assert_eq!(trim_end_slashes("///"), "");
    assert_eq!(trim_end_slashes("x"), "x");
    assert_eq!(trim_start_slashes("//a/b/"), "a/b/");
    assert_eq!(trim_start_slashes(""), "");
}

#[test]
fn lists_of_texts_are_copied() {
    let list = vec!["a".to_string(), "b".to_string()];
    assert_eq!(clone_texts(&list), list);
}

#[test]
fn text_order_is_that_of_bytes() {
    let texts = ["", "a", "ab", "b", "B", "é", "z", "日本"];
    for a in texts {
        for b in texts {
            assert_eq!(text_at_or_before(a, b), a <= b);
        }
    }
}

#[test]
fn stable_order_keeps_equal_keys_in_place() {
    let keys: Vec<i64> = vec![3, 1, 2, 1, 3, 1];
    assert_eq!(stable_order(&keys), vec![1, 3, 5, 2, 0, 4]);
    let pairs: Vec<(i64, i64)> = vec![(1, 5), (0, 9), (1, 2), (0, 9)];
    assert_eq!(stable_order(&pairs), vec![1, 3, 2, 0]);
    let names = vec!["b".to_string(), "a".to_string(), "b".to_string()];
    assert_eq!(stable_order(&names), vec![1, 0, 2]);
    assert!(stable_order(&Vec::<i64>::new()).is_empty());
}

#[test]
fn items_are_taken_in_order() {
    let items = vec!["x".to_string(), "y".to_string(), "z".to_string()];
    assert_eq!(take_in_order(items, &vec![2, 0]), vec!["z".to_string(), "x".to_string()]);
}

#[test]
fn text_map_replaces_values() {
    let m = TextMap::new()
        .with("a".to_string(), 1)
        .with("b".to_string(), 2)
        .with("a".to_string(), 3);
    assert_eq!(m.len(), 2);
    assert_eq!(m.get("a"), Some(&3));
    assert_eq!(m.get("b"), Some(&2));
    assert_eq!(m.get("c"), None);
    assert!(m.contains_key("b"));
    assert!(!m.contains_key(""));
    assert_eq!(m.entries(), &vec![("a".to_string(), 3), ("b".to_string(), 2)]);
}

#[test]
fn text_map_from_entries_keeps_the_last() {
    let m = TextMap::from_entries(vec![
        ("k".to_string(), "1".to_string()),
        ("k".to_string(), "2".to_string()),
    ]);
    assert_eq!(m.len(), 1);
    assert_eq!(m.clone().get("k"), Some(&"2".to_string()));
}
