use alpha_vantage::text::{sort_newest_first, str_before, str_eq};

#[test]
fn equal_texts() {
    assert!(str_eq("", ""));
    assert!(str_eq("2023-01-01", "2023-01-01"));
    assert!(!str_eq("2023-01-01", "2023-01-02"));
    assert!(!str_eq("2023-01-01", "2023-01-0"));
    assert!(!str_eq("", "a"));
    assert!(str_eq("é", "é"));
    assert!(!str_eq("é", "e"));
}

#[test]
fn order_of_texts() {
    assert!(str_before("2023-01-01", "2023-01-02"));
    assert!(!str_before("2023-01-02", "2023-01-01"));
    assert!(!str_before("2023-01-01", "2023-01-01"));
    assert!(str_before("", "a"));
    assert!(!str_before("a", ""));
    assert!(!str_before("", ""));
    assert!(str_before("2023-01-01", "2023-01-01 00:00:00"));
    assert!(str_before("2023-01-09", "2023-01-10"));
    assert!(str_before("9", "a"));
    assert!(str_before("Z", "a"));
    assert!(str_before("z", "é"));
    assert!(str_before("é", "€"));
    assert!(str_before("€", "😀"));
    assert!(!str_before("😀", "€"));
}

#[test]
fn order_agrees_with_the_order_of_str() {
    let samples = ["", "a", "ab", "b", "B", "é", "e", "€", "😀", "2023-01-01", "2023-01-1", "~"];
    for a in samples {
        for b in samples {
            assert_eq!(str_before(a, b), a < b);
            assert_eq!(str_eq(a, b), a == b);
        }
    }
}

#[test]
fn sort_from_last_to_first() {
    let owned: Vec<String> =
        ["b", "", "a", "c", "b", "é", "ab"].iter().map(|s| s.to_string()).collect();
    let keys: Vec<&String> = owned.iter().collect();
    let sorted = sort_newest_first(&keys);
    let got: Vec<&str> = sorted.iter().map(|s| s.as_str()).collect();
    assert_eq!(got, vec!["é", "c", "b", "b", "ab", "a", ""]);
    assert_eq!(keys.len(), 7);
}

#[test]
fn sort_of_nothing_and_of_one() {
    let none: Vec<&String> = Vec::new();
    assert!(sort_newest_first(&none).is_empty());
    let one = String::from("x");
    let sorted = sort_newest_first(&vec![&one]);
    assert_eq!(sorted.len(), 1);
    assert_eq!(sorted[0], "x");
}
