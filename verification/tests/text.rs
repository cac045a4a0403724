use trustnote::text::{clone_opt_string, clone_strings, contains_string, insert_sorted, string_le};

fn s(x: &str) -> String {
    x.to_string()
}

#[test]
fn order_is_byte_wise() {
    assert!(string_le(&s(""), &s("")));
    assert!(string_le(&s(""), &s("a")));
    assert!(!string_le(&s("a"), &s("")));
    assert!(string_le(&s("abc"), &s("abc")));
    assert!(string_le(&s("abc"), &s("abd")));
    assert!(!string_le(&s("abd"), &s("abc")));
    assert!(string_le(&s("ab"), &s("abc")));
    assert!(!string_le(&s("abc"), &s("ab")));
    assert!(string_le(&s("B"), &s("a")));
    assert!(string_le(&s("+"), &s("/")));
    assert!(string_le(&s("z"), &s("é")));
}

#[test]
fn order_agrees_with_the_order_of_strings() {
    let words = ["", "0", "9", "A", "Z", "a", "z", "aa", "a0", "é", "B5", "B10"];
    for a in words {
        for b in words {
            assert_eq!(string_le(&s(a), &s(b)), a <= b, "{} {}", a, b);
        }
    }
}

#[test]
fn insertion_keeps_the_order() {
    let mut v: Vec<String> = Vec::new();
    for x in ["m", "c", "x", "a", "m", "z", "b"] {
        insert_sorted(&mut v, s(x));
    }
    assert_eq!(v, vec!["a", "b", "c", "m", "m", "x", "z"]);
}

#[test]
fn copies_hold_the_same_texts() {
    let v = vec![s("one"), s("two")];
    assert_eq!(clone_strings(&v), v);
    assert_eq!(clone_strings(&Vec::new()), Vec::<String>::new());
    assert_eq!(clone_opt_string(&Some(s("x"))), Some(s("x")));
    assert_eq!(clone_opt_string(&None), None);
}

#[test]
fn membership_goes_by_text() {
    let v = vec![s("one"), s("two")];
    assert!(contains_string(&v, &s("two")));
    assert!(!contains_string(&v, &s("three")));
    assert!(!contains_string(&Vec::new(), &s("one")));
}
