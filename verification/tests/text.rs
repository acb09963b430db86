use toycc::text::{push_signed, push_unsigned, str_eq};

#[test]
fn unsigned_numerals() {
    let mut s = String::new();
    push_unsigned(&mut s, 0);
    s.push(' ');
    push_unsigned(&mut s, 7);
    s.push(' ');
    push_unsigned(&mut s, 10);
    s.push(' ');
    push_unsigned(&mut s, 4096);
    assert_eq!(s, "0 7 10 4096");
}

#[test]
fn unsigned_numeral_of_the_largest_word() {
    let mut s = String::new();
    push_unsigned(&mut s, usize::MAX);
    assert_eq!(s, usize::MAX.to_string());
}

#[test]
fn signed_numerals() {
    let mut s = String::from("x=");
    push_signed(&mut s, -5);
    s.push(',');
    push_signed(&mut s, 0);
    s.push(',');
    push_signed(&mut s, 123);
    assert_eq!(s, "x=-5,0,123");
}

#[test]
fn signed_numerals_at_the_limits() {
    let mut s = String::new();
    push_signed(&mut s, isize::MIN);
    assert_eq!(s, isize::MIN.to_string());
    let mut s = String::new();
    push_signed(&mut s, isize::MAX);
    assert_eq!(s, isize::MAX.to_string());
}

#[test]
fn str_eq_compares_characters() {
    assert!(str_eq("", ""));
    assert!(str_eq("int", "int"));
    assert!(!str_eq("int", "in"));
    assert!(!str_eq("int", "int "));
    assert!(!str_eq("int", "inT"));
    assert!(str_eq("\u{e9}t\u{e9}", "\u{e9}t\u{e9}"));
    assert!(!str_eq("\u{e9}", "e"));
}
