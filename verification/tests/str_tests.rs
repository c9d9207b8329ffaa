use pyinrs::{Decimal, Fraction, Int, Str};

#[test]
fn str_length_and_emptiness() {
    let s = Str::from_str("hello");
    assert_eq!(s.len(), 5);
    assert!(!s.is_empty());
    assert!(Str::new().is_empty());
    assert_eq!(s.as_str(), "hello");
}

#[test]
fn str_char_access() {
    let s = Str::from_str("hello");
    assert_eq!(s.char_at(0), Some('h'));
    assert_eq!(s.char_at(4), Some('o'));
    assert_eq!(s.char_at(-1), Some('o'));
    assert_eq!(s.char_at(-5), Some('h'));
    assert_eq!(s.char_at(5), None);
    assert_eq!(s.char_at(-6), None);
    assert_eq!(s.chars(), vec!['h', 'e', 'l', 'l', 'o']);
}

#[test]
fn str_find_and_contains() {
    let s = Str::from_str("hello, world");
    assert_eq!(s.find("world"), Some(7));
    assert_eq!(s.find("l"), Some(2));
    assert_eq!(s.find(""), Some(0));
    assert_eq!(s.find("xyz"), None);
    assert!(s.contains("lo,"));
    assert!(!s.contains("LO"));
}

#[test]
fn str_count_is_non_overlapping() {
    let s = Str::from_str("aaaa");
    assert_eq!(s.count("aa"), 2);
    assert_eq!(s.count("a"), 4);
    assert_eq!(s.count("b"), 0);
    assert_eq!(s.count(""), 5);
    assert_eq!(Str::from_str("abcabcab").count("abc"), 2);
}

#[test]
fn str_affix_checks() {
    let s = Str::from_str("hello");
    assert!(s.starts_with("he"));
    assert!(!s.starts_with("eh"));
    assert!(s.starts_with(""));
    assert!(s.ends_with("lo"));
    assert!(!s.ends_with("ol"));
    assert!(!s.starts_with("hello!!"));
}

#[test]
fn str_case_mapping() {
    assert_eq!(Str::from_str("Hello World").lower().as_str(), "hello world");
    assert_eq!(Str::from_str("Hello World").upper().as_str(), "HELLO WORLD");
    assert_eq!(Str::new().lower().as_str(), "");
}

#[test]
fn str_replace_all() {
    let s = Str::from_str("one two two one");
    assert_eq!(s.replace("two", "2").as_str(), "one 2 2 one");
    assert_eq!(s.replace("xyz", "!").as_str(), "one two two one");
    assert_eq!(Str::from_str("ab").replace("", "-").as_str(), "-a-b-");
}

#[test]
fn str_strip_whitespace() {
    assert_eq!(Str::from_str("  \t hello \n ").strip().as_str(), "hello");
    assert_eq!(Str::from_str("hello").strip().as_str(), "hello");
    assert_eq!(Str::from_str(" \t\n ").strip().as_str(), "");
}

#[test]
fn str_join_pieces() {
    let mut parts = pyinrs::List::new();
    parts.push(Str::from_str("a"));
    parts.push(Str::from_str("b"));
    parts.push(Str::from_str("c"));
    assert_eq!(Str::from_str(", ").join(&parts).as_str(), "a, b, c");
    let empty: pyinrs::List<Str> = pyinrs::List::new();
    assert_eq!(Str::from_str(", ").join(&empty).as_str(), "");
}

#[test]
fn str_to_integer_trims() {
    assert_eq!(Str::from_str("  42 ").to_integer(), Some(Int::from_i64(42)));
    assert_eq!(Str::from_str("-7").to_integer(), Some(Int::from_i64(-7)));
    assert_eq!(Str::from_str("4 2").to_integer(), None);
    assert_eq!(Str::from_str("").to_integer(), None);
}

#[test]
fn decimal_wraps_fraction() {
    let d = Decimal::from_fraction(Fraction::from_ratio(-3, 4));
    assert_eq!(d.as_fraction(), Fraction::from_ratio(-3, 4));
    assert_eq!(d.abs().as_fraction(), Fraction::from_ratio(3, 4));
    assert_eq!(Decimal::new().as_fraction(), Fraction::new());
}

#[test]
fn str_split_pieces() {
    let s = Str::from_str("a,b,,c");
    let parts = s.split(",");
    let texts: Vec<&str> = parts.iter().iter().map(|p| p.as_str()).collect();
    assert_eq!(texts, vec!["a", "b", "", "c"]);
    let whole = Str::from_str("abc").split("x");
    assert_eq!(whole.iter()[0].as_str(), "abc");
    let empty_sep = Str::from_str("ab").split("");
    let texts: Vec<&str> = empty_sep.iter().iter().map(|p| p.as_str()).collect();
    assert_eq!(texts, vec!["", "a", "b", ""]);
    let joined_back = Str::from_str(",").join(&parts);
    assert_eq!(joined_back.as_str(), "a,b,,c");
}
