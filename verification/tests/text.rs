use cczu_ical::text::{chars_of, push_decimal, remove_occurrences, split_nonempty, string_of, trimmed};

fn chars(s: &str) -> Vec<char> {
    s.chars().collect()
}

#[test]
fn split_keeps_nonempty_pieces() {
    let pieces = split_nonempty(&chars("a//b/"), '/');
    assert_eq!(pieces, vec!["a".to_string(), "b".to_string()]);
    assert!(split_nonempty(&chars(""), '/').is_empty());
    assert!(split_nonempty(&chars("///"), '/').is_empty());
    assert_eq!(split_nonempty(&chars("1-2,3-4,"), ','), vec!["1-2".to_string(), "3-4".to_string()]);
}

#[test]
fn split_pieces_have_no_separator() {
    for s in ["x/y/z", "/lead", "trail/", "no-sep", "a//b"] {
        for p in split_nonempty(&chars(s), '/') {
            assert!(!p.is_empty());
            assert!(!p.contains('/'));
        }
    }
}

#[test]
fn remove_matches_str_replace() {
    for (s, p) in [("abcabc", "bc"), ("aaa", "aa"), ("xyz", ""), ("", "a"), ("高数高数", "高数"), ("ab", "abc")] {
        let r = remove_occurrences(&chars(s), &chars(p));
        assert_eq!(r, chars(&s.replace(p, "")), "{:?} {:?}", s, p);
    }
}

#[test]
fn trim_matches_str_trim() {
    for s in ["  x y \u{3000}", "\t\n", "", "abc", " \u{a0}z\u{2009}"] {
        assert_eq!(trimmed(&chars(s)), chars(s.trim()), "{:?}", s);
    }
}

#[test]
fn decimal_digits() {
    let mut s = String::from("n=");
    push_decimal(&mut s, 0);
    push_decimal(&mut s, 7);
    push_decimal(&mut s, 1024);
    assert_eq!(s, "n=071024");
    let mut t = String::new();
    push_decimal(&mut t, usize::MAX);
    assert_eq!(t, usize::MAX.to_string());
}

#[test]
fn chars_round_trip() {
    let s = "立德楼409 单 1-16,";
    assert_eq!(chars_of(s), chars(s));
    assert_eq!(string_of(&chars_of(s)), s);
}
