use babble::number::{Fixed, Number};
use babble::text::{decimal_text, same_texts, signed_text};
use babble::text_sort::{sort_texts, text_in_order, unite_texts};
use babble::text_split::{contains, cut, place_of, split_on, strip_all, trim, trim_round};

fn n(raw: i64) -> Fixed {
    Fixed { raw }
}

fn chars(s: &str) -> Vec<char> {
    s.chars().collect()
}

fn owned(v: &[&str]) -> Vec<String> {
    v.iter().map(|s| s.to_string()).collect()
}

#[test]
fn arithmetic_in_thousandths() {
    assert_eq!(Fixed::count(3), n(3000));
    assert_eq!(n(1500).plus(n(250)), n(1750));
    assert_eq!(n(1500).minus(n(2000)), n(-500));
    assert_eq!(n(1500).times(n(2500)), n(3750));
    assert_eq!(n(-1).times(n(999)), n(0));
    assert_eq!(n(10_000).over(n(3000)), n(3333));
    assert_eq!(n(-10_000).over(n(3000)), n(-3333));
    assert_eq!(n(10_000).over(n(-3000)), n(-3333));
}

#[test]
fn arithmetic_saturates() {
    assert_eq!(Fixed::top().plus(n(1)), Fixed::top());
    assert_eq!(n(i64::MIN).minus(n(1)), n(i64::MIN));
    assert_eq!(Fixed::top().times(n(2000)), Fixed::top());
    assert_eq!(n(1).over(n(0)), Fixed::top());
    assert_eq!(n(-1).over(n(0)), n(i64::MIN));
    assert_eq!(n(0).over(n(0)), n(0));
    assert_eq!(Fixed::count(usize::MAX), Fixed::top());
}

#[test]
fn counts_of_numbers() {
    assert_eq!(n(2001).round_up(), 3);
    assert_eq!(n(2000).round_up(), 2);
    assert_eq!(n(-5).round_up(), 0);
    assert_eq!(n(2999).whole(), 2);
    assert_eq!(n(-2999).whole(), 0);
    assert_eq!(n(3).larger(n(7)), n(7));
    assert!(n(3).below(n(7)) && !n(7).below(n(7)) && n(7).le(n(7)));
}

#[test]
fn numbers_read_back() {
    for raw in [0, 1, 10, 999, 1000, 12_345, -1, -1500, i64::MAX, i64::MIN] {
        assert_eq!(Fixed::read(n(raw).text().as_str()), Some(n(raw)));
    }
    assert_eq!(n(-1050).text(), "-1.050");
}

#[test]
fn numbers_from_texts() {
    assert_eq!(Fixed::read("12"), Some(n(12_000)));
    assert_eq!(Fixed::read("+12.5"), Some(n(12_500)));
    assert_eq!(Fixed::read("12."), Some(n(12_000)));
    assert_eq!(Fixed::read(".25"), Some(n(250)));
    assert_eq!(Fixed::read("0.12399"), Some(n(123)));
    assert_eq!(Fixed::read("99999999999999999999999999"), Some(Fixed::top()));
    for s in ["", ".", "-", "1.2.3", "x", "1x", "1.x"] {
        assert_eq!(Fixed::read(s), None);
    }
}

#[test]
fn decimals() {
    assert_eq!(decimal_text(0), "0");
    assert_eq!(decimal_text(1203), "1203");
    assert_eq!(signed_text(-7), "-7");
    assert_eq!(signed_text(i64::MIN), "-9223372036854775808");
    assert!(same_texts(&owned(&["a", "b"]), &owned(&["a", "b"])));
    assert!(!same_texts(&owned(&["a", "b"]), &owned(&["a"])));
}

#[test]
fn texts_are_ordered() {
    assert!(text_in_order("a", "ab") && !text_in_order("ab", "a"));
    assert!(text_in_order("ab", "b") && text_in_order("b", "b"));
    assert_eq!(sort_texts(&owned(&["b", "a", "c", "a"])), owned(&["a", "a", "b", "c"]));
    assert_eq!(
        unite_texts(&owned(&["b", "d"]), &owned(&["a", "b", "c"])),
        owned(&["a", "b", "c", "d"])
    );
}

#[test]
fn texts_are_taken_apart() {
    assert_eq!(trim(&chars(" \t a b\n")), chars("a b"));
    assert_eq!(trim_round(&chars("((a)b)")), chars("a)b"));
    assert_eq!(place_of(&chars("ababc"), "abc"), Some(2));
    assert_eq!(place_of(&chars("abab"), "abc"), None);
    assert!(contains(&chars("a => b"), "=>") && !contains(&chars("a = b"), "=>"));
    assert_eq!(cut(&chars("a=>b=>c"), "=>"), Some((chars("a"), chars("b=>c"))));
    assert_eq!(split_on(&chars("a,,b"), ','), vec![chars("a"), chars(""), chars("b")]);
    assert_eq!(split_on(&chars(""), ','), vec![chars("")]);
    assert_eq!(strip_all(&chars("allallx"), "all"), chars("x"));
}
