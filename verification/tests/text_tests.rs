use patch_refiner::numbers::{decimal_exec, parse_u64_exec};
use patch_refiner::text::{
    chars_of, find_chars, join_with_newlines, lines_of, reverse_chars, string_from, trim_chars,
};

fn s(v: &[char]) -> String {
    v.iter().collect()
}

#[test]
fn decimal_and_parse_round_trip() {
    assert_eq!(s(&decimal_exec(0)), "0");
    assert_eq!(s(&decimal_exec(4012)), "4012");
    assert_eq!(s(&decimal_exec(u64::MAX)), "18446744073709551615");
    let digits: Vec<char> = "18446744073709551615".chars().collect();
    assert_eq!(parse_u64_exec(&digits), Some(u64::MAX));
    let too_big: Vec<char> = "18446744073709551616".chars().collect();
    assert_eq!(parse_u64_exec(&too_big), None);
    let plus: Vec<char> = "+12".chars().collect();
    assert_eq!(parse_u64_exec(&plus), Some(12));
    assert_eq!(parse_u64_exec(&[]), None);
    let bad: Vec<char> = "1a".chars().collect();
    assert_eq!(parse_u64_exec(&bad), None);
    let n = 907_u64;
    assert_eq!(parse_u64_exec(&decimal_exec(n)), Some(n));
}

#[test]
fn lines_split_like_str_lines() {
    for text in ["a\nb", "a\r\nb\n", "", "\n\n", "x\r", "one"] {
        let got: Vec<String> = lines_of(&chars_of(text)).iter().map(|l| s(l)).collect();
        let want: Vec<String> = text.lines().map(|l| l.to_string()).collect();
        assert_eq!(got, want, "lines of {text:?}");
    }
    let joined = join_with_newlines(&vec![vec!['a'], vec![], vec!['b']]);
    assert_eq!(s(&joined), "a\n\nb");
}

#[test]
fn trim_like_str_trim() {
    for text in ["  a b  ", "\t\u{3000}x\u{a0}", "   ", "", "abc"] {
        assert_eq!(s(&trim_chars(&chars_of(text))), text.trim(), "trim of {text:?}");
    }
}

#[test]
fn find_and_reverse() {
    let hay = chars_of("hello world");
    assert_eq!(find_chars(&hay, &chars_of("o w")), Some(4));
    assert_eq!(find_chars(&hay, &chars_of("xyz")), None);
    assert_eq!(find_chars(&hay, &[]), Some(0));
    assert_eq!(string_from(&reverse_chars(&chars_of("abc"))), "cba");
}
