use dynafilter::text::{i64_to_string, parse_i64, split_char, trim_string};

#[test]
fn decimal_of_negative_and_positive() {
    assert_eq!(i64_to_string(-4000), "-4000");
    assert_eq!(i64_to_string(0), "0");
    assert_eq!(i64_to_string(i64::MIN), i64::MIN.to_string());
    assert_eq!(i64_to_string(i64::MAX), i64::MAX.to_string());
}

#[test]
fn parse_i64_like_std() {
    for s in ["", "+", "-", "12", "+12", "-12", "007", "9223372036854775807", "9223372036854775808",
              "-9223372036854775808", "-9223372036854775809", "1a", " 1", "+-1"] {
        assert_eq!(parse_i64(s), s.parse::<i64>().ok(), "input {:?}", s);
    }
}

#[test]
fn split_like_std() {
    for s in ["", "a", "a|b", "|", "a||b|", "req.filename|req.args"] {
        let got = split_char(s, '|');
        let want: Vec<String> = s.split('|').map(|p| p.to_string()).collect();
        assert_eq!(got, want);
    }
}

#[test]
fn trim_like_std() {
    for s in ["", "  ", " a b ", "\t\nx\u{3000}", "\u{85}y\u{a0}", "z"] {
        assert_eq!(trim_string(s), s.trim());
    }
}
