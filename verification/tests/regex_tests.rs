use dynafilter::engine::regex::Regex;

#[test]
fn base64_patterns_compile_caseless() {
    // "hre+f=" in base64
    let enc = base64::encode("hre+f=");
    let re = Regex::from_str(&enc).unwrap();
    assert_eq!(re.as_str(), "hre+f=");
    assert!(re.is_match(b"x HREEF=1").unwrap());
    assert!(!re.is_match(b"x hrf=1").unwrap());
}

#[test]
fn undecodable_patterns_are_refused() {
    assert!(Regex::parse("***").is_none());
    // valid base64 of bytes that are not UTF-8
    assert!(Regex::parse(&base64::encode([0xffu8, 0xfe])).is_none());
    assert!(Regex::parse(&base64::encode("(")).unwrap().is_err());
    assert!(Regex::parse(&base64::encode("a|b")).unwrap().is_ok());
}
