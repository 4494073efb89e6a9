use dynafilter::keyword::{
    BoundaryCheck, KeywordFilter, _boundary_char_check, _boundary_check, equals_word, keyword_func_exec,
};
use dynafilter::result::MatchResult;

fn s(x: &str) -> String {
    x.to_string()
}

#[test]
fn boundary_chars() {
    for c in ['a', 'z', 'A', 'Z', '0', '9', '_'] {
        assert!(!_boundary_char_check(c));
    }
    for c in [' ', '#', '(', '.', '-', 'é', '\n'] {
        assert!(_boundary_char_check(c));
    }
}

#[test]
fn boundary_right_and_left() {
    let p = s("a=#eval(uv");
    // "eval(" spans bytes 3..8; the character at index 8 is 'u', a word character.
    assert!(!_boundary_check(&p, 3, 8, BoundaryCheck::Right));
    // an end one before the last byte passes on the right, whatever follows.
    assert!(_boundary_check(&s("a=#eval(u"), 3, 8, BoundaryCheck::Right));
    // the character before index 3 is '#'.
    assert!(_boundary_check(&p, 3, 8, BoundaryCheck::Left));
    // start 0 always passes on the left.
    assert!(_boundary_check(&p, 0, 2, BoundaryCheck::Left));
    // a hit that ends at the end of the payload fails on the right.
    assert!(!_boundary_check(&p, 8, 10, BoundaryCheck::Right));
    assert!(!_boundary_check(&s("ab"), 5, 20, BoundaryCheck::Left));
}

#[test]
fn func_names() {
    let p = s("x ref y");
    assert!(keyword_func_exec(&s("right"), &p, 2, 5));
    assert!(keyword_func_exec(&s("left"), &p, 2, 5));
    assert!(keyword_func_exec(&s("both"), &p, 2, 5));
    assert!(keyword_func_exec(&s("none"), &p, 0, 1));
    assert!(keyword_func_exec(&s("anything"), &p, 0, 1));
    let q = s("xrefyz");
    assert!(!keyword_func_exec(&s("right"), &q, 1, 4));
    assert!(!keyword_func_exec(&s("left"), &q, 1, 4));
    assert!(!keyword_func_exec(&s("both"), &q, 1, 4));
    assert!(equals_word(&s("both"), "both"));
    assert!(!equals_word(&s("Both"), "both"));
}

#[test]
fn filter_records_checked_hits() {
    let mut kf = KeywordFilter::new();
    kf.add(4000, s("r1"), s("="), s("none"));
    kf.add(4003, s("r1"), s("ref"), s("both"));
    kf.add(4004, s("r2"), s("ref"), s("left"));
    let mut m = MatchResult::new();
    // before the build nothing is recorded
    kf.find_all(&mut m, &s("a=ref"), &s("req.args"));
    let mut out = String::new();
    m.get_hit_keyword(&mut out);
    assert_eq!(out, "");
    kf.build();
    kf.find_all(&mut m, &s("a=REF b"), &s("req.args"));
    let mut out = String::new();
    m.get_hit_keyword(&mut out);
    assert_eq!(out, "4000:req.args|4003:req.args|4004:req.args|");
    let mut m2 = MatchResult::new();
    kf.find_all(&mut m2, &s("xref"), &s("f"));
    let mut out2 = String::new();
    m2.get_hit_keyword(&mut out2);
    assert_eq!(out2, "");
}

#[test]
fn hits_are_keywords_found_in_the_content() {
    let mut kf = KeywordFilter::new();
    kf.add(7, "r".to_string(), "abc".to_string(), "none".to_string());
    kf.add(8, "r".to_string(), "zzz".to_string(), "none".to_string());
    kf.build();
    let mut m = MatchResult::new();
    kf.find_all(&mut m, &"xABcx".to_string(), &"f".to_string());
    kf.find_all(&mut m, &"xabx".to_string(), &"g".to_string());
    let mut out = String::new();
    m.get_hit_keyword(&mut out);
    assert_eq!(out, "7:f|");
}

#[test]
fn unbuilt_filter_records_nothing() {
    let mut kf = KeywordFilter::new();
    kf.add(1, "r".to_string(), "".to_string(), "right".to_string());
    let mut m = MatchResult::new();
    kf.find_all(&mut m, &"".to_string(), &"f".to_string());
    let mut out = String::new();
    m.get_hit_keyword(&mut out);
    assert_eq!(out, "");
}
