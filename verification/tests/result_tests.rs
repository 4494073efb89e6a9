use dynafilter::result::{insert_string, MatchResult};

#[test]
fn keys_are_kept_once() {
    let mut m = MatchResult::new();
    m.add_keyword("=".to_string(), 4000, "r1".to_string(), "req.args".to_string());
    m.add_keyword("ref".to_string(), 4000, "r2".to_string(), "req.args".to_string());
    m.add_keyword("ref".to_string(), -7, "r2".to_string(), "req.filename".to_string());
    let mut out = String::from("|");
    m.get_hit_keyword(&mut out);
    assert_eq!(out, "|4000:req.args|-7:req.filename|");
}

#[test]
fn hit_rules_union_and_idempotent() {
    let mut m = MatchResult::new();
    m.add_keyword("a".to_string(), 1, "r1".to_string(), "f".to_string());
    m.add_keyword("b".to_string(), 2, "r2".to_string(), "f".to_string());
    m.add_keyword("c".to_string(), 3, "r1".to_string(), "g".to_string());
    m.must_match_rules.push("r9".to_string());
    m.must_match_rules.push("r2".to_string());
    let mut rules = vec!["r0".to_string(), "r2".to_string()];
    m.get_hit_rules(&mut rules);
    assert_eq!(rules, vec!["r0", "r2", "r1", "r9"]);
    let once = rules.clone();
    m.get_hit_rules(&mut rules);
    assert_eq!(rules, once);
}

#[test]
fn insert_keeps_set() {
    let mut v = vec!["x".to_string()];
    insert_string(&mut v, &"x".to_string());
    insert_string(&mut v, &"y".to_string());
    assert_eq!(v, vec!["x", "y"]);
}

#[test]
fn match_keyword_getters() {
    // MatchKeyword values only come out of a MatchResult through its methods;
    // the key string carries the id and the field.
    let mut m = MatchResult::new();
    m.add_keyword("k".to_string(), 12, "r".to_string(), "fld".to_string());
    let mut out = String::new();
    m.get_hit_keyword(&mut out);
    assert_eq!(out, "12:fld|");
}
