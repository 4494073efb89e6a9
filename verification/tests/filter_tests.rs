use dynafilter::filter::keyword::KeywordFilter;
use dynafilter::filter::prefilter::{add_rule, FilterOutcome, Prefilter, RuleFilter};
use dynafilter::filter::result::MatchResult;
use dynafilter::filter::rule::{Keyword, RtRule, Rule};
use dynafilter::filter::engine::BytesScheme;

fn kw(id: i64, content: &str, targets: &[&str], check: Option<&str>) -> Keyword {
    Keyword {
        id,
        content: content.to_string(),
        target: targets.iter().map(|t| t.to_string()).collect(),
        after_check: check.map(|c| c.to_string()),
    }
}

fn rules() -> Vec<Rule> {
    vec![
        Rule {
            id: "010000092".to_string(),
            keyword: vec![
                kw(4000, "=", &["req.filename", "req.args"], None),
                kw(4003, "ref", &["req.filename", "req.args"], None),
            ],
            content: "((keyword contains \"|4000:req.filename|\" && keyword contains \"|4003:req.filename|\") && req.filename matches \"href=\") || ((keyword contains \"|4000:req.args|\" && keyword contains \"|4003:req.args|\") && req.args matches \"href=\")".to_string(),
        },
        Rule {
            id: "090000072".to_string(),
            keyword: vec![
                kw(4006, "def", &["req.filename", "req.args"], None),
                kw(4007, "abc", &["req.filename", "req.args"], Some("both")),
            ],
            content: "((keyword contains \"|4006:req.filename|\" && keyword contains \"|4007:req.filename|\") && req.filename matches \"abc\") || ((keyword contains \"|4006:req.args|\" && keyword contains \"|4007:req.args|\") && req.args matches \"def\")".to_string(),
        },
    ]
}

fn scheme() -> BytesScheme {
    BytesScheme::new(&vec!["req.filename".to_string(), "req.args".to_string(), "keyword".to_string()]).unwrap()
}

#[test]
fn keyword_filter_is_case_sensitive() {
    let mut kf = KeywordFilter::new();
    kf.add(1, "r".to_string(), "abc".to_string(), "right".to_string());
    kf.build();
    let mut m = MatchResult::new();
    kf.find_all(&mut m, &"ABC abcd".to_string(), &"f".to_string());
    let mut out = String::new();
    m.get_hit_keyword(&mut out);
    assert_eq!(out, "1:f|");
}

#[test]
fn hit_keywords_keep_every_hit() {
    let pf = Prefilter::new(&rules());
    let feilds = vec![
        ("req.filename".to_string(), "a=1&&xxx=abcdef".to_string()),
        ("req.args".to_string(), "bbb=def".to_string()),
    ];
    let mut m = MatchResult::new();
    pf.exec(&feilds, &mut m);
    let mut kw_str = String::from("|");
    m.get_hit_keyword(&mut kw_str);
    assert_eq!(
        kw_str,
        "|4000:req.filename|4000:req.filename|4007:req.filename|4006:req.filename|4000:req.args|4006:req.args|"
    );
}

#[test]
fn rules_run_on_hits() {
    let scheme = scheme();
    let rs = rules();
    let rf = RuleFilter::new(&rs, &scheme).unwrap();
    let pf = Prefilter::new(&rs);
    let mut feilds = vec![
        ("req.filename".to_string(), "a=1&&xxx=abcdef".to_string()),
        ("req.args".to_string(), "bbb=def".to_string()),
    ];
    let mut m = MatchResult::new();
    pf.exec(&feilds, &mut m);
    let mut kw_str = String::from("|");
    m.get_hit_keyword(&mut kw_str);
    feilds.push(("keyword".to_string(), kw_str));
    let (fields_out, outcomes) = rf.exec(&scheme, &feilds, m);
    assert_eq!(fields_out.len(), 3);
    assert!(fields_out.iter().all(|f| f.accepted));
    let mut got: Vec<(String, FilterOutcome)> = outcomes.into_iter().map(|o| (o.rid, o.outcome)).collect();
    got.sort_by(|a, b| a.0.cmp(&b.0));
    assert_eq!(
        got,
        vec![
            ("010000092".to_string(), FilterOutcome::Matched(false)),
            ("090000072".to_string(), FilterOutcome::Matched(true)),
        ]
    );
}

#[test]
fn unknown_rule_is_reported() {
    let scheme = scheme();
    let rs = rules();
    let rf = RuleFilter::new(&rs[..1].to_vec(), &scheme).unwrap();
    let mut m = MatchResult::new();
    m.add_keyword("def".to_string(), 4006, "090000072".to_string(), "req.args".to_string());
    let feilds = vec![("req.args".to_string(), "x".to_string()), ("keyword".to_string(), "|".to_string())];
    let (_, outcomes) = rf.exec(&scheme, &feilds, m);
    assert_eq!(outcomes.len(), 1);
    assert_eq!(outcomes[0].rid, "090000072");
    assert_eq!(outcomes[0].outcome, FilterOutcome::NotFound);
}

#[test]
fn bad_rule_does_not_compile() {
    let scheme = scheme();
    let mut rs = rules();
    rs[0].content = "req.filename ==".to_string();
    assert!(RuleFilter::new(&rs, &scheme).is_none());
    assert!(RtRule::new(&rs[0], &scheme).is_none());
    assert_eq!(RtRule::new(&rs[1], &scheme).unwrap().rid, "090000072");
}

#[test]
fn duplicate_rule_ids_keep_one_entry() {
    let scheme = scheme();
    let mut rs = rules();
    let mut again = rs[0].clone();
    again.content = "req.args matches \"x\"".to_string();
    rs.push(again);
    let mut rf = RuleFilter::new(&rs, &scheme).unwrap();
    let ids: Vec<String> = rf.rules.iter().map(|r| r.rid.clone()).collect();
    assert_eq!(ids, vec!["010000092", "090000072"]);
    assert!(add_rule(&mut rf.rules, &rs[1]));
    let mut other = rs[1].clone();
    other.id = "x".to_string();
    assert!(!add_rule(&mut rf.rules, &other));
}

#[test]
fn hit_rules_of_service_result() {
    let mut m = MatchResult::new();
    m.add_keyword("a".to_string(), 1, "r1".to_string(), "f".to_string());
    m.add_keyword("b".to_string(), 2, "r1".to_string(), "g".to_string());
    let mut rules = Vec::new();
    m.get_hit_rules(&mut rules);
    assert_eq!(rules, vec!["r1".to_string()]);
}

#[test]
fn no_rules_give_an_empty_rule_filter() {
    let sc = scheme();
    let rules: Vec<Rule> = Vec::new();
    let rf = RuleFilter::new(&rules, &sc).unwrap();
    assert_eq!(rf.rules.len(), 0);
}

#[test]
fn duplicate_field_names_give_no_scheme() {
    assert!(BytesScheme::new(&vec!["a".to_string(), "a".to_string()]).is_none());
}

#[test]
fn later_rule_with_same_id_gives_the_filter() {
    let scheme = scheme();
    let mut rs = rules();
    let mut again = rs[1].clone();
    again.content = "req.args matches \"zzz\"".to_string();
    rs.push(again);
    let rf = RuleFilter::new(&rs, &scheme).unwrap();
    let mut m = MatchResult::new();
    m.add_keyword("def".to_string(), 4006, "090000072".to_string(), "req.args".to_string());
    let feilds = vec![("req.args".to_string(), "zzz".to_string())];
    let (_, outcomes) = rf.exec(&scheme, &feilds, m);
    assert_eq!(outcomes[0].outcome, FilterOutcome::Matched(true));
}

#[test]
fn unknown_fields_and_missing_values() {
    let scheme = scheme();
    let rs = rules();
    let rf = RuleFilter::new(&rs, &scheme).unwrap();
    let mut m = MatchResult::new();
    m.add_keyword("def".to_string(), 4006, "090000072".to_string(), "req.args".to_string());
    let feilds = vec![("req.args".to_string(), "def".to_string()), ("nope".to_string(), "x".to_string())];
    let (fields_out, outcomes) = rf.exec(&scheme, &feilds, m);
    assert!(fields_out[0].accepted);
    assert!(!fields_out[1].accepted);
    // `keyword` has no value and reads as empty bytes, so no keyword test holds.
    assert_eq!(outcomes[0].outcome, FilterOutcome::Matched(false));
}

#[test]
fn a_decided_filter_does_not_need_unread_fields() {
    let scheme = scheme();
    let rs = vec![Rule {
        id: "r".to_string(),
        keyword: vec![],
        content: "req.args == \"x\" || req.filename == \"y\"".to_string(),
    }];
    let rf = RuleFilter::new(&rs, &scheme).unwrap();
    let mut m = MatchResult::new();
    m.add_keyword("x".to_string(), 1, "r".to_string(), "req.args".to_string());
    let feilds = vec![("req.args".to_string(), "x".to_string())];
    let (_, outcomes) = rf.exec(&scheme, &feilds, m);
    assert_eq!(outcomes[0].outcome, FilterOutcome::Matched(true));
}

#[test]
fn function_calls_do_not_parse() {
    let scheme = scheme();
    let rs = vec![Rule {
        id: "r".to_string(),
        keyword: vec![],
        content: "prefilter(keyword, \"req.args\", \"1\", \"x\", \"none\")".to_string(),
    }];
    assert!(RuleFilter::new(&rs, &scheme).is_none());
}

#[test]
fn must_match_rules_are_hit_rules() {
    let mut m = dynafilter::result::MatchResult::new();
    m.add_must_match("r9".to_string());
    m.add_keyword("abc".to_string(), 1, "r1".to_string(), "f".to_string());
    m.add_keyword("abc".to_string(), 2, "r1".to_string(), "g".to_string());
    let mut h = vec!["r0".to_string()];
    m.get_hit_rules(&mut h);
    h.sort();
    assert_eq!(h, vec!["r0".to_string(), "r1".to_string(), "r9".to_string()]);
}
