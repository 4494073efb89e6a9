use dynafilter::filter::engine::BytesScheme;
use dynafilter::filter::prefilter::FilterOutcome;
use dynafilter::prefilter::RuleFilter;
use dynafilter::rule::Rule;
use dynafilter::prefilter::{prefilter_function, Arg, Prefilter, RuleFunction};
use dynafilter::result::MatchResult;

fn call(name: &str, args: &[&str]) -> RuleFunction {
    RuleFunction {
        name: name.to_string(),
        args: args.iter().map(|a| Arg { kind: "Literal".to_string(), value: a.to_string() }).collect(),
    }
}

fn keywords_of(pf: &Prefilter, feilds: &[(&str, &str)]) -> String {
    let fs: Vec<(String, String)> = feilds.iter().map(|(a, b)| (a.to_string(), b.to_string())).collect();
    let mut m = MatchResult::new();
    pf.exec(&fs, &mut m);
    let mut out = String::from("|");
    m.get_hit_keyword(&mut out);
    out
}

#[test]
fn targets_split_on_bar() {
    let rules = vec![(
        "r1".to_string(),
        vec![call("prefilter", &["keyword", "a|b", "7", "xyz", "none"])],
    )];
    let pf = Prefilter::new(&rules);
    let out = keywords_of(&pf, &[("a", "__XYZ__"), ("b", "xyz"), ("c", "xyz")]);
    assert_eq!(out, "|7:a|7:b|");
}

#[test]
fn other_calls_and_wrong_arity_add_nothing() {
    let rules = vec![(
        "r1".to_string(),
        vec![
            call("other", &["keyword", "a", "1", "xyz", "none"]),
            call("prefilter", &["keyword", "a", "2", "xyz"]),
            call("prefilter", &["keyword", "a", "3", "xyz", "none", "extra"]),
            call("prefilter", &["keyword", "a", "-4", "xyz", "none"]),
        ],
    )];
    let pf = Prefilter::new(&rules);
    let out = keywords_of(&pf, &[("a", "xyz")]);
    assert_eq!(out, "|-4:a|");
}

#[test]
fn boundary_checks_apply() {
    let rules = vec![
        ("r1".to_string(), vec![call("prefilter", &["keyword", "f", "1", "ab", "both"])]),
        ("r2".to_string(), vec![call("prefilter", &["keyword", "f", "2", "ab", "left"])]),
        ("r3".to_string(), vec![call("prefilter", &["keyword", "f", "3", "ab", "right"])]),
    ];
    let pf = Prefilter::new(&rules);
    assert_eq!(keywords_of(&pf, &[("f", "x ab yy")]), "|1:f|2:f|3:f|");
    assert_eq!(keywords_of(&pf, &[("f", "xab yy")]), "|3:f|");
    assert_eq!(keywords_of(&pf, &[("f", "x abyy")]), "|2:f|");
}

#[test]
fn prefilter_function_checks_key() {
    assert!(prefilter_function("|358:body|359:header|", "header", "359"));
    assert!(!prefilter_function("|358:body|359:header|", "header", "35"));
    assert!(!prefilter_function("358:body|", "body", "358"));
    assert!(prefilter_function("|1:a|", "a", "1"));
}

#[test]
fn keyword_string_names_only_recorded_pairs() {
    let mut m = MatchResult::new();
    m.add_keyword("abc".to_string(), 12, "r1".to_string(), "req.args".to_string());
    m.add_keyword("abc".to_string(), 3, "r2".to_string(), "body".to_string());
    let mut kw = String::from("|");
    m.get_hit_keyword(&mut kw);
    assert!(prefilter_function(&kw, "req.args", "12"));
    assert!(prefilter_function(&kw, "body", "3"));
    assert!(!prefilter_function(&kw, "req.args", "2"));
    assert!(!prefilter_function(&kw, "args", "12"));
    assert!(!prefilter_function(&kw, "body", "12"));
}

#[test]
fn engine_rules_run_for_hits_and_must_match_rules() {
    let feilds = vec![
        ("RESPONSE_BODY".to_string(), "the admin page".to_string()),
        ("keyword".to_string(), "|1:RESPONSE_BODY|".to_string()),
    ];
    let scheme = BytesScheme::new(&vec!["keyword".to_string(), "RESPONSE_BODY".to_string()]).unwrap();
    let rules = vec![
        Rule { id: "a".to_string(), rule: "keyword contains \"|1:RESPONSE_BODY|\"".to_string() },
        Rule { id: "b".to_string(), rule: "RESPONSE_BODY contains \"admin\"".to_string() },
        Rule { id: "a".to_string(), rule: "RESPONSE_BODY contains \"zzz\"".to_string() },
    ];
    let rf = RuleFilter::new(&rules, &scheme).unwrap();
    assert_eq!(rf.rules.len(), 2);
    let mut m = MatchResult::new();
    m.add_keyword("x".to_string(), 1, "a".to_string(), "RESPONSE_BODY".to_string());
    m.add_must_match("b".to_string());
    m.add_must_match("c".to_string());
    let (_, outs) = rf.exec(&scheme, &feilds, &m);
    let got: Vec<(String, FilterOutcome)> = outs.into_iter().map(|o| (o.rid, o.outcome)).collect();
    assert_eq!(
        got,
        vec![
            ("a".to_string(), FilterOutcome::Matched(false)),
            ("b".to_string(), FilterOutcome::Matched(true)),
            ("c".to_string(), FilterOutcome::NotFound),
        ]
    );
    let bad = vec![Rule { id: "x".to_string(), rule: "prefilter(keyword, \"f\")".to_string() }];
    assert!(RuleFilter::new(&bad, &scheme).is_none());
}
