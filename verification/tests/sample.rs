use dynafilter::filter::engine::BytesScheme;
use dynafilter::prefilter::{prefilter_function, Arg, Prefilter, RuleFilter, RuleFunction};
use dynafilter::rule::Rule;
use dynafilter::result::MatchResult;

fn call(name: &str, args: &[&str]) -> RuleFunction {
    RuleFunction {
        name: name.to_string(),
        args: args.iter().map(|a| Arg { kind: "Literal".to_string(), value: a.to_string() }).collect(),
    }
}

#[test]
fn main() {
    let input_rs: Vec<(String, Vec<RuleFunction>)> = vec![
        (
            "080120001".to_string(),
            vec![call("prefilter", &["keyword", "http.response.body", "358", "String.fromCharCode", "both"])],
        ),
        (
            "080120002".to_string(),
            vec![call("prefilter", &["keyword", "http.response.header", "359", "eval(", "left"])],
        ),
    ];
    // The rule expressions call `prefilter(...)`, which the `wirefilter`
    // engine cannot parse, so no rule filter is built over them.
    let rules = vec![
        Rule {
            id: "080120001".to_string(),
            rule: "prefilter(keyword, \"http.response.body\", \"358\", \"String.fromCharCode\", \"both\") && (http.response.body matches \"(String\\.fromCharCode\\(.*){4,}\")".to_string(),
        },
        Rule {
            id: "080120002".to_string(),
            rule: "prefilter(keyword, \"http.response.header\", \"359\", \"eval(\", \"left\") && (http.response.header matches \"(?i)(eval\\(.{0,15}unescape\\()\")".to_string(),
        },
    ];
    let scheme = BytesScheme::new(&vec![
        "keyword".to_string(),
        "http.response.header".to_string(),
        "http.response.body".to_string(),
    ])
    .unwrap();
    assert!(RuleFilter::new(&rules, &scheme).is_none());
    let pf = Prefilter::new(&input_rs);
    println!("PreFilter build done!!!");
    let mut feilds: Vec<(String, String)> = Vec::new();
    feilds.push((
        "http.response.body".to_string(),
        r#"<script type="text/javascript">
    alert(<#String.fromCharCode(72, 69, 76, 76, 79)String.fromCharCode(72, 69, 76, 76, 79)String.fromCharCode(72, 69, 76, 76, 79)String.fromCharCode(72, 69, 76, 76, 79)#>)
    </script>"#
            .to_string(),
    ));
    feilds.push(("http.response.header".to_string(), "a=#eval(u".to_string()));
    let mut mctx = MatchResult::new();
    pf.exec(&feilds, &mut mctx);

    let mut kw_str = String::from("|");
    mctx.get_hit_keyword(&mut kw_str);
    println!("!!!match keywords: {}", kw_str.clone());
    assert!(kw_str.contains("|358:http.response.body|"));
    assert!(kw_str.contains("|359:http.response.header|"));
    assert!(prefilter_function(&kw_str, "http.response.body", "358"));
    assert!(prefilter_function(&kw_str, "http.response.header", "359"));
    assert!(!prefilter_function(&kw_str, "http.response.header", "358"));

    let mut rules: Vec<String> = Vec::new();
    mctx.get_hit_rules(&mut rules);
    rules.sort();
    assert_eq!(rules, vec!["080120001".to_string(), "080120002".to_string()]);
}
