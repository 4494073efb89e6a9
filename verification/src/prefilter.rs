//! The prefilter: from the `prefilter(...)` calls of the rules it builds one
//! keyword filter per request field, and runs each field's content through
//! the filter of that field.
use vstd::prelude::*;
use crate::assoc::{assoc, assoc_keys, lemma_assoc_absent, lemma_assoc_found, lemma_assoc_push, lemma_assoc_update};
use crate::automaton::ac_matches;
use crate::keyword::{equals_word, KeywordFilter, KeywordView};
use crate::result::{concat, distinct, hit_key, HitView, MatchResult};
use crate::text::{int_decimal, is_ascii_digit, lemma_decimal_plain, law_decimal_roundtrip, occurs_at};
use crate::filter::engine::BytesScheme;
use crate::filter::prefilter::{
    all_parse, distinct_ids, last_content, rt_ids, rule_outcome, rules_spec, rules_wf, run_rules, run_values,
    FieldOutcome, FilterOutcome, RuleOutcome,
};
use crate::filter::rule::{RtRule, RuleSpec};
use crate::result::views;
use crate::text::{chars_of, contains_chars, contains_seq, parse_i64, parse_i64_spec, push_char, split_char, split_on};

verus! {

pub struct ArgView {
    pub kind: Seq<char>,
    pub value: Seq<char>,
}

pub struct RuleFunctionView {
    pub name: Seq<char>,
    pub args: Seq<ArgView>,
}

/// A function call of a rule, with its arguments.
#[derive(Default, Debug, Clone, PartialEq)]
pub struct RuleFunction {
    pub name: String,
    pub args: Vec<Arg>,
}

/// An argument of a function call of a rule.
#[derive(Default, Debug, Clone, PartialEq)]
pub struct Arg {
    pub kind: String,
    pub value: String,
}

pub type RuleFunctions = Vec<RuleFunction>;

impl Arg {
    pub open spec fn view_arg(&self) -> ArgView {
        ArgView { kind: self.kind@, value: self.value@ }
    }
}

impl RuleFunction {
    pub open spec fn view_fn(&self) -> RuleFunctionView {
        RuleFunctionView { name: self.name@, args: self.args@.map_values(|a: Arg| a.view_arg()) }
    }
}

/// The rules as the contracts see them: each rule's identifier with its calls.
pub open spec fn rules_view(rules: Seq<(String, Vec<RuleFunction>)>) -> Seq<(Seq<char>, Seq<RuleFunctionView>)> {
    rules.map_values(
        |r: (String, Vec<RuleFunction>)| (r.0@, r.1@.map_values(|f: RuleFunction| f.view_fn())),
    )
}

pub open spec fn word_prefilter() -> Seq<char> {
    seq!['p', 'r', 'e', 'f', 'i', 'l', 't', 'e', 'r']
}

/// One keyword to add to the filter of one field.
pub struct AddOp {
    pub field: Seq<char>,
    pub kid: i64,
    pub rid: Seq<char>,
    pub kword: Seq<char>,
    pub func: Seq<char>,
}

/// A call `prefilter(field, targets, kid, keyword, check)`: the name
/// `prefilter` and five arguments.
pub open spec fn is_prefilter_call(f: RuleFunctionView) -> bool {
    f.name == word_prefilter() && f.args.len() == 5
}

/// The keywords a call of rule `rid` adds: for a prefilter call, keyword
/// `kid` with text `keyword` and check `check` for each field of `targets`
/// (the fields separated by `|`); for any other call, none.
pub open spec fn call_ops(rid: Seq<char>, f: RuleFunctionView) -> Seq<AddOp> {
    if is_prefilter_call(f) {
        split_on(f.args[1].value, '|').map_values(
            |field: Seq<char>|
                AddOp {
                    field: field,
                    kid: parse_i64_spec(f.args[2].value).unwrap(),
                    rid: rid,
                    kword: f.args[3].value,
                    func: f.args[4].value,
                },
        )
    } else {
        Seq::<AddOp>::empty()
    }
}

/// The keywords the calls `fs` of rule `rid` add, call by call.
pub open spec fn rule_ops(rid: Seq<char>, fs: Seq<RuleFunctionView>) -> Seq<AddOp>
    decreases fs.len(),
{
    if fs.len() == 0 {
        Seq::<AddOp>::empty()
    } else {
        rule_ops(rid, fs.drop_last()) + call_ops(rid, fs.last())
    }
}

/// The keywords all rules add, rule by rule.
pub open spec fn all_ops(rules: Seq<(Seq<char>, Seq<RuleFunctionView>)>) -> Seq<AddOp>
    decreases rules.len(),
{
    if rules.len() == 0 {
        Seq::<AddOp>::empty()
    } else {
        all_ops(rules.drop_last()) + rule_ops(rules.last().0, rules.last().1)
    }
}

/// Every prefilter call gives a keyword identifier that reads as an `i64`.
pub open spec fn kids_parse(rules: Seq<(Seq<char>, Seq<RuleFunctionView>)>) -> bool {
    forall|i: int, j: int|
        0 <= i < rules.len() && 0 <= j < rules[i].1.len() && is_prefilter_call(
            #[trigger] rules[i].1[j],
        ) ==> parse_i64_spec(rules[i].1[j].args[2].value) is Some
}

/// The keywords for field `field`, in order.
pub open spec fn ops_for(ops: Seq<AddOp>, field: Seq<char>) -> Seq<AddOp>
    decreases ops.len(),
{
    if ops.len() == 0 {
        Seq::<AddOp>::empty()
    } else {
        let p = ops_for(ops.drop_last(), field);
        if ops.last().field == field {
            p.push(ops.last())
        } else {
            p
        }
    }
}

/// The fields the keywords are for, each once, in the order they first come.
pub open spec fn op_fields(ops: Seq<AddOp>) -> Seq<Seq<char>>
    decreases ops.len(),
{
    if ops.len() == 0 {
        Seq::<Seq<char>>::empty()
    } else {
        let p = op_fields(ops.drop_last());
        if p.contains(ops.last().field) {
            p
        } else {
            p.push(ops.last().field)
        }
    }
}

/// The keyword texts, each once, in the order they first come.
pub open spec fn op_keys(ops: Seq<AddOp>) -> Seq<Seq<char>>
    decreases ops.len(),
{
    if ops.len() == 0 {
        Seq::<Seq<char>>::empty()
    } else {
        let p = op_keys(ops.drop_last());
        if p.contains(ops.last().kword) {
            p
        } else {
            p.push(ops.last().kword)
        }
    }
}

/// The keywords with text `k`, in order, if there is one.
pub open spec fn op_lookup(ops: Seq<AddOp>, k: Seq<char>) -> Option<Seq<KeywordView>>
    decreases ops.len(),
{
    if ops.len() == 0 {
        None
    } else {
        let p = op_lookup(ops.drop_last(), k);
        let o = ops.last();
        if o.kword == k {
            Some(
                match p {
                    Some(kws) => kws,
                    None => Seq::<KeywordView>::empty(),
                }.push(KeywordView { id: o.kid, rid: o.rid, func: o.func }),
            )
        } else {
            p
        }
    }
}

/// `kf` holds exactly the keywords `ops`, grouped by text.
pub open spec fn filter_models(kf: KeywordFilter, ops: Seq<AddOp>) -> bool {
    &&& kf.keys() == op_keys(ops)
    &&& forall|k: Seq<char>| #[trigger] kf.keywords_of(k) == op_lookup(ops, k)
}

pub proof fn lemma_ops_for_absent(ops: Seq<AddOp>, field: Seq<char>)
    requires
        !op_fields(ops).contains(field),
    ensures
        ops_for(ops, field) == Seq::<AddOp>::empty(),
    decreases ops.len(),
{
    if ops.len() > 0 {
        let p = op_fields(ops.drop_last());
        if p.contains(field) {
            let i = choose|i: int| 0 <= i < p.len() && p[i] == field;
            if !p.contains(ops.last().field) {
                assert(op_fields(ops) == p.push(ops.last().field));
            }
            assert(op_fields(ops)[i] == field);
        }
        if ops.last().field == field {
            assert(op_fields(ops).contains(field)) by {
                if !p.contains(field) {
                    assert(op_fields(ops) == p.push(field));
                    assert(op_fields(ops)[p.len() as int] == field);
                }
            }
        }
        lemma_ops_for_absent(ops.drop_last(), field);
    }
}

/// The per-field filters while they are being filled: one entry per field the
/// keywords so far are for, each holding exactly that field's keywords.
spec fn fill_state(es: Seq<(Seq<char>, KeywordFilter)>, done: Seq<AddOp>) -> bool {
    &&& assoc_keys(es) == op_fields(done)
    &&& distinct(assoc_keys(es))
    &&& forall|i: int|
        0 <= i < es.len() ==> {
            &&& (#[trigger] es[i]).1.wf()
            &&& !es[i].1.built()
            &&& es[i].1.patterns() == Seq::<Seq<char>>::empty()
            &&& filter_models(es[i].1, ops_for(done, es[i].0))
        }
}

/// A keyword filter per request field.
pub struct Prefilter {
    maps: Vec<(String, KeywordFilter)>,
}

spec fn map_entries(maps: Seq<(String, KeywordFilter)>) -> Seq<(Seq<char>, KeywordFilter)> {
    maps.map_values(|e: (String, KeywordFilter)| (e.0@, e.1))
}

/// Adds keyword `kid` of rule `rid`, with text `kword` and check `func`, to
/// the filter of `field`, making that filter if there is none.
fn field_index(maps: &Vec<(String, KeywordFilter)>, field: &String) -> (r: Option<usize>)
    ensures
        match r {
            Some(j) => j < maps.len() && maps@[j as int].0@ == field@,
            None => !assoc_keys(map_entries(maps@)).contains(field@),
        },
{
    let ghost es = map_entries(maps@);
    let mut j: usize = 0;
    while j < maps.len()
        invariant
            j <= maps.len(),
            es == map_entries(maps@),
            forall|i: int| 0 <= i < j ==> assoc_keys(es)[i] != field@,
        decreases maps.len() - j,
    {
        assert(assoc_keys(es)[j as int] == maps@[j as int].0@);
        if maps[j].0 == *field {
            return Some(j);
        }
        j = j + 1;
    }
    None
}

fn add_to_field(
    maps: &mut Vec<(String, KeywordFilter)>,
    field: String,
    kid: i64,
    rid: String,
    kword: String,
    func: String,
    Ghost(done): Ghost<Seq<AddOp>>,
)
    requires
        fill_state(map_entries(old(maps)@), done),
    ensures
        fill_state(
            map_entries(final(maps)@),
            done.push(AddOp { field: field@, kid, rid: rid@, kword: kword@, func: func@ }),
        ),
{
    let ghost o = AddOp { field: field@, kid, rid: rid@, kword: kword@, func: func@ };
    let ghost es = map_entries(maps@);
    let ghost nd = done.push(o);
    assert(nd.drop_last() == done);
    let idx = field_index(maps, &field);
    if idx.is_some() {
        let j = idx.unwrap();
        let (f, mut kf) = maps.remove(j);
        let ghost kf0 = kf;
        assert(es[j as int] == (f@, kf0));
        assert(assoc_keys(es)[j as int] == field@);
        kf.add(kid, rid, kword, func);
        maps.insert(j, (f, kf));
        let ghost nes = es.update(j as int, (es[j as int].0, kf));
        assert(map_entries(maps@) =~= nes);
        proof {
            lemma_assoc_update(es, j as int, kf);
            assert(op_fields(done).contains(field@)) by {
                assert(assoc_keys(es)[j as int] == field@);
            }
            assert(op_fields(nd) == op_fields(done));
            assert forall|i: int| 0 <= i < nes.len() implies {
                &&& (#[trigger] nes[i]).1.wf()
                &&& !nes[i].1.built()
                &&& nes[i].1.patterns() == Seq::<Seq<char>>::empty()
                &&& filter_models(nes[i].1, ops_for(nd, nes[i].0))
            } by {
                if i == j {
                    let x = ops_for(done, field@);
                    assert(ops_for(nd, field@) == x.push(o));
                    assert(x.push(o).drop_last() == x);
                    assert(filter_models(kf0, x));
                    assert forall|k: Seq<char>| #[trigger] kf.keywords_of(k) == op_lookup(x.push(o), k) by {
                        assert(kf0.keywords_of(k) == op_lookup(x, k));
                    }
                } else {
                    assert(nes[i] == es[i]);
                    assert(assoc_keys(es)[i] != assoc_keys(es)[j as int]);
                    assert(ops_for(nd, es[i].0) == ops_for(done, es[i].0));
                }
            }
        }
    } else {
        proof {
            assert(!assoc_keys(es).contains(field@));
            lemma_ops_for_absent(done, field@);
        }
        let mut kf = KeywordFilter::new();
        let ghost kf0 = kf;
        proof {
            assert(filter_models(kf0, Seq::<AddOp>::empty())) by {
                assert forall|k: Seq<char>| #[trigger] kf0.keywords_of(k) == op_lookup(
                    Seq::<AddOp>::empty(),
                    k,
                ) by {
                    assert(kf0.entries() == Seq::<(Seq<char>, Seq<KeywordView>)>::empty());
                }
                assert(kf0.keys() =~= Seq::<Seq<char>>::empty());
            }
        }
        let ghost fv = field@;
        kf.add(kid, rid, kword, func);
        maps.push((field, kf));
        let ghost nes = es.push((fv, kf));
        assert(map_entries(maps@) =~= nes);
        proof {
            lemma_assoc_push(es, fv, kf);
            assert(op_fields(nd) == op_fields(done).push(fv));
            let x = Seq::<AddOp>::empty();
            assert(ops_for(nd, fv) == x.push(o));
            assert(x.push(o).drop_last() == x);
            assert forall|i: int| 0 <= i < nes.len() implies {
                &&& (#[trigger] nes[i]).1.wf()
                &&& !nes[i].1.built()
                &&& nes[i].1.patterns() == Seq::<Seq<char>>::empty()
                &&& filter_models(nes[i].1, ops_for(nd, nes[i].0))
            } by {
                if i == es.len() {
                    assert forall|k: Seq<char>| #[trigger] kf.keywords_of(k) == op_lookup(x.push(o), k) by {
                        assert(kf0.keywords_of(k) == op_lookup(x, k));
                    }
                } else {
                    assert(nes[i] == es[i]);
                    assert(assoc_keys(es)[i] == es[i].0);
                    assert(ops_for(nd, es[i].0) == ops_for(done, es[i].0));
                }
            }
        }
    }
}


impl Prefilter {
    /// The fields with their filters, in the order the fields first came.
    pub closed spec fn entries(&self) -> Seq<(Seq<char>, KeywordFilter)> {
        map_entries(self.maps@)
    }

    /// The fields that have a filter.
    pub open spec fn fields(&self) -> Seq<Seq<char>> {
        assoc_keys(self.entries())
    }

    /// The filter of field `f`, if it has one.
    pub open spec fn filter_of(&self, f: Seq<char>) -> Option<KeywordFilter> {
        assoc(self.entries(), f)
    }

    /// Each field has one filter, and every filter is built.
    pub closed spec fn wf(&self) -> bool {
        &&& distinct(self.fields())
        &&& forall|i: int|
            0 <= i < self.entries().len() ==> (#[trigger] self.entries()[i]).1.wf()
                && self.entries()[i].1.built()
    }

    /// The hits that running the field contents `fs` (field, content) through
    /// their filters gives, field by field.
    pub open spec fn exec_hits(&self, fs: Seq<(Seq<char>, Seq<char>)>) -> Seq<HitView>
        decreases fs.len(),
    {
        if fs.len() == 0 {
            Seq::<HitView>::empty()
        } else {
            self.exec_hits(fs.drop_last()) + match self.filter_of(fs.last().0) {
                Some(kf) => kf.hits_for(fs.last().1, fs.last().0, ac_matches(kf.patterns(), true, fs.last().1)),
                None => Seq::<HitView>::empty(),
            }
        }
    }

    /// Builds the filters from the calls of the rules (each rule's identifier with
    /// its calls): every `prefilter(_, targets, kid, keyword, check)` call with
    /// five arguments adds keyword `kid` with text `keyword` and check `check`
    /// to the filter of each field in `targets`; then every filter is built.
    pub fn new(rules: &Vec<(String, RuleFunctions)>) -> (r: Self)
        requires
            kids_parse(rules_view(rules@)),
        ensures
            r.wf(),
            r.fields() == op_fields(all_ops(rules_view(rules@))),
            forall|f: Seq<char>| #[trigger] r.filter_of(f) is Some <==> r.fields().contains(f),
            forall|f: Seq<char>|
                #[trigger] r.filter_of(f) is Some ==> {
                    let kf = r.filter_of(f).unwrap();
                    &&& filter_models(kf, ops_for(all_ops(rules_view(rules@)), f))
                    &&& kf.built()
                    &&& kf.patterns() == kf.keys()
                },
            forall|i: int, j: int, t: int|
                #![trigger call_registered(r, rules_view(rules@)[i].0, rules_view(rules@)[i].1[j], t)]
                0 <= i < rules@.len() && 0 <= j < rules_view(rules@)[i].1.len() && is_prefilter_call(
                    rules_view(rules@)[i].1[j],
                ) && 0 <= t < split_on(rules_view(rules@)[i].1[j].args[1].value, '|').len()
                    ==> call_registered(r, rules_view(rules@)[i].0, rules_view(rules@)[i].1[j], t),
    {
        let ghost rv = rules_view(rules@);
        let mut maps: Vec<(String, KeywordFilter)> = Vec::new();
        assert(map_entries(maps@) =~= Seq::<(Seq<char>, KeywordFilter)>::empty());
        assert(rv.take(0) =~= Seq::<(Seq<char>, Seq<RuleFunctionView>)>::empty());
        assert(all_ops(rv.take(0)) == Seq::<AddOp>::empty());
        assert(assoc_keys(map_entries(maps@)) =~= Seq::<Seq<char>>::empty());
        assert(op_fields(Seq::<AddOp>::empty()) == Seq::<Seq<char>>::empty());
        let mut i: usize = 0;
        while i < rules.len()
            invariant
                i <= rules.len(),
                rv == rules_view(rules@),
                kids_parse(rv),
                fill_state(map_entries(maps@), all_ops(rv.take(i as int))),
            decreases rules.len() - i,
        {
            let id = &rules[i].0;
            let fs = &rules[i].1;
            let ghost fv = rv[i as int].1;
            let ghost base = all_ops(rv.take(i as int));
            assert(fv == fs@.map_values(|f: RuleFunction| f.view_fn()));
            assert(rv[i as int].0 == id@);
            assert(fv.take(0) =~= Seq::<RuleFunctionView>::empty());
            assert(base + rule_ops(id@, fv.take(0)) =~= base);
            let mut j: usize = 0;
            while j < fs.len()
                invariant
                    i < rules.len(),
                    j <= fs.len(),
                    rv == rules_view(rules@),
                    kids_parse(rv),
                    fv == rv[i as int].1,
                    fv == fs@.map_values(|f: RuleFunction| f.view_fn()),
                    fs == rules@[i as int].1,
                    rv[i as int].0 == id@,
                    base == all_ops(rv.take(i as int)),
                    fill_state(map_entries(maps@), base + rule_ops(id@, fv.take(j as int))),
                decreases fs.len() - j,
            {
                let f = &fs[j];
                let ghost before = base + rule_ops(id@, fv.take(j as int));
                assert(fv[j as int] == f.view_fn());
                assert(fv.take(j + 1).drop_last() == fv.take(j as int));
                assert(fv.take(j + 1).last() == f.view_fn());
                assert(before + call_ops(id@, f.view_fn()) == base + rule_ops(id@, fv.take(j + 1)));
                proof {
                    reveal_strlit("prefilter");
                    assert("prefilter"@ =~= word_prefilter());
                }
                if equals_word(&f.name, "prefilter") && f.args.len() == 5 {
                    let targets = split_char(f.args[1].value.as_str(), '|');
                    proof {
                        assert(is_prefilter_call(rv[i as int].1[j as int]));
                        assert(f.view_fn().args[2].value == f.args@[2].value@);
                    }
                    let kid = parse_i64(f.args[2].value.as_str()).unwrap();
                    let keyword = &f.args[3].value;
                    let after_check = &f.args[4].value;
                    let ghost ops = call_ops(id@, f.view_fn());
                    assert(ops.len() == targets@.len());
                    assert(before + ops.take(0) =~= before);
                    let mut t: usize = 0;
                    while t < targets.len()
                        invariant
                            t <= targets.len(),
                            ops == call_ops(id@, f.view_fn()),
                            ops.len() == targets@.len(),
                            is_prefilter_call(f.view_fn()),
                            crate::result::views(targets@) == split_on(f.view_fn().args[1].value, '|'),
                            Some(kid) == parse_i64_spec(f.view_fn().args[2].value),
                            keyword@ == f.view_fn().args[3].value,
                            after_check@ == f.view_fn().args[4].value,
                            fill_state(map_entries(maps@), before + ops.take(t as int)),
                        decreases targets.len() - t,
                    {
                        let ghost done = before + ops.take(t as int);
                        assert(crate::result::views(targets@)[t as int] == targets@[t as int]@);
                        add_to_field(
                            &mut maps,
                            targets[t].clone(),
                            kid,
                            id.clone(),
                            keyword.clone(),
                            after_check.clone(),
                            Ghost(done),
                        );
                        assert(ops.take(t + 1) == ops.take(t as int).push(ops[t as int]));
                        assert(done.push(ops[t as int]) == before + ops.take(t + 1));
                        t = t + 1;
                    }
                    assert(ops.take(t as int) == ops);
                } else {
                    assert(!is_prefilter_call(f.view_fn()));
                    assert(before + call_ops(id@, f.view_fn()) =~= before);
                }
                j = j + 1;
            }
            assert(fv.take(j as int) == fv);
            assert(rv.take(i + 1).drop_last() == rv.take(i as int));
            assert(rv.take(i + 1).last() == rv[i as int]);
            i = i + 1;
        }
        assert(rv.take(i as int) == rv);
        let ghost ops = all_ops(rv);
        let ghost es0 = map_entries(maps@);
        let mut k: usize = 0;
        while k < maps.len()
            invariant
                k <= maps.len(),
                fill_state(es0, ops),
                map_entries(maps@).len() == es0.len(),
                forall|x: int|
                    0 <= x < es0.len() ==> (#[trigger] map_entries(maps@)[x]).0 == es0[x].0,
                forall|x: int|
                    0 <= x < es0.len() ==> {
                        &&& (#[trigger] map_entries(maps@)[x]).1.wf()
                        &&& filter_models(map_entries(maps@)[x].1, ops_for(ops, es0[x].0))
                        &&& (x < k ==> map_entries(maps@)[x].1.built()
                            && map_entries(maps@)[x].1.patterns() == map_entries(maps@)[x].1.keys())
                        &&& (x >= k ==> map_entries(maps@)[x].1 == es0[x].1)
                    },
            decreases maps.len() - k,
        {
            let ghost before = map_entries(maps@);
            let (f, mut kf) = maps.remove(k);
            assert(before[k as int] == (f@, kf));
            assert(kf == es0[k as int].1);
            kf.build();
            maps.insert(k, (f, kf));
            proof {
                assert(kf.keys() == es0[k as int].1.keys());
                assert(kf.patterns() =~= Seq::<Seq<char>>::empty() + es0[k as int].1.keys());
                assert forall|x: int| 0 <= x < es0.len() implies (#[trigger] map_entries(maps@)[x]).0
                    == es0[x].0 && map_entries(maps@)[x].1 == (if x == k {
                    kf
                } else {
                    before[x].1
                }) by {
                    if x < k {
                        assert(map_entries(maps@)[x] == before[x]);
                    } else if x > k {
                        assert(map_entries(maps@)[x] == before[x]);
                    }
                }
                assert forall|kk: Seq<char>| #[trigger] kf.keywords_of(kk) == op_lookup(
                    ops_for(ops, es0[k as int].0),
                    kk,
                ) by {
                    assert(kf.keywords_of(kk) == es0[k as int].1.keywords_of(kk));
                }
            }
            k = k + 1;
        }
        let r = Prefilter { maps };
        proof {
            let es = r.entries();
            assert(assoc_keys(es) =~= assoc_keys(es0));
            assert forall|f: Seq<char>| #[trigger] r.filter_of(f) is Some <==> r.fields().contains(f) by {
                if r.fields().contains(f) {
                    let x = choose|x: int| 0 <= x < es.len() && #[trigger] assoc_keys(es)[x] == f;
                    lemma_assoc_found(es, x);
                } else {
                    lemma_assoc_absent(es, f);
                }
            }
            assert forall|f: Seq<char>|
                #[trigger] r.filter_of(f) is Some implies {
                    let kf = r.filter_of(f).unwrap();
                    &&& filter_models(kf, ops_for(ops, f))
                    &&& kf.built()
                    &&& kf.patterns() == kf.keys()
                } by {
                if r.fields().contains(f) {
                    let x = choose|x: int| 0 <= x < es.len() && #[trigger] assoc_keys(es)[x] == f;
                    lemma_assoc_found(es, x);
                } else {
                    lemma_assoc_absent(es, f);
                }
            }
            assert forall|i: int, j: int, t: int|
                #![trigger call_registered(r, rv[i].0, rv[i].1[j], t)]
                0 <= i < rules@.len() && 0 <= j < rv[i].1.len() && is_prefilter_call(rv[i].1[j]) && 0 <= t
                    < split_on(rv[i].1[j].args[1].value, '|').len() implies call_registered(
                r,
                rv[i].0,
                rv[i].1[j],
                t,
            ) by {
                law_every_call_registered(rv, i, j, t);
                let field = split_on(rv[i].1[j].args[1].value, '|')[t];
                assert(r.filter_of(field) is Some);
            }
        }
        r
    }

    /// Runs the content of each field (field, content) through the filter of the
    /// field, in order; a field without a filter adds nothing.
    pub fn exec(&self, feilds: &Vec<(String, String)>, mctx: &mut MatchResult)
        requires
            self.wf(),
            old(mctx).wf(),
            forall|i: int|
                0 <= i < feilds@.len() ==> (#[trigger] feilds@[i]).1@.len() > 0 || match self.filter_of(
                    feilds@[i].0@,
                ) {
                    Some(kf) => !kf.has_empty_right_keyword(),
                    None => true,
                },
        ensures
            final(mctx).wf(),
            final(mctx).must_match() == old(mctx).must_match(),
            final(mctx).hits() == old(mctx).hits() + self.exec_hits(
                feilds@.map_values(|p: (String, String)| (p.0@, p.1@)),
            ),
    {
        let ghost fs = feilds@.map_values(|p: (String, String)| (p.0@, p.1@));
        let mut i: usize = 0;
        assert(fs.take(0) =~= Seq::<(Seq<char>, Seq<char>)>::empty());
        while i < feilds.len()
            invariant
                self.wf(),
                i <= feilds.len(),
                fs == feilds@.map_values(|p: (String, String)| (p.0@, p.1@)),
                mctx.wf(),
                mctx.must_match() == old(mctx).must_match(),
                mctx.hits() == old(mctx).hits() + self.exec_hits(fs.take(i as int)),
                forall|x: int|
                    0 <= x < feilds@.len() ==> (#[trigger] feilds@[x]).1@.len() > 0 || match self.filter_of(
                        feilds@[x].0@,
                    ) {
                        Some(kf) => !kf.has_empty_right_keyword(),
                        None => true,
                    },
            decreases feilds.len() - i,
        {
            let feild = &feilds[i].0;
            let content = &feilds[i].1;
            assert(fs.take(i + 1).drop_last() == fs.take(i as int));
            assert(fs.take(i + 1).last() == (feild@, content@));
            let ghost before = mctx.hits();
            match field_index(&self.maps, feild) {
                Some(j) => {
                    proof {
                        lemma_assoc_found(self.entries(), j as int);
                        assert(self.entries()[j as int].0 == feild@);
                    }
                    self.maps[j].1.find_all(mctx, content, feild);
                },
                None => {
                    proof {
                        lemma_assoc_absent(self.entries(), feild@);
                    }
                    assert(before + Seq::<HitView>::empty() == before);
                },
            }
            i = i + 1;
        }
        assert(fs.take(i as int) == fs);
    }

    /// Gives the prefilter up.
    pub fn destroy(self) {
    }
}


/// The key that names keyword `key_id` in field `feild` in a keyword string:
/// `"|{key_id}:{feild}|"`.
pub open spec fn prefilter_key(feild: Seq<char>, key_id: Seq<char>) -> Seq<char> {
    seq!['|'] + key_id + seq![':'] + feild + seq!['|']
}

/// Whether the keyword string `kw` names keyword `key_id` in field `feild`:
/// what a rule's `prefilter(kw, feild, key_id, ..)` call decides.
pub fn prefilter_function(kw: &str, feild: &str, key_id: &str) -> (r: bool)
    ensures
        r == contains_seq(kw@, prefilter_key(feild@, key_id@)),
{
    let mut key = String::new();
    push_char(&mut key, '|');
    key.append(key_id);
    push_char(&mut key, ':');
    key.append(feild);
    push_char(&mut key, '|');
    assert(key@ == prefilter_key(feild@, key_id@));
    let k = chars_of(kw);
    let p = chars_of(key.as_str());
    contains_chars(&k, &p)
}


/// Every string in `keys` ends with `|`.
pub open spec fn all_end_with_bar(keys: Seq<Seq<char>>) -> bool {
    forall|i: int| 0 <= i < keys.len() ==> (#[trigger] keys[i]).len() > 0 && keys[i].last() == '|'
}

proof fn lemma_concat_last(keys: Seq<Seq<char>>)
    requires
        all_end_with_bar(keys),
        keys.len() > 0,
    ensures
        concat(keys).len() > 0,
        concat(keys).last() == '|',
{
    assert(keys[keys.len() - 1].len() > 0);
    assert(concat(keys) == concat(keys.drop_last()) + keys.last());
}

pub proof fn lemma_key_found(keys: Seq<Seq<char>>, j: int)
    requires
        all_end_with_bar(keys),
        0 <= j < keys.len(),
    ensures
        contains_seq(seq!['|'] + concat(keys), seq!['|'] + keys[j]),
    decreases keys.len(),
{
    let prev = keys.drop_last();
    let p = seq!['|'] + concat(prev);
    assert(seq!['|'] + concat(keys) == p + keys.last());
    assert(all_end_with_bar(prev)) by {
        assert forall|i: int| 0 <= i < prev.len() implies (#[trigger] prev[i]).len() > 0 && prev[i].last()
            == '|' by {
            assert(prev[i] == keys[i]);
        }
    }
    if j == keys.len() - 1 {
        if prev.len() > 0 {
            lemma_concat_last(prev);
        } else {
            assert(concat(prev) == Seq::<char>::empty());
        }
        assert(p.last() == '|');
        let at = p.len() - 1;
        assert((p + keys.last()).subrange(at, at + 1 + keys[j].len()) =~= seq!['|'] + keys[j]);
        assert(occurs_at(p + keys.last(), seq!['|'] + keys[j], at));
    } else {
        lemma_key_found(prev, j);
        assert(prev[j] == keys[j]);
        let at = choose|at: int| occurs_at(p, seq!['|'] + keys[j], at);
        let w = seq!['|'] + keys[j];
        assert((p + keys.last()).subrange(at, at + w.len()) =~= p.subrange(at, at + w.len()));
        assert(occurs_at(p + keys.last(), w, at));
    }
}

/// Once `get_hit_keyword` has appended the key strings to `"|"`, as the
/// keyword field of a request is made, `prefilter_function` finds every
/// recorded hit by its field and the decimal form of its keyword identifier.
pub proof fn law_recorded_hit_found(m: MatchResult, i: int)
    requires
        m.wf(),
        0 <= i < m.hits().len(),
    ensures
        contains_seq(
            seq!['|'] + concat(m.keys()),
            prefilter_key(m.hits()[i].feild, int_decimal(m.hits()[i].id as int)),
        ),
{
    let h = m.hits()[i];
    let k = hit_key(h.id, h.feild);
    assert(m.hit_keys()[i] == k);
    assert(m.hit_keys().to_set().contains(k));
    assert(m.keys().to_set().contains(k));
    let j = choose|j: int| 0 <= j < m.keys().len() && m.keys()[j] == k;
    assert(all_end_with_bar(m.keys())) by {
        assert forall|x: int| 0 <= x < m.keys().len() implies (#[trigger] m.keys()[x]).len() > 0
            && m.keys()[x].last() == '|' by {
            assert(m.keys().to_set().contains(m.keys()[x]));
            assert(m.hit_keys().to_set().contains(m.keys()[x]));
            let y = choose|y: int| 0 <= y < m.hit_keys().len() && m.hit_keys()[y] == m.keys()[x];
            let hy = m.hits()[y];
            assert(m.hit_keys()[y] == hit_key(hy.id, hy.feild));
        }
    }
    lemma_key_found(m.keys(), j);
    assert(prefilter_key(h.feild, int_decimal(h.id as int)) =~= seq!['|'] + k);
}

/// `s` ends with `|` and holds no other `|`.
pub open spec fn bar_token(s: Seq<char>) -> bool {
    &&& s.len() > 0
    &&& s.last() == '|'
    &&& forall|i: int| 0 <= i < s.len() - 1 ==> #[trigger] s[i] != '|'
}

/// `s` holds no `|`.
pub open spec fn no_bar(s: Seq<char>) -> bool {
    forall|i: int| 0 <= i < s.len() ==> #[trigger] s[i] != '|'
}

/// In `"|"` followed by tokens that each end with their only `|`, a token
/// written after a `|` occurs only where it is one of the tokens.
pub proof fn lemma_token_occurs(keys: Seq<Seq<char>>, t: Seq<char>)
    requires
        forall|j: int| 0 <= j < keys.len() ==> bar_token(#[trigger] keys[j]),
        bar_token(t),
        contains_seq(seq!['|'] + concat(keys), seq!['|'] + t),
    ensures
        keys.contains(t),
    decreases keys.len(),
{
    let w = seq!['|'] + t;
    let s = seq!['|'] + concat(keys);
    let p = choose|p: int| occurs_at(s, w, p);
    assert(occurs_at(s, w, p));
    assert(s.subrange(p, p + w.len())[0] == s[p]);
    if keys.len() == 0 {
        assert(s.len() == 1);
    } else {
        let prev = keys.drop_last();
        let l = keys.last();
        let ps = seq!['|'] + concat(prev);
        assert(s =~= ps + l);
        assert(forall|j: int| 0 <= j < prev.len() ==> bar_token(#[trigger] prev[j])) by {
            assert forall|j: int| 0 <= j < prev.len() implies bar_token(#[trigger] prev[j]) by {
                assert(prev[j] == keys[j]);
            }
        }
        assert(bar_token(keys[keys.len() - 1]));
        if p + w.len() <= ps.len() {
            assert(ps.subrange(p, p + w.len()) =~= s.subrange(p, p + w.len()));
            assert(occurs_at(ps, w, p));
            lemma_token_occurs(prev, t);
            let j = choose|j: int| 0 <= j < prev.len() && prev[j] == t;
            assert(keys[j] == t);
        } else {
            assert(ps.last() == '|') by {
                if prev.len() > 0 {
                    assert(all_end_with_bar(prev)) by {
                        assert forall|i: int| 0 <= i < prev.len() implies (#[trigger] prev[i]).len() > 0
                            && prev[i].last() == '|' by {
                            assert(bar_token(prev[i]));
                        }
                    }
                    lemma_concat_last(prev);
                    assert(ps.last() == concat(prev).last());
                } else {
                    assert(concat(prev) =~= Seq::<char>::empty());
                }
            }
            if p >= ps.len() {
                let q = p - ps.len();
                assert(s[p] == l[q]);
                assert(s[p] == '|');
                assert(false);
            }
            if p < ps.len() - 1 {
                let q = ps.len() - 1 - p;
                assert(s.subrange(p, p + w.len())[q] == s[ps.len() - 1]);
                assert(s[ps.len() - 1] == ps.last());
                assert(w[q] == t[q - 1]);
                assert(false);
            }
            assert(p == ps.len() - 1);
            assert(t.len() <= l.len());
            assert forall|i: int| 0 <= i < t.len() implies t[i] == l[i] by {
                assert(w[i + 1] == t[i]);
                assert(s.subrange(p, p + w.len())[i + 1] == s[ps.len() + i]);
                assert(s[ps.len() + i] == l[i]);
            }
            if t.len() < l.len() {
                assert(l[t.len() - 1] == t.last());
                assert(false);
            }
            assert(t =~= l);
            assert(keys[keys.len() - 1] == t);
        }
    }
}

/// A key string is written by exactly one identifier and field.
pub proof fn lemma_hit_key_injective(a: i64, f: Seq<char>, b: i64, g: Seq<char>)
    requires
        hit_key(a, f) == hit_key(b, g),
    ensures
        a == b,
        f == g,
{
    let d1 = int_decimal(a as int);
    let d2 = int_decimal(b as int);
    lemma_decimal_plain(a as int);
    lemma_decimal_plain(b as int);
    let k = hit_key(a, f);
    if d1.len() < d2.len() {
        assert(k[d1.len() as int] == ':');
        assert(hit_key(b, g)[d1.len() as int] == d2[d1.len() as int]);
        assert(is_ascii_digit(d2[d1.len() as int]) || d2[d1.len() as int] == '-');
        assert(false);
    }
    if d2.len() < d1.len() {
        assert(hit_key(b, g)[d2.len() as int] == ':');
        assert(k[d2.len() as int] == d1[d2.len() as int]);
        assert(is_ascii_digit(d1[d2.len() as int]) || d1[d2.len() as int] == '-');
        assert(false);
    }
    assert(d1 =~= k.take(d1.len() as int));
    assert(d2 =~= hit_key(b, g).take(d2.len() as int));
    law_decimal_roundtrip(a);
    law_decimal_roundtrip(b);
    assert(f =~= k.subrange(d1.len() as int + 1, k.len() - 1));
    assert(g =~= hit_key(b, g).subrange(d2.len() as int + 1, k.len() - 1));
}

/// The key string of a hit, whose field holds no `|`, ends with its only `|`.
pub proof fn lemma_hit_key_token(id: i64, f: Seq<char>)
    requires
        no_bar(f),
    ensures
        bar_token(hit_key(id, f)),
{
    let d = int_decimal(id as int);
    lemma_decimal_plain(id as int);
    let k = hit_key(id, f);
    assert forall|i: int| 0 <= i < k.len() - 1 implies #[trigger] k[i] != '|' by {
        if i < d.len() {
            assert(k[i] == d[i]);
            assert(is_ascii_digit(d[i]) || d[i] == '-');
        } else if i > d.len() {
            assert(k[i] == f[i - d.len() - 1]);
        }
    }
}

/// Where no recorded field holds `|`, the keyword string that
/// `get_hit_keyword` appends to `"|"` names, for a field without `|`, only
/// the identifiers and fields of recorded hits.
pub proof fn law_found_key_was_recorded(m: MatchResult, id: i64, f: Seq<char>)
    requires
        m.wf(),
        no_bar(f),
        forall|i: int| 0 <= i < m.hits().len() ==> no_bar(#[trigger] m.hits()[i].feild),
        contains_seq(seq!['|'] + concat(m.keys()), prefilter_key(f, int_decimal(id as int))),
    ensures
        exists|i: int| 0 <= i < m.hits().len() && (#[trigger] m.hits()[i]).id == id && m.hits()[i].feild == f,
{
    let t = hit_key(id, f);
    lemma_hit_key_token(id, f);
    assert(prefilter_key(f, int_decimal(id as int)) =~= seq!['|'] + t);
    assert forall|j: int| 0 <= j < m.keys().len() implies bar_token(#[trigger] m.keys()[j]) by {
        assert(m.keys().to_set().contains(m.keys()[j]));
        assert(m.hit_keys().to_set().contains(m.keys()[j]));
        let y = choose|y: int| 0 <= y < m.hit_keys().len() && m.hit_keys()[y] == m.keys()[j];
        let hy = m.hits()[y];
        assert(m.hit_keys()[y] == hit_key(hy.id, hy.feild));
        lemma_hit_key_token(hy.id, hy.feild);
    }
    lemma_token_occurs(m.keys(), t);
    assert(m.keys().to_set().contains(t));
    assert(m.hit_keys().to_set().contains(t));
    let y = choose|y: int| 0 <= y < m.hit_keys().len() && m.hit_keys()[y] == t;
    let hy = m.hits()[y];
    assert(m.hit_keys()[y] == hit_key(hy.id, hy.feild));
    lemma_hit_key_injective(hy.id, hy.feild, id, f);
}

/// Rules as the rule filter compiles them: identifier and filter expression.
pub open spec fn engine_rules(rs: Seq<crate::rule::Rule>) -> Seq<RuleSpec> {
    rs.map_values(
        |r: crate::rule::Rule| RuleSpec { id: r.id@, keyword: Seq::empty(), content: r.rule@ },
    )
}

/// The compiled rules, one per identifier.
pub struct RuleFilter<'s> {
    pub rules: Vec<RtRule<'s>>,
}

impl<'s> RuleFilter<'s> {
    /// The identifiers are distinct.
    pub open spec fn wf(&self) -> bool {
        rules_wf(self.rules@)
    }

    /// Compiles the filter expression of every rule against `scheme`, keeping,
    /// for an identifier that comes more than once, the place of its first
    /// rule and the filter of its last; gives nothing where a rule's
    /// expression does not parse. The expressions are compiled by the
    /// `wirefilter` engine, which has no function calls: an expression that
    /// calls `prefilter(...)` does not parse, so a set of rules holding one
    /// gives nothing. Such rules reach the prefilter through their parsed calls
    /// (`Prefilter::new`) instead.
    pub fn new(rules: &Vec<crate::rule::Rule>, scheme: &'s BytesScheme) -> (r: Option<RuleFilter<'s>>)
        ensures
            r is Some <==> all_parse(scheme.fields(), engine_rules(rules@)),
            r matches Some(rf) ==> {
                &&& rf.wf()
                &&& rt_ids(rf.rules@) == distinct_ids(engine_rules(rules@))
                &&& forall|j: int|
                    0 <= j < rf.rules@.len() ==> (#[trigger] rf.rules@[j]).filter.fields() == scheme.fields()
                        && rf.rules@[j].filter.source() == last_content(engine_rules(rules@), rf.rules@[j].rid@)
                        && rf.rules@[j].filter.scheme_of() == *scheme
            },
    {
        let mut conv: Vec<crate::filter::rule::Rule> = Vec::new();
        let mut i: usize = 0;
        while i < rules.len()
            invariant
                i <= rules.len(),
                rules_spec(conv@) == engine_rules(rules@).take(i as int),
            decreases rules.len() - i,
        {
            let c = crate::filter::rule::Rule {
                id: rules[i].id.clone(),
                keyword: Vec::new(),
                content: rules[i].rule.clone(),
            };
            assert(c.view_rule().keyword =~= Seq::<crate::filter::rule::KeywordSpec>::empty());
            let ghost before = rules_spec(conv@);
            conv.push(c);
            assert(rules_spec(conv@) =~= before.push(c.view_rule()));
            assert(engine_rules(rules@).take(i + 1) =~= engine_rules(rules@).take(i as int).push(c.view_rule()));
            i = i + 1;
        }
        assert(engine_rules(rules@).take(i as int) =~= engine_rules(rules@));
        match crate::filter::prefilter::RuleFilter::new(&conv, scheme) {
            Some(rf) => Some(RuleFilter { rules: rf.rules }),
            None => None,
        }
    }

    /// Gives each field of the scheme its value, and empty bytes to each field
    /// that gets none, then runs the filter of every rule that a hit of `mctx`
    /// or its must-match list names, each such rule once. (The engine would
    /// stop the program where evaluation reaches a field without a value; here
    /// such a field reads as empty bytes, and a filter that never reaches it
    /// answers as it would without it.)
    pub fn exec(&self, scheme: &'s BytesScheme, feilds: &'s Vec<(String, String)>, mctx: &MatchResult) -> (r: (
        Vec<FieldOutcome>,
        Vec<RuleOutcome>,
    ))
        requires
            self.wf(),
        ensures
            r.0@.map_values(|o: FieldOutcome| o.name@) == feilds@.map_values(|p: (String, String)| p.0@),
            forall|i: int|
                0 <= i < r.0@.len() ==> (#[trigger] r.0@[i]).accepted == scheme.fields().contains(
                    feilds@[i].0@,
                ),
            distinct(r.1@.map_values(|o: RuleOutcome| o.rid@)),
            r.1@.map_values(|o: RuleOutcome| o.rid@).to_set() == mctx.hit_rule_set(),
            forall|i: int|
                0 <= i < r.1@.len() ==> ((#[trigger] r.1@[i]).outcome == FilterOutcome::NotFound
                    <==> !rt_ids(self.rules@).contains(r.1@[i].rid@)),
            forall|i: int, j: int|
                0 <= i < r.1@.len() && 0 <= j < self.rules@.len() && #[trigger] self.rules@[j].rid@
                    == #[trigger] r.1@[i].rid@ ==> rule_outcome(
                    self.rules@[j],
                    *scheme,
                    run_values(scheme.fields(), feilds@.map_values(|p: (String, String)| (p.0@, p.1@))),
                    r.1@[i].outcome,
                ),
    {
        let mut hit_rules: Vec<String> = Vec::new();
        assert(views(hit_rules@) =~= Seq::<Seq<char>>::empty());
        mctx.get_hit_rules(&mut hit_rules);
        assert(Seq::<Seq<char>>::empty().to_set() =~= Set::<Seq<char>>::empty());
        assert(views(hit_rules@).to_set() =~= mctx.hit_rule_set());
        run_rules(&self.rules, scheme, feilds, &hit_rules)
    }
}

/// The hits of a run are those of each field in turn, whatever the other
/// fields: running `fs1` then `fs2` gives the hits of `fs1` and then those of
/// `fs2`.
pub proof fn law_exec_hits_fieldwise(p: Prefilter, fs1: Seq<(Seq<char>, Seq<char>)>, fs2: Seq<(Seq<char>, Seq<char>)>)
    ensures
        p.exec_hits(fs1 + fs2) == p.exec_hits(fs1) + p.exec_hits(fs2),
    decreases fs2.len(),
{
    if fs2.len() == 0 {
        assert(fs1 + fs2 =~= fs1);
        assert(p.exec_hits(fs2) =~= Seq::<HitView>::empty());
        assert(p.exec_hits(fs1) + p.exec_hits(fs2) =~= p.exec_hits(fs1));
    } else {
        law_exec_hits_fieldwise(p, fs1, fs2.drop_last());
        assert((fs1 + fs2).drop_last() =~= fs1 + fs2.drop_last());
        assert((fs1 + fs2).last() == fs2.last());
    }
}

/// One field: its content run through its filter, where it has one; a field
/// without a filter gives no hit.
pub proof fn law_exec_hits_one_field(p: Prefilter, f: Seq<char>, c: Seq<char>)
    ensures
        p.exec_hits(seq![(f, c)]) == match p.filter_of(f) {
            Some(kf) => kf.hits_for(c, f, ac_matches(kf.patterns(), true, c)),
            None => Seq::<HitView>::empty(),
        },
{
    let fs = seq![(f, c)];
    assert(fs.drop_last() =~= Seq::<(Seq<char>, Seq<char>)>::empty());
    assert(p.exec_hits(fs.drop_last()) =~= Seq::<HitView>::empty());
    assert(fs.last() == (f, c));
    let h = match p.filter_of(f) {
        Some(kf) => kf.hits_for(c, f, ac_matches(kf.patterns(), true, c)),
        None => Seq::<HitView>::empty(),
    };
    assert(Seq::<HitView>::empty() + h =~= h);
}

/// The keyword that call `f` of rule `rid` adds for its `t`-th target field.
pub open spec fn call_keyword(rid: Seq<char>, f: RuleFunctionView) -> KeywordView {
    KeywordView { id: parse_i64_spec(f.args[2].value).unwrap(), rid: rid, func: f.args[4].value }
}

/// The prefilter registers, for the `t`-th target field of call `f` of rule
/// `rid`, the call's keyword under the call's text.
pub open spec fn call_registered(p: Prefilter, rid: Seq<char>, f: RuleFunctionView, t: int) -> bool {
    match p.filter_of(split_on(f.args[1].value, '|')[t]) {
        Some(kf) => match kf.keywords_of(f.args[3].value) {
            Some(kws) => kws.contains(call_keyword(rid, f)),
            None => false,
        },
        None => false,
    }
}

/// Among the keywords `ops`, text `kword` has keyword `kv`.
pub open spec fn op_registers(ops: Seq<AddOp>, kword: Seq<char>, kv: KeywordView) -> bool {
    match op_lookup(ops, kword) {
        Some(kws) => kws.contains(kv),
        None => false,
    }
}

proof fn lemma_rule_ops_has(rid: Seq<char>, fs: Seq<RuleFunctionView>, j: int, x: AddOp)
    requires
        0 <= j < fs.len(),
        call_ops(rid, fs[j]).contains(x),
    ensures
        rule_ops(rid, fs).contains(x),
    decreases fs.len(),
{
    let pv = rule_ops(rid, fs.drop_last());
    let lst = call_ops(rid, fs.last());
    assert(rule_ops(rid, fs) == pv + lst);
    if j == fs.len() - 1 {
        let y = choose|y: int| 0 <= y < lst.len() && lst[y] == x;
        assert((pv + lst)[pv.len() + y] == x);
    } else {
        assert(fs.drop_last()[j] == fs[j]);
        lemma_rule_ops_has(rid, fs.drop_last(), j, x);
        let y = choose|y: int| 0 <= y < pv.len() && pv[y] == x;
        assert((pv + lst)[y] == x);
    }
}

proof fn lemma_all_ops_has(rules: Seq<(Seq<char>, Seq<RuleFunctionView>)>, i: int, x: AddOp)
    requires
        0 <= i < rules.len(),
        rule_ops(rules[i].0, rules[i].1).contains(x),
    ensures
        all_ops(rules).contains(x),
    decreases rules.len(),
{
    let pv = all_ops(rules.drop_last());
    let lst = rule_ops(rules.last().0, rules.last().1);
    assert(all_ops(rules) == pv + lst);
    if i == rules.len() - 1 {
        let y = choose|y: int| 0 <= y < lst.len() && lst[y] == x;
        assert((pv + lst)[pv.len() + y] == x);
    } else {
        assert(rules.drop_last()[i] == rules[i]);
        lemma_all_ops_has(rules.drop_last(), i, x);
        let y = choose|y: int| 0 <= y < pv.len() && pv[y] == x;
        assert((pv + lst)[y] == x);
    }
}

pub proof fn lemma_ops_for_has(ops: Seq<AddOp>, x: AddOp)
    requires
        ops.contains(x),
    ensures
        ops_for(ops, x.field).contains(x),
    decreases ops.len(),
{
    let pv = ops_for(ops.drop_last(), x.field);
    if ops.last() == x {
        assert(ops_for(ops, x.field) == pv.push(x));
        assert(pv.push(x)[pv.len() as int] == x);
    } else {
        let y = choose|y: int| 0 <= y < ops.len() && ops[y] == x;
        assert(y < ops.len() - 1);
        assert(ops.drop_last()[y] == x);
        lemma_ops_for_has(ops.drop_last(), x);
        let z = choose|z: int| 0 <= z < pv.len() && pv[z] == x;
        if ops.last().field == x.field {
            assert(pv.push(ops.last())[z] == x);
        }
    }
}

pub proof fn lemma_op_fields_has(ops: Seq<AddOp>, x: AddOp)
    requires
        ops.contains(x),
    ensures
        op_fields(ops).contains(x.field),
    decreases ops.len(),
{
    let pv = op_fields(ops.drop_last());
    if ops.last() == x {
        if !pv.contains(x.field) {
            assert(pv.push(x.field)[pv.len() as int] == x.field);
        }
    } else {
        let y = choose|y: int| 0 <= y < ops.len() && ops[y] == x;
        assert(ops.drop_last()[y] == x);
        lemma_op_fields_has(ops.drop_last(), x);
        let z = choose|z: int| 0 <= z < pv.len() && pv[z] == x.field;
        if !pv.contains(ops.last().field) {
            assert(pv.push(ops.last().field)[z] == x.field);
        }
    }
}

pub proof fn lemma_op_lookup_has(ops: Seq<AddOp>, x: AddOp)
    requires
        ops.contains(x),
    ensures
        op_registers(ops, x.kword, KeywordView { id: x.kid, rid: x.rid, func: x.func }),
    decreases ops.len(),
{
    let kv = KeywordView { id: x.kid, rid: x.rid, func: x.func };
    let pv = op_lookup(ops.drop_last(), x.kword);
    let base = match pv {
        Some(kws) => kws,
        None => Seq::<KeywordView>::empty(),
    };
    if ops.last() == x {
        assert(op_lookup(ops, x.kword) == Some(base.push(kv)));
        assert(base.push(kv)[base.len() as int] == kv);
    } else {
        let y = choose|y: int| 0 <= y < ops.len() && ops[y] == x;
        assert(ops.drop_last()[y] == x);
        lemma_op_lookup_has(ops.drop_last(), x);
        let kws = pv.unwrap();
        let z = choose|z: int| 0 <= z < kws.len() && kws[z] == kv;
        if ops.last().kword == x.kword {
            let o = ops.last();
            assert(op_lookup(ops, x.kword) == Some(kws.push(KeywordView { id: o.kid, rid: o.rid, func: o.func })));
            assert(kws.push(KeywordView { id: o.kid, rid: o.rid, func: o.func })[z] == kv);
        }
    }
}

/// Every prefilter call of every rule, whatever the rule's other calls and the
/// other rules, registers its keyword for each of its target fields: each such
/// field is among the fields with a filter, and among its keywords the call's
/// text holds the call's keyword (identifier, rule, check).
pub proof fn law_every_call_registered(rules: Seq<(Seq<char>, Seq<RuleFunctionView>)>, i: int, j: int, t: int)
    requires
        0 <= i < rules.len(),
        0 <= j < rules[i].1.len(),
        is_prefilter_call(rules[i].1[j]),
        0 <= t < split_on(rules[i].1[j].args[1].value, '|').len(),
    ensures
        op_fields(all_ops(rules)).contains(split_on(rules[i].1[j].args[1].value, '|')[t]),
        op_registers(
            ops_for(all_ops(rules), split_on(rules[i].1[j].args[1].value, '|')[t]),
            rules[i].1[j].args[3].value,
            call_keyword(rules[i].0, rules[i].1[j]),
        ),
{
    let rid = rules[i].0;
    let f = rules[i].1[j];
    let ops = call_ops(rid, f);
    let x = ops[t];
    assert(ops.contains(x));
    lemma_rule_ops_has(rid, rules[i].1, j, x);
    lemma_all_ops_has(rules, i, x);
    let all = all_ops(rules);
    lemma_op_fields_has(all, x);
    lemma_ops_for_has(all, x);
    lemma_op_lookup_has(ops_for(all, x.field), x);
}

/// Call `j` of rule `i` registers keyword `kv` under text `k` for its `t`-th
/// target field, which is `f`.
pub open spec fn call_gives(
    rules: Seq<(Seq<char>, Seq<RuleFunctionView>)>,
    i: int,
    j: int,
    t: int,
    f: Seq<char>,
    k: Seq<char>,
    kv: KeywordView,
) -> bool {
    &&& 0 <= i < rules.len()
    &&& 0 <= j < rules[i].1.len()
    &&& is_prefilter_call(rules[i].1[j])
    &&& 0 <= t < split_on(rules[i].1[j].args[1].value, '|').len()
    &&& split_on(rules[i].1[j].args[1].value, '|')[t] == f
    &&& rules[i].1[j].args[3].value == k
    &&& call_keyword(rules[i].0, rules[i].1[j]) == kv
}

/// The keyword an added keyword is registered as.
pub open spec fn op_view(o: AddOp) -> KeywordView {
    KeywordView { id: o.kid, rid: o.rid, func: o.func }
}

proof fn lemma_op_lookup_from(ops: Seq<AddOp>, k: Seq<char>, kv: KeywordView)
    requires
        op_registers(ops, k, kv),
    ensures
        exists|x: int|
            0 <= x < ops.len() && (#[trigger] ops[x]).kword == k && op_view(ops[x]) == kv,
    decreases ops.len(),
{
    let pv = op_lookup(ops.drop_last(), k);
    let o = ops.last();
    let last = ops.len() - 1;
    assert(ops[last] == o);
    if o.kword == k {
        let base = match pv {
            Some(kws) => kws,
            None => Seq::<KeywordView>::empty(),
        };
        let ov = KeywordView { id: o.kid, rid: o.rid, func: o.func };
        let kws = base.push(ov);
        let z = choose|z: int| 0 <= z < kws.len() && kws[z] == kv;
        if z < base.len() {
            assert(base[z] == kv);
            assert(op_registers(ops.drop_last(), k, kv));
            lemma_op_lookup_from(ops.drop_last(), k, kv);
            let x = choose|x: int|
                0 <= x < ops.drop_last().len() && (#[trigger] ops.drop_last()[x]).kword == k && op_view(ops.drop_last()[x]) == kv;
            assert(ops[x] == ops.drop_last()[x]);
        }
    } else {
        lemma_op_lookup_from(ops.drop_last(), k, kv);
        let x = choose|x: int|
            0 <= x < ops.drop_last().len() && (#[trigger] ops.drop_last()[x]).kword == k && op_view(ops.drop_last()[x]) == kv;
        assert(ops[x] == ops.drop_last()[x]);
    }
}

proof fn lemma_ops_for_from(ops: Seq<AddOp>, f: Seq<char>, x: AddOp)
    requires
        ops_for(ops, f).contains(x),
    ensures
        ops.contains(x),
        x.field == f,
    decreases ops.len(),
{
    let pv = ops_for(ops.drop_last(), f);
    let last = ops.len() - 1;
    if ops.last().field == f && ops.last() == x {
        assert(ops[last] == x);
    } else {
        if ops.last().field == f {
            let z = choose|z: int| 0 <= z < pv.push(ops.last()).len() && pv.push(ops.last())[z] == x;
            assert(z < pv.len());
            assert(pv[z] == x);
        }
        lemma_ops_for_from(ops.drop_last(), f, x);
        let y = choose|y: int| 0 <= y < ops.drop_last().len() && ops.drop_last()[y] == x;
        assert(ops[y] == x);
    }
}

proof fn lemma_all_ops_from(rules: Seq<(Seq<char>, Seq<RuleFunctionView>)>, x: AddOp)
    requires
        all_ops(rules).contains(x),
    ensures
        exists|i: int| 0 <= i < rules.len() && #[trigger] rule_ops(rules[i].0, rules[i].1).contains(x),
    decreases rules.len(),
{
    let pv = all_ops(rules.drop_last());
    let lst = rule_ops(rules.last().0, rules.last().1);
    let last = rules.len() - 1;
    assert(rules[last] == rules.last());
    let y = choose|y: int| 0 <= y < (pv + lst).len() && (pv + lst)[y] == x;
    if y < pv.len() {
        assert(pv[y] == x);
        lemma_all_ops_from(rules.drop_last(), x);
        let i = choose|i: int|
            0 <= i < rules.drop_last().len() && #[trigger] rule_ops(rules.drop_last()[i].0, rules.drop_last()[i].1).contains(
                x,
            );
        assert(rules[i] == rules.drop_last()[i]);
    } else {
        assert(lst[y - pv.len()] == x);
        assert(rule_ops(rules[last].0, rules[last].1).contains(x));
    }
}

proof fn lemma_rule_ops_from(rid: Seq<char>, fs: Seq<RuleFunctionView>, x: AddOp)
    requires
        rule_ops(rid, fs).contains(x),
    ensures
        exists|j: int| 0 <= j < fs.len() && #[trigger] call_ops(rid, fs[j]).contains(x),
    decreases fs.len(),
{
    let pv = rule_ops(rid, fs.drop_last());
    let lst = call_ops(rid, fs.last());
    let last = fs.len() - 1;
    assert(fs[last] == fs.last());
    let y = choose|y: int| 0 <= y < (pv + lst).len() && (pv + lst)[y] == x;
    if y < pv.len() {
        assert(pv[y] == x);
        lemma_rule_ops_from(rid, fs.drop_last(), x);
        let j = choose|j: int| 0 <= j < fs.drop_last().len() && #[trigger] call_ops(rid, fs.drop_last()[j]).contains(x);
        assert(fs[j] == fs.drop_last()[j]);
    } else {
        assert(lst[y - pv.len()] == x);
        assert(call_ops(rid, fs[last]).contains(x));
    }
}

/// The prefilter registers nothing the rules do not ask for: a keyword that
/// the keywords of field `f` hold under text `k` comes from a prefilter call
/// of some rule that names `f` among its targets, `k` as its text, and that
/// keyword's identifier, rule and check.
pub proof fn law_only_calls_registered(
    rules: Seq<(Seq<char>, Seq<RuleFunctionView>)>,
    f: Seq<char>,
    k: Seq<char>,
    kv: KeywordView,
)
    requires
        op_registers(ops_for(all_ops(rules), f), k, kv),
    ensures
        exists|i: int, j: int, t: int| #[trigger] call_gives(rules, i, j, t, f, k, kv),
{
    let all = all_ops(rules);
    let fo = ops_for(all, f);
    lemma_op_lookup_from(fo, k, kv);
    let x = choose|x: int|
        0 <= x < fo.len() && (#[trigger] fo[x]).kword == k && op_view(fo[x]) == kv;
    let o = fo[x];
    assert(fo.contains(o));
    lemma_ops_for_from(all, f, o);
    lemma_all_ops_from(rules, o);
    let i = choose|i: int| 0 <= i < rules.len() && #[trigger] rule_ops(rules[i].0, rules[i].1).contains(o);
    lemma_rule_ops_from(rules[i].0, rules[i].1, o);
    let j = choose|j: int| 0 <= j < rules[i].1.len() && #[trigger] call_ops(rules[i].0, rules[i].1[j]).contains(o);
    let co = call_ops(rules[i].0, rules[i].1[j]);
    let t = choose|t: int| 0 <= t < co.len() && co[t] == o;
    assert(is_prefilter_call(rules[i].1[j]));
    assert(call_gives(rules, i, j, t, f, k, kv));
}

} // verus!
