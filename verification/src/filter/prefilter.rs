//! The prefilter: one keyword filter per request field, filled from the
//! keywords of the rules, and run over each field's content.
use vstd::prelude::*;
use crate::assoc::{assoc, assoc_keys, lemma_assoc_absent, lemma_assoc_found, lemma_assoc_push, lemma_assoc_update};
use crate::automaton::ac_matches;
use crate::filter::keyword::KeywordFilter;
use crate::filter::result::MatchResult;
use crate::filter::rule::{Keyword, KeywordSpec, RtRule, Rule, RuleSpec};
use crate::filter::engine::{execute_filter, filter_matches, filter_parses, new_context, set_field_value, BytesScheme};
use crate::result::{insert_string, views};
use crate::keyword::KeywordView;
use crate::prefilter::{
    lemma_op_fields_has, lemma_op_lookup_has, lemma_ops_for_absent, lemma_ops_for_has, op_fields, op_keys, op_lookup,
    op_registers, ops_for, AddOp,
};
use crate::result::{distinct, HitView};

verus! {

pub open spec fn word_none() -> Seq<char> {
    seq!['n', 'o', 'n', 'e']
}

/// The keywords a keyword of rule `rid` adds: one for each of its target
/// fields, with its check, or `none` where it names no check.
pub open spec fn keyword_ops(rid: Seq<char>, k: KeywordSpec) -> Seq<AddOp> {
    k.target.map_values(
        |t: Seq<char>|
            AddOp {
                field: t,
                kid: k.id,
                rid: rid,
                kword: k.content,
                func: match k.after_check {
                    Some(f) => f,
                    None => word_none(),
                },
            },
    )
}

/// The keywords that the keywords `ks` of rule `rid` add, keyword by keyword.
pub open spec fn keywords_ops(rid: Seq<char>, ks: Seq<KeywordSpec>) -> Seq<AddOp>
    decreases ks.len(),
{
    if ks.len() == 0 {
        Seq::<AddOp>::empty()
    } else {
        keywords_ops(rid, ks.drop_last()) + keyword_ops(rid, ks.last())
    }
}

/// The keywords that the rules add, rule by rule.
pub open spec fn rules_ops(rs: Seq<RuleSpec>) -> Seq<AddOp>
    decreases rs.len(),
{
    if rs.len() == 0 {
        Seq::<AddOp>::empty()
    } else {
        rules_ops(rs.drop_last()) + keywords_ops(rs.last().id, rs.last().keyword)
    }
}

/// The patterns of the filter of field `f` after the rules `rs`: after each
/// rule, every filter takes its keyword texts as patterns once more.
pub open spec fn pattern_history(rs: Seq<RuleSpec>, f: Seq<char>) -> Seq<Seq<char>>
    decreases rs.len(),
{
    if rs.len() == 0 {
        Seq::<Seq<char>>::empty()
    } else {
        let ops = rules_ops(rs);
        pattern_history(rs.drop_last(), f) + (if op_fields(ops).contains(f) {
            op_keys(ops_for(ops, f))
        } else {
            Seq::<Seq<char>>::empty()
        })
    }
}

/// `kf` holds exactly the keywords `ops`, grouped by text.
pub open spec fn filter_models(kf: KeywordFilter, ops: Seq<AddOp>) -> bool {
    &&& kf.keys() == op_keys(ops)
    &&& forall|k: Seq<char>| #[trigger] kf.keywords_of(k) == op_lookup(ops, k)
}

pub open spec fn rules_spec(rs: Seq<Rule>) -> Seq<RuleSpec> {
    rs.map_values(|r: Rule| r.view_rule())
}

proof fn lemma_fields_mono(a: Seq<AddOp>, b: Seq<AddOp>, f: Seq<char>)
    requires
        op_fields(a).contains(f),
    ensures
        op_fields(a + b).contains(f),
    decreases b.len(),
{
    if b.len() > 0 {
        assert((a + b).drop_last() == a + b.drop_last());
        lemma_fields_mono(a, b.drop_last(), f);
        let p = op_fields(a + b.drop_last());
        let i = choose|i: int| 0 <= i < p.len() && p[i] == f;
        if !p.contains((a + b).last().field) {
            assert(op_fields(a + b) == p.push((a + b).last().field));
        }
        assert(op_fields(a + b)[i] == f);
    } else {
        assert(a + b == a);
    }
}

proof fn lemma_history_empty(rs: Seq<RuleSpec>, f: Seq<char>)
    requires
        !op_fields(rules_ops(rs)).contains(f),
    ensures
        pattern_history(rs, f) == Seq::<Seq<char>>::empty(),
    decreases rs.len(),
{
    if rs.len() > 0 {
        let a = rules_ops(rs.drop_last());
        let b = keywords_ops(rs.last().id, rs.last().keyword);
        if op_fields(a).contains(f) {
            lemma_fields_mono(a, b, f);
        }
        lemma_history_empty(rs.drop_last(), f);
    }
}

/// The per-field filters while they are filled: one entry per field the
/// keywords so far are for, each holding exactly that field's keywords, with
/// the patterns that the builds after the rules `hist` gave it.
spec fn fill_state(es: Seq<(Seq<char>, KeywordFilter)>, done: Seq<AddOp>, hist: Seq<RuleSpec>) -> bool {
    &&& assoc_keys(es) == op_fields(done)
    &&& distinct(assoc_keys(es))
    &&& forall|i: int|
        0 <= i < es.len() ==> {
            &&& (#[trigger] es[i]).1.wf()
            &&& filter_models(es[i].1, ops_for(done, es[i].0))
            &&& es[i].1.patterns() == pattern_history(hist, es[i].0)
            &&& (es[i].1.built() <==> op_fields(rules_ops(hist)).contains(es[i].0))
        }
}

spec fn map_entries(maps: Seq<(String, KeywordFilter)>) -> Seq<(Seq<char>, KeywordFilter)> {
    maps.map_values(|e: (String, KeywordFilter)| (e.0@, e.1))
}

fn field_index(maps: &Vec<(String, KeywordFilter)>, field: &String) -> (r: Option<usize>)
    ensures
        match r {
            Some(j) => j < maps.len() && maps@[j as int].0@ == field@,
            None => !assoc_keys(map_entries(maps@)).contains(field@),
        },
{
    let ghost es = map_entries(maps@);
    let mut j: usize = 0;
    while j < maps.len()
        invariant
            j <= maps.len(),
            es == map_entries(maps@),
            forall|i: int| 0 <= i < j ==> assoc_keys(es)[i] != field@,
        decreases maps.len() - j,
    {
        assert(assoc_keys(es)[j as int] == maps@[j as int].0@);
        if maps[j].0 == *field {
            return Some(j);
        }
        j = j + 1;
    }
    None
}

/// Adds keyword `kid` of rule `rid`, with text `kword` and check `func`, to
/// the filter of `field`, making that filter if there is none.
fn add_to_field(
    maps: &mut Vec<(String, KeywordFilter)>,
    field: String,
    kid: i64,
    rid: String,
    kword: String,
    func: String,
    Ghost(done): Ghost<Seq<AddOp>>,
    Ghost(hist): Ghost<Seq<RuleSpec>>,
)
    requires
        fill_state(map_entries(old(maps)@), done, hist),
        rules_ops(hist).len() <= done.len(),
        done.take(rules_ops(hist).len() as int) == rules_ops(hist),
    ensures
        fill_state(
            map_entries(final(maps)@),
            done.push(AddOp { field: field@, kid, rid: rid@, kword: kword@, func: func@ }),
            hist,
        ),
{
    let ghost o = AddOp { field: field@, kid, rid: rid@, kword: kword@, func: func@ };
    let ghost es = map_entries(maps@);
    let ghost nd = done.push(o);
    assert(nd.drop_last() == done);
    let idx = field_index(maps, &field);
    if idx.is_some() {
        let j = idx.unwrap();
        let (f, mut kf) = maps.remove(j);
        let ghost kf0 = kf;
        assert(es[j as int] == (f@, kf0));
        assert(assoc_keys(es)[j as int] == field@);
        kf.add(kid, rid, kword, func);
        maps.insert(j, (f, kf));
        let ghost nes = es.update(j as int, (es[j as int].0, kf));
        assert(map_entries(maps@) =~= nes);
        proof {
            lemma_assoc_update(es, j as int, kf);
            assert(op_fields(done).contains(field@)) by {
                assert(assoc_keys(es)[j as int] == field@);
            }
            assert(op_fields(nd) == op_fields(done));
            assert forall|i: int| 0 <= i < nes.len() implies {
                &&& (#[trigger] nes[i]).1.wf()
                &&& filter_models(nes[i].1, ops_for(nd, nes[i].0))
                &&& nes[i].1.patterns() == pattern_history(hist, nes[i].0)
                &&& (nes[i].1.built() <==> op_fields(rules_ops(hist)).contains(nes[i].0))
            } by {
                if i == j {
                    let x = ops_for(done, field@);
                    assert(ops_for(nd, field@) == x.push(o));
                    assert(x.push(o).drop_last() == x);
                    assert(filter_models(kf0, x));
                    assert forall|k: Seq<char>| #[trigger] kf.keywords_of(k) == op_lookup(x.push(o), k) by {
                        assert(kf0.keywords_of(k) == op_lookup(x, k));
                    }
                } else {
                    assert(nes[i] == es[i]);
                    assert(assoc_keys(es)[i] != assoc_keys(es)[j as int]);
                    assert(ops_for(nd, es[i].0) == ops_for(done, es[i].0));
                }
            }
        }
    } else {
        proof {
            lemma_ops_for_absent(done, field@);
            let a = rules_ops(hist);
            assert(a + done.skip(a.len() as int) == done);
            if op_fields(a).contains(field@) {
                lemma_fields_mono(a, done.skip(a.len() as int), field@);
            }
            lemma_history_empty(hist, field@);
        }
        let mut kf = KeywordFilter::new();
        let ghost kf0 = kf;
        proof {
            assert forall|k: Seq<char>| #[trigger] kf0.keywords_of(k) == op_lookup(Seq::<AddOp>::empty(), k) by {
                assert(kf0.entries() == Seq::<(Seq<char>, Seq<KeywordView>)>::empty());
            }
            assert(kf0.keys() =~= Seq::<Seq<char>>::empty());
            assert(op_keys(Seq::<AddOp>::empty()) == Seq::<Seq<char>>::empty());
        }
        let ghost fv = field@;
        kf.add(kid, rid, kword, func);
        maps.push((field, kf));
        let ghost nes = es.push((fv, kf));
        assert(map_entries(maps@) =~= nes);
        proof {
            lemma_assoc_push(es, fv, kf);
            assert(op_fields(nd) == op_fields(done).push(fv));
            let x = Seq::<AddOp>::empty();
            assert(ops_for(nd, fv) == x.push(o));
            assert(x.push(o).drop_last() == x);
            assert forall|i: int| 0 <= i < nes.len() implies {
                &&& (#[trigger] nes[i]).1.wf()
                &&& filter_models(nes[i].1, ops_for(nd, nes[i].0))
                &&& nes[i].1.patterns() == pattern_history(hist, nes[i].0)
                &&& (nes[i].1.built() <==> op_fields(rules_ops(hist)).contains(nes[i].0))
            } by {
                if i == es.len() {
                    assert(nes[i] == (fv, kf));
                    assert forall|k: Seq<char>| #[trigger] kf.keywords_of(k) == op_lookup(x.push(o), k) by {
                        assert(kf0.keywords_of(k) == op_lookup(x, k));
                    }
                    assert(kf.keys() == op_keys(x.push(o)));
                    assert(filter_models(kf, ops_for(nd, fv)));
                    assert(kf.patterns() == pattern_history(hist, fv));
                    assert(!kf.built());
                    assert(!op_fields(rules_ops(hist)).contains(fv));
                } else {
                    assert(nes[i] == es[i]);
                    assert(assoc_keys(es)[i] == es[i].0);
                    assert(ops_for(nd, es[i].0) == ops_for(done, es[i].0));
                }
            }
        }
    }
}


/// Builds every filter once more, after the keywords of the last rule of `hist`.
fn build_all(maps: &mut Vec<(String, KeywordFilter)>, Ghost(hist): Ghost<Seq<RuleSpec>>)
    requires
        hist.len() > 0,
        fill_state(map_entries(old(maps)@), rules_ops(hist), hist.drop_last()),
    ensures
        fill_state(map_entries(final(maps)@), rules_ops(hist), hist),
{
    let ghost done = rules_ops(hist);
    let ghost prev = hist.drop_last();
    let ghost es0 = map_entries(maps@);
    let mut k: usize = 0;
    while k < maps.len()
        invariant
            k <= maps.len(),
            hist.len() > 0,
            prev == hist.drop_last(),
            done == rules_ops(hist),
            fill_state(es0, done, prev),
            map_entries(maps@).len() == es0.len(),
            assoc_keys(map_entries(maps@)) == assoc_keys(es0),
            forall|x: int|
                0 <= x < es0.len() ==> (#[trigger] map_entries(maps@)[x]).0 == es0[x].0,
            forall|x: int|
                0 <= x < es0.len() ==> {
                    &&& (#[trigger] map_entries(maps@)[x]).1.wf()
                    &&& filter_models(map_entries(maps@)[x].1, ops_for(done, es0[x].0))
                    &&& (x < k ==> map_entries(maps@)[x].1.built() && map_entries(maps@)[x].1.patterns()
                        == pattern_history(hist, es0[x].0))
                    &&& (x >= k ==> map_entries(maps@)[x].1 == es0[x].1)
                },
        decreases maps.len() - k,
    {
        let ghost before = map_entries(maps@);
        let (f, mut kf) = maps.remove(k);
        assert(before[k as int] == (f@, kf));
        assert(kf == es0[k as int].1);
        kf.build();
        maps.insert(k, (f, kf));
        proof {
            let fk = es0[k as int].0;
            assert(assoc_keys(es0)[k as int] == fk);
            assert(op_fields(done).contains(fk));
            assert(pattern_history(hist, fk) == pattern_history(prev, fk) + op_keys(ops_for(done, fk)));
            assert(kf.keys() == es0[k as int].1.keys());
            assert forall|x: int| 0 <= x < es0.len() implies (#[trigger] map_entries(maps@)[x]).0
                == es0[x].0 && map_entries(maps@)[x].1 == (if x == k {
                kf
            } else {
                before[x].1
            }) by {
                if x != k {
                    assert(map_entries(maps@)[x] == before[x]);
                }
            }
            assert(assoc_keys(map_entries(maps@)) =~= assoc_keys(es0));
            assert forall|kk: Seq<char>| #[trigger] kf.keywords_of(kk) == op_lookup(ops_for(done, fk), kk) by {
                assert(kf.keywords_of(kk) == es0[k as int].1.keywords_of(kk));
            }
        }
        k = k + 1;
    }
    proof {
        let es = map_entries(maps@);
        assert forall|i: int| 0 <= i < es.len() implies {
            &&& (#[trigger] es[i]).1.wf()
            &&& filter_models(es[i].1, ops_for(done, es[i].0))
            &&& es[i].1.patterns() == pattern_history(hist, es[i].0)
            &&& (es[i].1.built() <==> op_fields(rules_ops(hist)).contains(es[i].0))
        } by {
            assert(es[i].0 == es0[i].0);
            assert(assoc_keys(es0)[i] == es0[i].0);
        }
    }
}

/// A keyword filter per request field.
pub struct Prefilter {
    maps: Vec<(String, KeywordFilter)>,
}

impl Prefilter {
    /// The fields with their filters, in the order the fields first came.
    pub closed spec fn entries(&self) -> Seq<(Seq<char>, KeywordFilter)> {
        map_entries(self.maps@)
    }

    /// The fields that have a filter.
    pub open spec fn fields(&self) -> Seq<Seq<char>> {
        assoc_keys(self.entries())
    }

    /// The filter of field `f`, if it has one.
    pub open spec fn filter_of(&self, f: Seq<char>) -> Option<KeywordFilter> {
        assoc(self.entries(), f)
    }

    /// Each field has one filter, and every filter is built.
    pub closed spec fn wf(&self) -> bool {
        &&& distinct(self.fields())
        &&& forall|i: int|
            0 <= i < self.entries().len() ==> (#[trigger] self.entries()[i]).1.wf()
                && self.entries()[i].1.built()
    }

    /// The hits that running the field contents `fs` (field, content) through
    /// their filters gives, field by field.
    pub open spec fn exec_hits(&self, fs: Seq<(Seq<char>, Seq<char>)>) -> Seq<HitView>
        decreases fs.len(),
    {
        if fs.len() == 0 {
            Seq::<HitView>::empty()
        } else {
            self.exec_hits(fs.drop_last()) + match self.filter_of(fs.last().0) {
                Some(kf) => kf.hits_for(fs.last().0, ac_matches(kf.patterns(), false, fs.last().1)),
                None => Seq::<HitView>::empty(),
            }
        }
    }

    /// Builds the filters from the keywords of the rules: each keyword goes to
    /// the filter of each of its target fields, with its check (`none` where it
    /// names none); after each rule, every filter is built.
    pub fn new(rs: &Vec<Rule>) -> (r: Self)
        ensures
            r.wf(),
            r.fields() == op_fields(rules_ops(rules_spec(rs@))),
            forall|f: Seq<char>| #[trigger] r.filter_of(f) is Some <==> r.fields().contains(f),
            forall|f: Seq<char>|
                #[trigger] r.filter_of(f) is Some ==> {
                    let kf = r.filter_of(f).unwrap();
                    &&& filter_models(kf, ops_for(rules_ops(rules_spec(rs@)), f))
                    &&& kf.built()
                    &&& kf.patterns() == pattern_history(rules_spec(rs@), f)
                },
    {
        let ghost rv = rules_spec(rs@);
        let mut maps: Vec<(String, KeywordFilter)> = Vec::new();
        assert(map_entries(maps@) =~= Seq::<(Seq<char>, KeywordFilter)>::empty());
        assert(rv.take(0) =~= Seq::<RuleSpec>::empty());
        assert(rules_ops(rv.take(0)) == Seq::<AddOp>::empty());
        assert(assoc_keys(map_entries(maps@)) =~= Seq::<Seq<char>>::empty());
        assert(op_fields(Seq::<AddOp>::empty()) == Seq::<Seq<char>>::empty());
        proof {
            broadcast use vstd::string::group_string_axioms;
            reveal_strlit("none");
            assert("none"@ =~= word_none());
        }
        let mut i: usize = 0;
        while i < rs.len()
            invariant
                i <= rs.len(),
                rv == rules_spec(rs@),
                "none"@ == word_none(),
                fill_state(map_entries(maps@), rules_ops(rv.take(i as int)), rv.take(i as int)),
            decreases rs.len() - i,
        {
            let r = &rs[i];
            let ghost hist = rv.take(i as int);
            let ghost base = rules_ops(hist);
            let ghost ks = rv[i as int].keyword;
            assert(rv[i as int] == r.view_rule());
            assert(ks.take(0) =~= Seq::<KeywordSpec>::empty());
            assert(base + keywords_ops(r.id@, ks.take(0)) =~= base);
            let mut kk: usize = 0;
            while kk < r.keyword.len()
                invariant
                    i < rs.len(),
                    kk <= r.keyword.len(),
                    rv == rules_spec(rs@),
                    "none"@ == word_none(),
                    r == rs@[i as int],
                    ks == r.view_rule().keyword,
                    hist == rv.take(i as int),
                    base == rules_ops(hist),
                    fill_state(map_entries(maps@), base + keywords_ops(r.id@, ks.take(kk as int)), hist),
                decreases r.keyword.len() - kk,
            {
                let k = &r.keyword[kk];
                let ghost before = base + keywords_ops(r.id@, ks.take(kk as int));
                let ghost ops = keyword_ops(r.id@, k.view_keyword());
                assert(ks[kk as int] == k.view_keyword());
                assert(ks.take(kk + 1).drop_last() == ks.take(kk as int));
                assert(before + ops == base + keywords_ops(r.id@, ks.take(kk + 1)));
                let func = match &k.after_check {
                    Some(f) => f.clone(),
                    None => {
                        proof {
                            broadcast use vstd::string::group_string_axioms;
                        }
                        "none".to_string()
                    },
                };
                assert(func@ == (match k.view_keyword().after_check {
                    Some(f) => f,
                    None => word_none(),
                }));
                assert(before + ops.take(0) =~= before);
                let mut t: usize = 0;
                while t < k.target.len()
                    invariant
                        t <= k.target.len(),
                        ops == keyword_ops(r.id@, k.view_keyword()),
                        ops.len() == k.target.len(),
                        func@ == (match k.view_keyword().after_check {
                            Some(f) => f,
                            None => word_none(),
                        }),
                        hist == rv.take(i as int),
                        base == rules_ops(hist),
                        before.take(base.len() as int) == base,
                        base.len() <= before.len(),
                        fill_state(map_entries(maps@), before + ops.take(t as int), hist),
                    decreases k.target.len() - t,
                {
                    let ghost done = before + ops.take(t as int);
                    assert(done.take(base.len() as int) == base);
                    assert(k.view_keyword().target[t as int] == k.target@[t as int]@);
                    add_to_field(
                        &mut maps,
                        k.target[t].clone(),
                        k.id,
                        r.id.clone(),
                        k.content.clone(),
                        func.clone(),
                        Ghost(done),
                        Ghost(hist),
                    );
                    assert(ops.take(t + 1) == ops.take(t as int).push(ops[t as int]));
                    assert(done.push(ops[t as int]) == before + ops.take(t + 1));
                    t = t + 1;
                }
                assert(ops.take(t as int) == ops);
                assert((before + ops).take(base.len() as int) == base);
                kk = kk + 1;
            }
            assert(ks.take(kk as int) == ks);
            assert(rv.take(i + 1).drop_last() == hist);
            assert(rv.take(i + 1).last() == r.view_rule());
            build_all(&mut maps, Ghost(rv.take(i + 1)));
            i = i + 1;
        }
        assert(rv.take(i as int) == rv);
        let r = Prefilter { maps };
        proof {
            let es = r.entries();
            assert forall|f: Seq<char>| #[trigger] r.filter_of(f) is Some <==> r.fields().contains(f) by {
                if r.fields().contains(f) {
                    let x = choose|x: int| 0 <= x < es.len() && #[trigger] assoc_keys(es)[x] == f;
                    lemma_assoc_found(es, x);
                } else {
                    lemma_assoc_absent(es, f);
                }
            }
            assert forall|f: Seq<char>|
                #[trigger] r.filter_of(f) is Some implies {
                    let kf = r.filter_of(f).unwrap();
                    &&& filter_models(kf, ops_for(rules_ops(rv), f))
                    &&& kf.built()
                    &&& kf.patterns() == pattern_history(rv, f)
                } by {
                if r.fields().contains(f) {
                    let x = choose|x: int| 0 <= x < es.len() && #[trigger] assoc_keys(es)[x] == f;
                    lemma_assoc_found(es, x);
                    assert(op_fields(rules_ops(rv)).contains(f));
                } else {
                    lemma_assoc_absent(es, f);
                }
            }
            assert forall|x: int| 0 <= x < es.len() implies (#[trigger] es[x]).1.wf() && es[x].1.built() by {
                assert(assoc_keys(es)[x] == es[x].0);
            }
        }
        r
    }

    /// Gives the prefilter up.
    pub fn destroy(self) {
    }

    /// Runs the content of each field (field, content) through the filter of the
    /// field, in order; a field without a filter adds nothing.
    pub fn exec(self, feilds: &Vec<(String, String)>, mctx: &mut MatchResult)
        requires
            self.wf(),
        ensures
            final(mctx).hits() == old(mctx).hits() + self.exec_hits(
                feilds@.map_values(|p: (String, String)| (p.0@, p.1@)),
            ),
    {
        let ghost fs = feilds@.map_values(|p: (String, String)| (p.0@, p.1@));
        let mut i: usize = 0;
        assert(fs.take(0) =~= Seq::<(Seq<char>, Seq<char>)>::empty());
        while i < feilds.len()
            invariant
                self.wf(),
                i <= feilds.len(),
                fs == feilds@.map_values(|p: (String, String)| (p.0@, p.1@)),
                mctx.hits() == old(mctx).hits() + self.exec_hits(fs.take(i as int)),
            decreases feilds.len() - i,
        {
            let feild = &feilds[i].0;
            let content = &feilds[i].1;
            assert(fs.take(i + 1).drop_last() == fs.take(i as int));
            assert(fs.take(i + 1).last() == (feild@, content@));
            let ghost before = mctx.hits();
            match field_index(&self.maps, feild) {
                Some(j) => {
                    proof {
                        lemma_assoc_found(self.entries(), j as int);
                    }
                    self.maps[j].1.find_all(mctx, content, feild);
                },
                None => {
                    proof {
                        lemma_assoc_absent(self.entries(), feild@);
                    }
                    assert(before + Seq::<HitView>::empty() == before);
                },
            }
            i = i + 1;
        }
        assert(fs.take(i as int) == fs);
    }
}


/// The identifiers of the rules, each once, in the order they first come.
pub open spec fn distinct_ids(rs: Seq<RuleSpec>) -> Seq<Seq<char>>
    decreases rs.len(),
{
    if rs.len() == 0 {
        Seq::<Seq<char>>::empty()
    } else {
        let p = distinct_ids(rs.drop_last());
        if p.contains(rs.last().id) {
            p
        } else {
            p.push(rs.last().id)
        }
    }
}

/// The identifiers of compiled rules, in order.
pub open spec fn rt_ids<'s>(rules: Seq<RtRule<'s>>) -> Seq<Seq<char>> {
    rules.map_values(|r: RtRule<'s>| r.rid@)
}

/// What running a hit rule gave.
#[derive(Debug, PartialEq, Eq, Structural)]
pub enum FilterOutcome {
    /// No rule has the identifier.
    NotFound,
    /// The rule's filter ran and matched or not.
    Matched(bool),
    /// The rule's filter belongs to another scheme than the field values.
    SchemeMismatch,
}

pub struct RuleOutcome {
    pub rid: String,
    pub outcome: FilterOutcome,
}

/// Whether a field's value was taken: `false` where the scheme has no such field.
pub struct FieldOutcome {
    pub name: String,
    pub accepted: bool,
}

/// The compiled rules, one per identifier.
pub struct RuleFilter<'s> {
    pub rules: Vec<RtRule<'s>>,
}

/// Every rule's filter expression parses against a scheme of the fields `fields`.
pub open spec fn all_parse(fields: Seq<Seq<char>>, rs: Seq<RuleSpec>) -> bool {
    forall|i: int| 0 <= i < rs.len() ==> filter_parses(fields, #[trigger] rs[i].content)
}

/// The filter expression of the last rule in `rs` with identifier `id`.
pub open spec fn last_content(rs: Seq<RuleSpec>, id: Seq<char>) -> Seq<char>
    decreases rs.len(),
{
    if rs.len() == 0 {
        Seq::<char>::empty()
    } else if rs.last().id == id {
        rs.last().content
    } else {
        last_content(rs.drop_last(), id)
    }
}

/// The values that the field contents `fs` (field, content) give the fields of
/// a scheme with the fields `fields`: a later content of a field replaces an
/// earlier one, and a name the scheme lacks gives nothing.
pub open spec fn field_values(fields: Seq<Seq<char>>, fs: Seq<(Seq<char>, Seq<char>)>) -> Map<Seq<char>, Seq<char>>
    decreases fs.len(),
{
    if fs.len() == 0 {
        Map::<Seq<char>, Seq<char>>::empty()
    } else if fields.contains(fs.last().0) {
        field_values(fields, fs.drop_last()).insert(fs.last().0, fs.last().1)
    } else {
        field_values(fields, fs.drop_last())
    }
}

/// `values` completed for the fields `fields`: a field without a value gets
/// empty bytes.
pub open spec fn with_defaults(fields: Seq<Seq<char>>, values: Map<Seq<char>, Seq<char>>) -> Map<Seq<char>, Seq<char>> {
    Map::new(
        |n: Seq<char>| fields.contains(n) || values.dom().contains(n),
        |n: Seq<char>|
            if values.dom().contains(n) {
                values[n]
            } else {
                Seq::<char>::empty()
            },
    )
}

/// What running `rule` on the field values `values` in a context of `scheme`
/// gives: where it ran, what its expression gives on those values, and it
/// runs wherever its filter was compiled against `scheme`.
pub open spec fn rule_outcome<'s>(
    rule: RtRule<'s>,
    scheme: BytesScheme,
    values: Map<Seq<char>, Seq<char>>,
    o: FilterOutcome,
) -> bool {
    &&& o != FilterOutcome::NotFound
    &&& (o matches FilterOutcome::Matched(b) ==> b == filter_matches(
        rule.filter.fields(),
        rule.filter.source(),
        values,
    ))
    &&& (rule.filter.scheme_of() == scheme ==> o == FilterOutcome::Matched(
        filter_matches(rule.filter.fields(), rule.filter.source(), values),
    ))
}

impl<'s> RuleFilter<'s> {
    /// The identifiers are distinct.
    pub open spec fn wf(&self) -> bool {
        rules_wf(self.rules@)
    }
}

/// The index of the rule with identifier `id`, if there is one.
fn rule_index<'s>(rules: &Vec<RtRule<'s>>, id: &String) -> (r: Option<usize>)
    ensures
        match r {
            Some(j) => j < rules.len() && rules@[j as int].rid@ == id@,
            None => !rt_ids(rules@).contains(id@),
        },
{
    let mut j: usize = 0;
    while j < rules.len()
        invariant
            j <= rules.len(),
            forall|i: int| 0 <= i < j ==> rt_ids(rules@)[i] != id@,
        decreases rules.len() - j,
    {
        assert(rt_ids(rules@)[j as int] == rules@[j as int].rid@);
        if rules[j].rid == *id {
            return Some(j);
        }
        j = j + 1;
    }
    None
}

/// Whether `s` is among the strings of `v`.
fn contains_name(v: &Vec<String>, s: &String) -> (r: bool)
    ensures
        r == views(v@).contains(s@),
{
    let mut i: usize = 0;
    while i < v.len()
        invariant
            i <= v.len(),
            forall|k: int| 0 <= k < i ==> views(v@)[k] != s@,
        decreases v.len() - i,
    {
        assert(views(v@)[i as int] == v@[i as int]@);
        if v[i] == *s {
            return true;
        }
        i = i + 1;
    }
    false
}

/// Whether a rule with the identifier of `r` is there already; `rs` stays as it is.
pub fn add_rule<'s>(rs: &mut Vec<RtRule<'s>>, r: &Rule) -> (exists: bool)
    ensures
        *final(rs) == *old(rs),
        exists == rt_ids(old(rs)@).contains(r.id@),
{
    match rule_index(rs, &r.id) {
        Some(j) => {
            assert(rt_ids(rs@)[j as int] == r.id@);
            true
        },
        None => false,
    }
}

impl<'s> RuleFilter<'s> {
    /// Compiles every rule against `scheme`, keeping, for an identifier that
    /// comes more than once, the place of its first rule and the filter of its
    /// last; gives nothing where a rule's expression does not parse (the
    /// `wirefilter` engine has no function calls, so an expression that calls
    /// one does not parse).
    pub fn new(rules: &Vec<Rule>, scheme: &'s BytesScheme) -> (r: Option<RuleFilter<'s>>)
        ensures
            r is Some <==> all_parse(scheme.fields(), rules_spec(rules@)),
            r matches Some(rf) ==> {
                &&& rf.wf()
                &&& rt_ids(rf.rules@) == distinct_ids(rules_spec(rules@))
                &&& forall|j: int|
                    0 <= j < rf.rules@.len() ==> (#[trigger] rf.rules@[j]).filter.fields() == scheme.fields()
                        && rf.rules@[j].filter.source() == last_content(rules_spec(rules@), rf.rules@[j].rid@)
                        && rf.rules@[j].filter.scheme_of() == *scheme
            },
    {
        let ghost rv = rules_spec(rules@);
        let ghost fields = scheme.fields();
        let mut hmap: Vec<RtRule<'s>> = Vec::new();
        assert(rt_ids(hmap@) =~= Seq::<Seq<char>>::empty());
        assert(rv.take(0) =~= Seq::<RuleSpec>::empty());
        let mut i: usize = 0;
        while i < rules.len()
            invariant
                i <= rules.len(),
                rv == rules_spec(rules@),
                fields == scheme.fields(),
                all_parse(fields, rv.take(i as int)),
                rt_ids(hmap@) == distinct_ids(rv.take(i as int)),
                distinct(rt_ids(hmap@)),
                forall|j: int|
                    0 <= j < hmap@.len() ==> {
                        &&& (#[trigger] hmap@[j]).filter.fields() == fields
                        &&& hmap@[j].filter.scheme_of() == *scheme
                        &&& hmap@[j].filter.source() == last_content(rv.take(i as int), hmap@[j].rid@)
                    },
            decreases rules.len() - i,
        {
            let v = &rules[i];
            assert(rv[i as int] == v.view_rule());
            assert(rv.take(i + 1).drop_last() == rv.take(i as int));
            assert(rv.take(i + 1).last() == v.view_rule());
            let rt = match RtRule::new(v, scheme) {
                Some(x) => x,
                None => {
                    assert(!all_parse(fields, rv)) by {
                        assert(!filter_parses(fields, rv[i as int].content));
                    }
                    return None;
                },
            };
            let ghost before = rt_ids(hmap@);
            let ghost old_map = hmap@;
            match rule_index(&hmap, &v.id) {
                Some(j) => {
                    assert(before[j as int] == v.id@);
                    hmap.set(j, rt);
                    assert(rt_ids(hmap@) =~= before);
                    assert forall|k: int| 0 <= k < hmap@.len() implies {
                        &&& (#[trigger] hmap@[k]).filter.fields() == fields
                        &&& hmap@[k].filter.scheme_of() == *scheme
                        &&& hmap@[k].filter.source() == last_content(rv.take(i + 1), hmap@[k].rid@)
                    } by {
                        if k != j {
                            assert(hmap@[k] == old_map[k]);
                            assert(rt_ids(old_map)[k] == old_map[k].rid@);
                            assert(old_map[k].rid@ != v.id@);
                        }
                    }
                },
                None => {
                    hmap.push(rt);
                    assert(rt_ids(hmap@) =~= before.push(v.id@));
                    assert forall|k: int| 0 <= k < hmap@.len() implies {
                        &&& (#[trigger] hmap@[k]).filter.fields() == fields
                        &&& hmap@[k].filter.scheme_of() == *scheme
                        &&& hmap@[k].filter.source() == last_content(rv.take(i + 1), hmap@[k].rid@)
                    } by {
                        if k < old_map.len() {
                            assert(hmap@[k] == old_map[k]);
                            assert(rt_ids(old_map)[k] == old_map[k].rid@);
                            assert(old_map[k].rid@ != v.id@);
                        }
                    }
                },
            }
            assert(all_parse(fields, rv.take(i + 1))) by {
                assert forall|k: int| 0 <= k < rv.take(i + 1).len() implies filter_parses(
                    fields,
                    #[trigger] rv.take(i + 1)[k].content,
                ) by {
                    if k < i {
                        assert(rv.take(i + 1)[k] == rv.take(i as int)[k]);
                    }
                }
            }
            i = i + 1;
        }
        assert(rv.take(i as int) == rv);
        Some(RuleFilter { rules: hmap })
    }

    /// Gives each field of the scheme its value, and empty bytes to each field
    /// that gets none, then runs the filter of every rule that a hit of `mctx`
    /// names, each such rule once. (The engine would stop the program where
    /// evaluation reaches a field without a value; here such a field reads as
    /// empty bytes, and a filter that never reaches it answers as it would
    /// without it.)
    pub fn exec(self, scheme: &'s BytesScheme, feilds: &'s Vec<(String, String)>, mctx: MatchResult) -> (r: (
        Vec<FieldOutcome>,
        Vec<RuleOutcome>,
    ))
        requires
            self.wf(),
        ensures
            r.0@.map_values(|o: FieldOutcome| o.name@) == feilds@.map_values(|p: (String, String)| p.0@),
            forall|i: int|
                0 <= i < r.0@.len() ==> (#[trigger] r.0@[i]).accepted == scheme.fields().contains(
                    feilds@[i].0@,
                ),
            distinct(r.1@.map_values(|o: RuleOutcome| o.rid@)),
            r.1@.map_values(|o: RuleOutcome| o.rid@).to_set() == mctx.hits().map_values(
                |h: HitView| h.rid,
            ).to_set(),
            forall|i: int|
                0 <= i < r.1@.len() ==> ((#[trigger] r.1@[i]).outcome == FilterOutcome::NotFound
                    <==> !rt_ids(self.rules@).contains(r.1@[i].rid@)),
            forall|i: int, j: int|
                0 <= i < r.1@.len() && 0 <= j < self.rules@.len() && #[trigger] self.rules@[j].rid@
                    == #[trigger] r.1@[i].rid@ ==> rule_outcome(
                    self.rules@[j],
                    *scheme,
                    run_values(scheme.fields(), feilds@.map_values(|p: (String, String)| (p.0@, p.1@))),
                    r.1@[i].outcome,
                ),
    {
        let ghost hits = mctx.hits();
        let mut hit_rules: Vec<String> = Vec::new();
        assert(views(hit_rules@) =~= Seq::<Seq<char>>::empty());
        mctx.get_hit_rules(&mut hit_rules);
        assert(Seq::<Seq<char>>::empty().to_set() =~= Set::<Seq<char>>::empty());
        assert(views(hit_rules@).to_set() =~= hits.map_values(|h: HitView| h.rid).to_set());
        run_rules(&self.rules, scheme, feilds, &hit_rules)
    }
}

/// The identifiers are distinct.
pub open spec fn rules_wf<'s>(rules: Seq<RtRule<'s>>) -> bool {
    distinct(rt_ids(rules))
}

/// The values the rules run on: those that the field contents `fs` give the
/// fields of the scheme, and empty bytes for a field that gets none.
pub open spec fn run_values(fields: Seq<Seq<char>>, fs: Seq<(Seq<char>, Seq<char>)>) -> Map<Seq<char>, Seq<char>> {
    with_defaults(fields, field_values(fields, fs))
}

/// Gives each field of the scheme its value, and empty bytes to each field
/// that gets none, then runs, in order, the filter of each rule that
/// `hit_rules` names.
pub fn run_rules<'s>(
    rules: &Vec<RtRule<'s>>,
    scheme: &'s BytesScheme,
    feilds: &'s Vec<(String, String)>,
    hit_rules: &Vec<String>,
) -> (r: (Vec<FieldOutcome>, Vec<RuleOutcome>))
    requires
        rules_wf(rules@),
    ensures
        r.0@.map_values(|o: FieldOutcome| o.name@) == feilds@.map_values(|p: (String, String)| p.0@),
        forall|i: int|
            0 <= i < r.0@.len() ==> (#[trigger] r.0@[i]).accepted == scheme.fields().contains(feilds@[i].0@),
        r.1@.map_values(|o: RuleOutcome| o.rid@) == views(hit_rules@),
        forall|i: int|
            0 <= i < r.1@.len() ==> ((#[trigger] r.1@[i]).outcome == FilterOutcome::NotFound
                <==> !rt_ids(rules@).contains(r.1@[i].rid@)),
        forall|i: int, j: int|
            0 <= i < r.1@.len() && 0 <= j < rules@.len() && #[trigger] rules@[j].rid@ == #[trigger] r.1@[i].rid@
                ==> rule_outcome(
                rules@[j],
                *scheme,
                run_values(scheme.fields(), feilds@.map_values(|p: (String, String)| (p.0@, p.1@))),
                r.1@[i].outcome,
            ),
{
    let ghost fs = feilds@.map_values(|p: (String, String)| (p.0@, p.1@));
    let ghost fields = scheme.fields();
    let mut ctx = new_context(scheme);
    assert(ctx.values() =~= field_values(fields, fs.take(0)));
    let names = scheme.names();
    let mut given: Vec<String> = Vec::new();
    let mut fields_out: Vec<FieldOutcome> = Vec::new();
    let mut i: usize = 0;
    while i < feilds.len()
        invariant
            i <= feilds.len(),
            fs == feilds@.map_values(|p: (String, String)| (p.0@, p.1@)),
            fields == scheme.fields(),
            views(names@) == fields,
            ctx.fields() == fields,
            ctx.scheme_of() == *scheme,
            ctx.values() == field_values(fields, fs.take(i as int)),
            forall|n: Seq<char>| #[trigger] views(given@).contains(n) <==> ctx.values().dom().contains(n),
            fields_out@.len() == i,
            forall|k: int|
                0 <= k < i ==> (#[trigger] fields_out@[k]).name@ == feilds@[k].0@ && fields_out@[k].accepted
                    == fields.contains(feilds@[k].0@),
        decreases feilds.len() - i,
    {
        assert(fs.take(i + 1).drop_last() == fs.take(i as int));
        assert(fs.take(i + 1).last() == fs[i as int]);
        let accepted = contains_name(names, &feilds[i].0);
        if accepted {
            let _ = set_field_value(&mut ctx, feilds[i].0.as_str(), feilds[i].1.as_str());
            let ghost before = views(given@);
            given.push(feilds[i].0.clone());
            assert(views(given@) =~= before.push(feilds@[i as int].0@));
            proof {
                lemma_push_contains(before, feilds@[i as int].0@);
            }
        }
        fields_out.push(FieldOutcome { name: feilds[i].0.clone(), accepted });
        i = i + 1;
    }
    assert(fs.take(i as int) == fs);
    assert(fields_out@.map_values(|o: FieldOutcome| o.name@) =~= feilds@.map_values(|p: (String, String)| p.0@));
    let ghost given_vals = ctx.values();
    let mut j: usize = 0;
    while j < names.len()
        invariant
            j <= names.len(),
            views(names@) == fields,
            ctx.fields() == fields,
            ctx.scheme_of() == *scheme,
            ctx.values() == with_defaults(fields.take(j as int), given_vals),
            forall|n: Seq<char>| #[trigger] views(given@).contains(n) <==> ctx.values().dom().contains(n),
        decreases names.len() - j,
    {
        let ghost x = names@[j as int]@;
        assert(fields[j as int] == x);
        assert(fields.take(j + 1) =~= fields.take(j as int).push(x));
        let ghost prev = ctx.values();
        proof {
            lemma_defaults_step(fields.take(j as int), given_vals, x);
        }
        if !contains_name(&given, &names[j]) {
            proof {
                reveal_strlit("");
            }
            assert(""@ =~= Seq::<char>::empty());
            assert(!prev.dom().contains(x));
            let _ = set_field_value(&mut ctx, names[j].as_str(), "");
            assert(ctx.values() == prev.insert(x, Seq::<char>::empty()));
            let ghost before = views(given@);
            given.push(names[j].clone());
            assert(views(given@) =~= before.push(x));
            proof {
                lemma_push_contains(before, x);
            }
        } else {
            assert(prev.dom().contains(x));
        }
        assert(ctx.values() == with_defaults(fields.take(j + 1), given_vals));
        j = j + 1;
    }
    assert(fields.take(j as int) == fields);
    let ghost vals = ctx.values();
    assert(vals == run_values(fields, fs));
    let mut outcomes: Vec<RuleOutcome> = Vec::new();
    let mut k: usize = 0;
    while k < hit_rules.len()
        invariant
            k <= hit_rules.len(),
            rules_wf(rules@),
            vals == ctx.values(),
            ctx.fields() == fields,
            ctx.scheme_of() == *scheme,
            forall|n: Seq<char>| #[trigger] fields.contains(n) ==> vals.dom().contains(n),
            outcomes@.map_values(|o: RuleOutcome| o.rid@) == views(hit_rules@).take(k as int),
            forall|x: int|
                0 <= x < outcomes@.len() ==> ((#[trigger] outcomes@[x]).outcome == FilterOutcome::NotFound
                    <==> !rt_ids(rules@).contains(outcomes@[x].rid@)),
            forall|x: int, j: int|
                0 <= x < outcomes@.len() && 0 <= j < rules@.len() && #[trigger] rules@[j].rid@
                    == #[trigger] outcomes@[x].rid@ ==> rule_outcome(rules@[j], *scheme, vals, outcomes@[x].outcome),
        decreases hit_rules.len() - k,
    {
        let rid = &hit_rules[k];
        let outcome = match rule_index(&rules, rid) {
            Some(j) => {
                assert(rt_ids(rules@)[j as int] == rid@);
                let rule = &rules[j];
                let o = match execute_filter(&rule.filter, &ctx) {
                    Ok(b) => FilterOutcome::Matched(b),
                    Err(_) => FilterOutcome::SchemeMismatch,
                };
                proof {
                    assert forall|j2: int| 0 <= j2 < rules@.len() && #[trigger] rules@[j2].rid@ == rid@ implies j2
                        == j by {
                        if j2 != j {
                            assert(rt_ids(rules@)[j2] == rules@[j2].rid@);
                            if j2 < j {
                                assert(rt_ids(rules@)[j2] != rt_ids(rules@)[j as int]);
                            } else {
                                assert(rt_ids(rules@)[j as int] != rt_ids(rules@)[j2]);
                            }
                        }
                    }
                    assert(rule_outcome(rules@[j as int], *scheme, vals, o));
                }
                o
            },
            None => {
                assert forall|j2: int| 0 <= j2 < rules@.len() implies #[trigger] rules@[j2].rid@ != rid@ by {
                    assert(rt_ids(rules@)[j2] == rules@[j2].rid@);
                }
                FilterOutcome::NotFound
            },
        };
        let ghost before = outcomes@.map_values(|o: RuleOutcome| o.rid@);
        outcomes.push(RuleOutcome { rid: rid.clone(), outcome });
        assert(outcomes@.map_values(|o: RuleOutcome| o.rid@) =~= before.push(rid@));
        assert(views(hit_rules@).take(k + 1) =~= views(hit_rules@).take(k as int).push(rid@));
        k = k + 1;
    }
    assert(views(hit_rules@).take(k as int) == views(hit_rules@));
    (fields_out, outcomes)
}

/// A sequence with `x` pushed holds exactly what it held and `x`.
proof fn lemma_push_contains(s: Seq<Seq<char>>, x: Seq<char>)
    ensures
        forall|n: Seq<char>| #[trigger] s.push(x).contains(n) <==> (s.contains(n) || n == x),
{
    assert forall|n: Seq<char>| #[trigger] s.push(x).contains(n) <==> (s.contains(n) || n == x) by {
        if s.push(x).contains(n) {
            let y = choose|y: int| 0 <= y < s.push(x).len() && s.push(x)[y] == n;
            if y < s.len() {
                assert(s[y] == n);
            }
        }
        if s.contains(n) {
            let y = choose|y: int| 0 <= y < s.len() && s[y] == n;
            assert(s.push(x)[y] == n);
        }
        if n == x {
            assert(s.push(x)[s.len() as int] == n);
        }
    }
}

/// Completing for one more field `x` adds it with empty bytes where it has no value.
proof fn lemma_defaults_step(fs: Seq<Seq<char>>, values: Map<Seq<char>, Seq<char>>, x: Seq<char>)
    ensures
        with_defaults(fs.push(x), values) == if with_defaults(fs, values).dom().contains(x) {
            with_defaults(fs, values)
        } else {
            with_defaults(fs, values).insert(x, Seq::<char>::empty())
        },
{
    lemma_push_contains(fs, x);
    if with_defaults(fs, values).dom().contains(x) {
        assert(with_defaults(fs.push(x), values) =~= with_defaults(fs, values));
    } else {
        assert(with_defaults(fs.push(x), values) =~= with_defaults(fs, values).insert(x, Seq::<char>::empty()));
    }
}

/// The hits of a run are those of each field in turn, whatever the other
/// fields: running `fs1` then `fs2` gives the hits of `fs1` and then those of
/// `fs2`.
pub proof fn law_exec_hits_fieldwise(p: Prefilter, fs1: Seq<(Seq<char>, Seq<char>)>, fs2: Seq<(Seq<char>, Seq<char>)>)
    ensures
        p.exec_hits(fs1 + fs2) == p.exec_hits(fs1) + p.exec_hits(fs2),
    decreases fs2.len(),
{
    if fs2.len() == 0 {
        assert(fs1 + fs2 =~= fs1);
        assert(p.exec_hits(fs1) + p.exec_hits(fs2) =~= p.exec_hits(fs1));
    } else {
        law_exec_hits_fieldwise(p, fs1, fs2.drop_last());
        assert((fs1 + fs2).drop_last() =~= fs1 + fs2.drop_last());
        assert((fs1 + fs2).last() == fs2.last());
    }
}

/// One field: its content run through its filter, where it has one; a field
/// without a filter gives no hit.
pub proof fn law_exec_hits_one_field(p: Prefilter, f: Seq<char>, c: Seq<char>)
    ensures
        p.exec_hits(seq![(f, c)]) == match p.filter_of(f) {
            Some(kf) => kf.hits_for(f, ac_matches(kf.patterns(), false, c)),
            None => Seq::<HitView>::empty(),
        },
{
    let fs = seq![(f, c)];
    assert(fs.drop_last() =~= Seq::<(Seq<char>, Seq<char>)>::empty());
    assert(p.exec_hits(fs.drop_last()) =~= Seq::<HitView>::empty());
    assert(fs.last() == (f, c));
    let h = match p.filter_of(f) {
        Some(kf) => kf.hits_for(f, ac_matches(kf.patterns(), false, c)),
        None => Seq::<HitView>::empty(),
    };
    assert(Seq::<HitView>::empty() + h =~= h);
}

proof fn lemma_keywords_ops_has(rid: Seq<char>, ks: Seq<KeywordSpec>, k: int, x: AddOp)
    requires
        0 <= k < ks.len(),
        keyword_ops(rid, ks[k]).contains(x),
    ensures
        keywords_ops(rid, ks).contains(x),
    decreases ks.len(),
{
    let pv = keywords_ops(rid, ks.drop_last());
    let lst = keyword_ops(rid, ks.last());
    assert(keywords_ops(rid, ks) == pv + lst);
    if k == ks.len() - 1 {
        let y = choose|y: int| 0 <= y < lst.len() && lst[y] == x;
        assert((pv + lst)[pv.len() + y] == x);
    } else {
        assert(ks.drop_last()[k] == ks[k]);
        lemma_keywords_ops_has(rid, ks.drop_last(), k, x);
        let y = choose|y: int| 0 <= y < pv.len() && pv[y] == x;
        assert((pv + lst)[y] == x);
    }
}

proof fn lemma_rules_ops_has(rs: Seq<RuleSpec>, i: int, x: AddOp)
    requires
        0 <= i < rs.len(),
        keywords_ops(rs[i].id, rs[i].keyword).contains(x),
    ensures
        rules_ops(rs).contains(x),
    decreases rs.len(),
{
    let pv = rules_ops(rs.drop_last());
    let lst = keywords_ops(rs.last().id, rs.last().keyword);
    assert(rules_ops(rs) == pv + lst);
    if i == rs.len() - 1 {
        let y = choose|y: int| 0 <= y < lst.len() && lst[y] == x;
        assert((pv + lst)[pv.len() + y] == x);
    } else {
        assert(rs.drop_last()[i] == rs[i]);
        lemma_rules_ops_has(rs.drop_last(), i, x);
        let y = choose|y: int| 0 <= y < pv.len() && pv[y] == x;
        assert((pv + lst)[y] == x);
    }
}

/// The keyword a keyword `k` of rule `rid` is registered as: its identifier,
/// the rule, and its check (`none` where it names none).
pub open spec fn registered_keyword(rid: Seq<char>, k: KeywordSpec) -> KeywordView {
    KeywordView {
        id: k.id,
        rid: rid,
        func: match k.after_check {
            Some(f) => f,
            None => word_none(),
        },
    }
}

/// Every keyword of every rule, whatever the other keywords and rules, is
/// registered for each of its target fields: each target field is among the
/// fields with a filter, and among that field's keywords the keyword's text
/// holds it.
pub proof fn law_every_keyword_registered(rs: Seq<RuleSpec>, i: int, k: int, t: int)
    requires
        0 <= i < rs.len(),
        0 <= k < rs[i].keyword.len(),
        0 <= t < rs[i].keyword[k].target.len(),
    ensures
        op_fields(rules_ops(rs)).contains(rs[i].keyword[k].target[t]),
        op_registers(
            ops_for(rules_ops(rs), rs[i].keyword[k].target[t]),
            rs[i].keyword[k].content,
            registered_keyword(rs[i].id, rs[i].keyword[k]),
        ),
{
    let ops = keyword_ops(rs[i].id, rs[i].keyword[k]);
    let x = ops[t];
    assert(ops.contains(x));
    lemma_keywords_ops_has(rs[i].id, rs[i].keyword, k, x);
    lemma_rules_ops_has(rs, i, x);
    let all = rules_ops(rs);
    lemma_op_fields_has(all, x);
    lemma_ops_for_has(all, x);
    lemma_op_lookup_has(ops_for(all, x.field), x);
}

/// The filter kept for an identifier is that of the last rule with it.
pub proof fn law_last_rule_wins(rs: Seq<RuleSpec>, i: int)
    requires
        0 <= i < rs.len(),
        forall|j: int| i < j < rs.len() ==> (#[trigger] rs[j]).id != rs[i].id,
    ensures
        last_content(rs, rs[i].id) == rs[i].content,
    decreases rs.len(),
{
    if i < rs.len() - 1 {
        let last = rs.len() - 1;
        assert(rs[last] == rs.last());
        assert(rs.last().id != rs[i].id);
        assert forall|j: int| i < j < rs.drop_last().len() implies (#[trigger] rs.drop_last()[j]).id
            != rs.drop_last()[i].id by {
            assert(rs.drop_last()[j] == rs[j]);
        }
        assert(rs.drop_last()[i] == rs[i]);
        law_last_rule_wins(rs.drop_last(), i);
    }
}

/// The identifiers kept are those of the rules, each once.
pub proof fn law_distinct_ids(rs: Seq<RuleSpec>, id: Seq<char>)
    ensures
        distinct(distinct_ids(rs)),
        distinct_ids(rs).contains(id) <==> exists|i: int| 0 <= i < rs.len() && (#[trigger] rs[i]).id == id,
    decreases rs.len(),
{
    if rs.len() > 0 {
        let pv = distinct_ids(rs.drop_last());
        law_distinct_ids(rs.drop_last(), id);
        law_distinct_ids(rs.drop_last(), rs.last().id);
        let last = rs.len() - 1;
        assert(rs[last] == rs.last());
        if exists|i: int| 0 <= i < rs.len() && (#[trigger] rs[i]).id == id {
            let i = choose|i: int| 0 <= i < rs.len() && (#[trigger] rs[i]).id == id;
            if i < last {
                assert(rs.drop_last()[i] == rs[i]);
                let x = choose|x: int| 0 <= x < pv.len() && pv[x] == id;
                if !pv.contains(rs.last().id) {
                    assert(pv.push(rs.last().id)[x] == id);
                }
            } else if !pv.contains(rs.last().id) {
                assert(pv.push(rs.last().id)[pv.len() as int] == id);
            }
        }
        if distinct_ids(rs).contains(id) {
            let x = choose|x: int| 0 <= x < distinct_ids(rs).len() && distinct_ids(rs)[x] == id;
            if x < pv.len() {
                assert(pv[x] == id);
                let i = choose|i: int| 0 <= i < rs.drop_last().len() && (#[trigger] rs.drop_last()[i]).id == id;
                assert(rs[i] == rs.drop_last()[i]);
            }
        }
    }
}

} // verus!
