//! Keyword filters: keywords grouped by their text and searched for, case
//! sensitively, in a field's content with a multi-pattern automaton.
use vstd::prelude::*;
use crate::assoc::{assoc, assoc_keys, lemma_assoc_absent, lemma_assoc_found};
use crate::automaton::{
    ac_case_insensitive, ac_matches, ac_patterns, automaton_matches, build_automaton, valid_matches, Automaton,
};
use crate::filter::result::MatchResult;
use crate::keyword::KeywordView;
use crate::result::{distinct, views, HitView};

verus! {

/// A keyword of a rule: its identifier, the rule it belongs to, and the name
/// of the check that a hit of it must pass.
#[derive(PartialEq, Eq, Clone)]
pub struct Keyword {
    id: i64,
    rid: String,
    func: String,
}

impl Keyword {
    pub closed spec fn view_kw(&self) -> KeywordView {
        KeywordView { id: self.id, rid: self.rid@, func: self.func@ }
    }
}

/// The check a hit must pass; here every hit passes, whatever the check's name.
pub fn keyword_func_exec(func: &String, content: &String, start: usize, end: usize) -> (r: bool)
    ensures
        r,
{
    true
}

/// The hits that the keywords `kws` of pattern `pat` give in field `feild`:
/// one per keyword, in order.
pub open spec fn all_hits(kws: Seq<KeywordView>, pat: Seq<char>, feild: Seq<char>) -> Seq<HitView> {
    kws.map_values(|k: KeywordView| HitView { id: k.id, rid: k.rid, content: pat, feild: feild })
}

/// A set of keywords grouped by their text, with the automaton that searches for
/// them once it is built.
pub struct KeywordFilter {
    ac_filter: Option<Automaton>,
    keyword_vec: Vec<String>,
    keyword_map: Vec<(String, Vec<Keyword>)>,
}

impl KeywordFilter {
    /// The patterns of the automaton: the keyword texts taken at each build, in order.
    pub closed spec fn patterns(&self) -> Seq<Seq<char>> {
        views(self.keyword_vec@)
    }

    /// The keyword texts with their keywords, in the order the texts first came.
    pub closed spec fn entries(&self) -> Seq<(Seq<char>, Seq<KeywordView>)> {
        self.keyword_map@.map_values(
            |e: (String, Vec<Keyword>)| (e.0@, e.1@.map_values(|k: Keyword| k.view_kw())),
        )
    }

    /// The automaton has been built.
    pub closed spec fn built(&self) -> bool {
        self.ac_filter is Some
    }

    /// The keyword texts, in the order they first came.
    pub open spec fn keys(&self) -> Seq<Seq<char>> {
        assoc_keys(self.entries())
    }

    /// The keywords whose text is `key`, in the order they were added.
    pub open spec fn keywords_of(&self, key: Seq<char>) -> Option<Seq<KeywordView>> {
        assoc(self.entries(), key)
    }

    /// Each text has one entry, and a built automaton searches, case
    /// sensitively, for the patterns.
    pub closed spec fn wf(&self) -> bool {
        &&& distinct(self.keys())
        &&& (self.ac_filter matches Some(ac) ==> ac_patterns(ac) == self.patterns() && !ac_case_insensitive(ac))
    }

    /// The hits that a match (pattern, start, end) of the automaton gives.
    pub open spec fn hits_for_match(&self, feild: Seq<char>, m: (usize, usize, usize)) -> Seq<HitView> {
        let pat = self.patterns()[m.0 as int];
        match self.keywords_of(pat) {
            Some(kws) => all_hits(kws, pat, feild),
            None => Seq::<HitView>::empty(),
        }
    }

    /// The hits that a sequence of matches gives, match by match.
    pub open spec fn hits_for(&self, feild: Seq<char>, ms: Seq<(usize, usize, usize)>) -> Seq<HitView>
        decreases ms.len(),
    {
        if ms.len() == 0 {
            Seq::<HitView>::empty()
        } else {
            self.hits_for(feild, ms.drop_last()) + self.hits_for_match(feild, ms.last())
        }
    }

    pub fn new() -> (r: Self)
        ensures
            r.wf(),
            r.entries() == Seq::<(Seq<char>, Seq<KeywordView>)>::empty(),
            r.patterns() == Seq::<Seq<char>>::empty(),
            !r.built(),
    {
        let r = KeywordFilter { ac_filter: None, keyword_vec: Vec::new(), keyword_map: Vec::new() };
        assert(r.entries() =~= Seq::<(Seq<char>, Seq<KeywordView>)>::empty());
        assert(r.keys() =~= Seq::<Seq<char>>::empty());
        assert(r.patterns() =~= Seq::<Seq<char>>::empty());
        r
    }

    /// The index of the entry whose text is `key`, if there is one.
    fn find_entry(&self, key: &String) -> (r: Option<usize>)
        ensures
            match r {
                Some(j) => j < self.entries().len() && self.entries()[j as int].0 == key@,
                None => !self.keys().contains(key@),
            },
    {
        let mut j: usize = 0;
        while j < self.keyword_map.len()
            invariant
                j <= self.keyword_map.len(),
                forall|i: int| 0 <= i < j ==> self.keys()[i] != key@,
            decreases self.keyword_map.len() - j,
        {
            assert(self.keys()[j as int] == self.keyword_map@[j as int].0@);
            if self.keyword_map[j].0 == *key {
                return Some(j);
            }
            j = j + 1;
        }
        None
    }

    /// Adds keyword `kid` of rule `rid` with text `kword` and check `func`.
    pub fn add(&mut self, kid: i64, rid: String, kword: String, func: String)
        requires
            old(self).wf(),
        ensures
            final(self).wf(),
            final(self).patterns() == old(self).patterns(),
            final(self).built() == old(self).built(),
            final(self).keys() == (if old(self).keys().contains(kword@) {
                old(self).keys()
            } else {
                old(self).keys().push(kword@)
            }),
            forall|k: Seq<char>|
                #[trigger] final(self).keywords_of(k) == (if k == kword@ {
                    Some(
                        match old(self).keywords_of(k) {
                            Some(kws) => kws,
                            None => Seq::<KeywordView>::empty(),
                        }.push(KeywordView { id: kid, rid: rid@, func: func@ }),
                    )
                } else {
                    old(self).keywords_of(k)
                }),
    {
        let ghost old_es = self.entries();
        let ghost kv = KeywordView { id: kid, rid: rid@, func: func@ };
        let kw = Keyword { id: kid, rid: rid, func: func };
        assert(kw.view_kw() == kv);
        match self.find_entry(&kword) {
            Some(j) => {
                let mut e = self.keyword_map.remove(j);
                let ghost old_list = e.1@.map_values(|k: Keyword| k.view_kw());
                e.1.push(kw);
                assert(e.1@.map_values(|k: Keyword| k.view_kw()) =~= old_list.push(kv));
                self.keyword_map.insert(j, e);
                let ghost new_es = old_es.update(j as int, (kword@, old_list.push(kv)));
                assert(self.entries() =~= new_es);
                assert(self.keys() =~= assoc_keys(old_es));
                assert(assoc_keys(old_es)[j as int] == kword@);
                proof {
                    crate::assoc::lemma_assoc_update(old_es, j as int, old_list.push(kv));
                    lemma_assoc_found(old_es, j as int);
                }
            },
            None => {
                let list = vec![kw];
                assert(list@.map_values(|k: Keyword| k.view_kw()) =~= seq![kv]);
                self.keyword_map.push((kword, list));
                let ghost new_es = old_es.push((kword@, seq![kv]));
                assert(self.entries() =~= new_es);
                proof {
                    lemma_assoc_absent(old_es, kword@);
                    crate::assoc::lemma_assoc_push(old_es, kword@, seq![kv]);
                    assert(seq![kv] == Seq::<KeywordView>::empty().push(kv));
                }
            },
        }
    }

    /// Appends the keyword texts to the patterns and builds the automaton over
    /// all the patterns.
    pub fn build(&mut self)
        requires
            old(self).wf(),
        ensures
            final(self).wf(),
            final(self).built(),
            final(self).entries() == old(self).entries(),
            final(self).patterns() == old(self).patterns() + old(self).keys(),
    {
        let ghost start = self.patterns();
        let mut i: usize = 0;
        while i < self.keyword_map.len()
            invariant
                i <= self.keyword_map.len(),
                self.entries() == old(self).entries(),
                self.keyword_map == old(self).keyword_map,
                start == old(self).patterns(),
                self.patterns() == start + self.keys().take(i as int),
            decreases self.keyword_map.len() - i,
        {
            let k = self.keyword_map[i].0.clone();
            assert(self.keys()[i as int] == k@);
            let ghost old_pat = self.patterns();
            self.keyword_vec.push(k);
            assert(self.patterns() =~= old_pat.push(k@));
            assert(self.keys().take(i + 1) == self.keys().take(i as int).push(k@));
            assert(self.patterns() =~= start + self.keys().take(i + 1));
            i = i + 1;
        }
        assert(self.keys().take(i as int) == self.keys());
        self.ac_filter = Some(build_automaton(&self.keyword_vec, false));
    }

    /// Records, match by match, the hits that `matches` give in field `feild`.
    pub fn record_matches(
        &self,
        mctx: &mut MatchResult,
        content: &String,
        feild: &String,
        matches: &Vec<(usize, usize, usize)>,
    )
        requires
            self.wf(),
            forall|i: int| 0 <= i < matches@.len() ==> (#[trigger] matches@[i]).0 < self.patterns().len(),
        ensures
            final(mctx).hits() == old(mctx).hits() + self.hits_for(feild@, matches@),
    {
        let mut i: usize = 0;
        while i < matches.len()
            invariant
                self.wf(),
                i <= matches.len(),
                mctx.hits() == old(mctx).hits() + self.hits_for(feild@, matches@.take(i as int)),
                forall|j: int| 0 <= j < matches@.len() ==> (#[trigger] matches@[j]).0 < self.patterns().len(),
            decreases matches.len() - i,
        {
            let m = matches[i];
            assert(matches@.take(i + 1).drop_last() == matches@.take(i as int));
            let ghost before = mctx.hits();
            let pat = &self.keyword_vec[m.0];
            assert(self.patterns()[m.0 as int] == pat@);
            match self.find_entry(pat) {
                Some(j) => {
                    proof {
                        lemma_assoc_found(self.entries(), j as int);
                    }
                    let kws = &self.keyword_map[j].1;
                    let ghost kvs = self.entries()[j as int].1;
                    assert(kvs == kws@.map_values(|k: Keyword| k.view_kw()));
                    let mut t: usize = 0;
                    while t < kws.len()
                        invariant
                            t <= kws.len(),
                            kvs == kws@.map_values(|k: Keyword| k.view_kw()),
                            mctx.hits() == before + all_hits(kvs.take(t as int), pat@, feild@),
                        decreases kws.len() - t,
                    {
                        let kw = &kws[t];
                        assert(kvs[t as int] == kw.view_kw());
                        if keyword_func_exec(&kw.func, content, m.1, m.2) {
                            mctx.add_keyword(pat.clone(), kw.id, kw.rid.clone(), feild.clone());
                        }
                        assert(all_hits(kvs.take(t + 1), pat@, feild@) =~= all_hits(
                            kvs.take(t as int),
                            pat@,
                            feild@,
                        ).push(HitView { id: kw.id, rid: kw.rid@, content: pat@, feild: feild@ }));
                        t = t + 1;
                    }
                    assert(kvs.take(t as int) == kvs);
                },
                None => {
                    proof {
                        lemma_assoc_absent(self.entries(), pat@);
                    }
                    assert(before + Seq::<HitView>::empty() == before);
                },
            }
            i = i + 1;
        }
        assert(matches@.take(i as int) == matches@);
    }

    /// Searches `content`, the content of field `feild`, for the keywords and
    /// records each hit; before the automaton is built, it records nothing.
    pub fn find_all(&self, mctx: &mut MatchResult, content: &String, feild: &String)
        requires
            self.wf(),
        ensures
            final(mctx).hits() == old(mctx).hits() + (if self.built() {
                self.hits_for(feild@, ac_matches(self.patterns(), false, content@))
            } else {
                Seq::<HitView>::empty()
            }),
            self.built() ==> valid_matches(
                ac_matches(self.patterns(), false, content@),
                self.patterns(),
                false,
                content@,
            ),
    {
        match &self.ac_filter {
            Some(ac) => {
                let ms = automaton_matches(ac, content);
                self.record_matches(mctx, content, feild, &ms);
            },
            None => {
                assert(old(mctx).hits() + Seq::<HitView>::empty() == old(mctx).hits());
            },
        }
    }
}

impl Default for KeywordFilter {
    fn default() -> (r: Self)
        ensures
            r.wf(),
            r.entries() == Seq::<(Seq<char>, Seq<KeywordView>)>::empty(),
            r.patterns() == Seq::<Seq<char>>::empty(),
            !r.built(),
    {
        KeywordFilter::new()
    }
}

/// The hits of a sequence of matches are those of each match in turn: the
/// matches `ms1` then `ms2` give the hits of `ms1` and then those of `ms2`.
pub proof fn law_hits_for_matchwise(
    kf: KeywordFilter,
    feild: Seq<char>,
    ms1: Seq<(usize, usize, usize)>,
    ms2: Seq<(usize, usize, usize)>,
)
    ensures
        kf.hits_for(feild, ms1 + ms2) == kf.hits_for(feild, ms1) + kf.hits_for(feild, ms2),
    decreases ms2.len(),
{
    if ms2.len() == 0 {
        assert(ms1 + ms2 =~= ms1);
        assert(kf.hits_for(feild, ms1) + kf.hits_for(feild, ms2) =~= kf.hits_for(feild, ms1));
    } else {
        law_hits_for_matchwise(kf, feild, ms1, ms2.drop_last());
        assert((ms1 + ms2).drop_last() =~= ms1 + ms2.drop_last());
        assert((ms1 + ms2).last() == ms2.last());
    }
}

/// Every match is recorded: for each match of `ms` and each keyword of the
/// text it names, the hits hold that keyword's hit, whatever the other
/// matches.
pub proof fn law_every_match_recorded(kf: KeywordFilter, feild: Seq<char>, ms: Seq<(usize, usize, usize)>, i: int, q: int)
    requires
        0 <= i < ms.len(),
        kf.keywords_of(kf.patterns()[ms[i].0 as int]) matches Some(kws) && 0 <= q < kws.len(),
    ensures
        kf.hits_for(feild, ms).contains(
            HitView {
                id: kf.keywords_of(kf.patterns()[ms[i].0 as int]).unwrap()[q].id,
                rid: kf.keywords_of(kf.patterns()[ms[i].0 as int]).unwrap()[q].rid,
                content: kf.patterns()[ms[i].0 as int],
                feild: feild,
            },
        ),
{
    let m = ms[i];
    let pat = kf.patterns()[m.0 as int];
    let kws = kf.keywords_of(pat).unwrap();
    let h = HitView { id: kws[q].id, rid: kws[q].rid, content: pat, feild: feild };
    let a = ms.take(i);
    let b = seq![m];
    let c = ms.skip(i + 1);
    assert(ms =~= a + b + c);
    law_hits_for_matchwise(kf, feild, a + b, c);
    law_hits_for_matchwise(kf, feild, a, b);
    assert(b.drop_last() =~= Seq::<(usize, usize, usize)>::empty());
    assert(b.last() == m);
    let hb = kf.hits_for(feild, b);
    assert(kf.hits_for(feild, b.drop_last()) =~= Seq::<HitView>::empty());
    assert(hb =~= kf.hits_for_match(feild, m));
    assert(hb[q] == h);
    let ha = kf.hits_for(feild, a);
    let all = kf.hits_for(feild, ms);
    assert(all == ha + hb + kf.hits_for(feild, c));
    assert(all[ha.len() + q] == h);
}

} // verus!
