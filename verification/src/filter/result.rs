//! The hits of a keyword search, in the order they were found.
use vstd::prelude::*;
use crate::result::{concat, distinct, hit_key, insert_string, views, HitView};
use crate::prefilter::{
    all_end_with_bar, bar_token, lemma_hit_key_injective, lemma_hit_key_token, lemma_key_found, lemma_token_occurs,
    no_bar, prefilter_key,
};
use crate::text::{contains_seq, int_decimal, push_char, push_i64};

verus! {

#[derive(PartialEq, Eq, Clone)]
pub struct MatchKeyword {
    id: i64,
    rid: String,
    content: String,
    feild: String,
}

impl MatchKeyword {
    pub closed spec fn view_hit(&self) -> HitView {
        HitView { id: self.id, rid: self.rid@, content: self.content@, feild: self.feild@ }
    }

    pub fn get_id(self) -> (r: i64)
        ensures
            r == self.view_hit().id,
    {
        self.id
    }

    pub fn get_feild(self) -> (r: String)
        ensures
            r@ == self.view_hit().feild,
    {
        self.feild
    }
}

/// The outcome of a keyword search over the fields of one request.
pub struct MatchResult {
    keywords: Vec<MatchKeyword>,
}

impl MatchResult {
    /// The recorded hits, in the order they were added.
    pub closed spec fn hits(&self) -> Seq<HitView> {
        self.keywords@.map_values(|k: MatchKeyword| k.view_hit())
    }

    /// The key strings of the recorded hits, one per hit, in order.
    pub open spec fn hit_keys(&self) -> Seq<Seq<char>> {
        self.hits().map_values(|h: HitView| hit_key(h.id, h.feild))
    }

    pub fn new() -> (r: Self)
        ensures
            r.hits() == Seq::<HitView>::empty(),
    {
        let r = MatchResult { keywords: Vec::new() };
        assert(r.hits() =~= Seq::<HitView>::empty());
        r
    }

    /// Records a hit of keyword `id` of rule `rid`, found as `content` in field `feild`.
    pub fn add_keyword(&mut self, content: String, id: i64, rid: String, feild: String)
        ensures
            final(self).hits() == old(self).hits().push(
                HitView { id, rid: rid@, content: content@, feild: feild@ },
            ),
    {
        let ghost old_hits = self.hits();
        self.keywords.push(MatchKeyword { content: content, rid: rid, id: id, feild: feild });
        assert(self.hits() =~= old_hits.push(HitView { id, rid: rid@, content: content@, feild: feild@ }));
    }

    /// Appends the key string `"{id}:{feild}|"` of every hit to `ret_str`, in order.
    pub fn get_hit_keyword(&mut self, ret_str: &mut String)
        ensures
            *final(self) == *old(self),
            final(ret_str)@ == old(ret_str)@ + concat(old(self).hit_keys()),
    {
        let ghost start = ret_str@;
        let mut i: usize = 0;
        while i < self.keywords.len()
            invariant
                i <= self.keywords.len(),
                ret_str@ == start + concat(self.hit_keys().take(i as int)),
            decreases self.keywords.len() - i,
        {
            let k = &self.keywords[i];
            let ghost before = ret_str@;
            push_i64(ret_str, k.id);
            push_char(ret_str, ':');
            ret_str.append(k.feild.as_str());
            push_char(ret_str, '|');
            assert(self.hit_keys()[i as int] == hit_key(k.id, k.feild@));
            assert(ret_str@ == before + hit_key(k.id, k.feild@));
            assert(self.hit_keys().take(i + 1).drop_last() == self.hit_keys().take(i as int));
            i = i + 1;
        }
        assert(self.hit_keys().take(i as int) == self.hit_keys());
    }

    /// Adds to `rule`, each once, the rule of every recorded hit; what `rule`
    /// held before stays, in its place.
    pub fn get_hit_rules(self, rule: &mut Vec<String>)
        requires
            distinct(views(old(rule)@)),
        ensures
            distinct(views(final(rule)@)),
            views(final(rule)@).to_set() == views(old(rule)@).to_set() + self.hits().map_values(
                |h: HitView| h.rid,
            ).to_set(),
            views(old(rule)@).len() <= views(final(rule)@).len(),
            views(final(rule)@).take(views(old(rule)@).len() as int) == views(old(rule)@),
    {
        let ghost start = views(rule@);
        let ghost rids = self.hits().map_values(|h: HitView| h.rid);
        let mut i: usize = 0;
        assert(rids.take(0).to_set() =~= Set::<Seq<char>>::empty());
        assert(start.to_set() + rids.take(0).to_set() =~= start.to_set());
        while i < self.keywords.len()
            invariant
                i <= self.keywords.len(),
                rids == self.hits().map_values(|h: HitView| h.rid),
                rids.len() == self.keywords.len(),
                distinct(views(rule@)),
                start == views(old(rule)@),
                start.len() <= views(rule@).len(),
                views(rule@).take(start.len() as int) == start,
                views(rule@).to_set() == start.to_set() + rids.take(i as int).to_set(),
            decreases self.keywords.len() - i,
        {
            let ghost before = views(rule@);
            insert_string(rule, &self.keywords[i].rid);
            proof {
                assert(rids[i as int] == self.keywords@[i as int].rid@);
                crate::result::lemma_take_step_to_set(rids, i as int);
                crate::result::lemma_insert_to_set(before, rids[i as int]);
                assert(views(rule@).take(start.len() as int) =~= before.take(start.len() as int));
                assert(views(rule@).to_set() =~= start.to_set() + rids.take(i + 1).to_set());
            }
            i = i + 1;
        }
        assert(rids.take(i as int) == rids);
    }
}


/// Once `get_hit_keyword` has appended the key strings to `"|"`, a rule's
/// `prefilter` check finds every recorded hit by its field and the decimal
/// form of its keyword identifier.
pub proof fn law_recorded_hit_found(m: MatchResult, i: int)
    requires
        0 <= i < m.hits().len(),
    ensures
        contains_seq(
            seq!['|'] + concat(m.hit_keys()),
            prefilter_key(m.hits()[i].feild, int_decimal(m.hits()[i].id as int)),
        ),
{
    let h = m.hits()[i];
    assert(all_end_with_bar(m.hit_keys())) by {
        assert forall|x: int| 0 <= x < m.hit_keys().len() implies (#[trigger] m.hit_keys()[x]).len() > 0
            && m.hit_keys()[x].last() == '|' by {
            let hx = m.hits()[x];
            assert(m.hit_keys()[x] == hit_key(hx.id, hx.feild));
        }
    }
    lemma_key_found(m.hit_keys(), i);
    assert(prefilter_key(h.feild, int_decimal(h.id as int)) =~= seq!['|'] + m.hit_keys()[i]);
}

/// Where no recorded field holds `|`, the keyword string that
/// `get_hit_keyword` appends to `"|"` names, for a field without `|`, only
/// the identifiers and fields of recorded hits.
pub proof fn law_found_key_was_recorded(m: MatchResult, id: i64, f: Seq<char>)
    requires
        no_bar(f),
        forall|i: int| 0 <= i < m.hits().len() ==> no_bar(#[trigger] m.hits()[i].feild),
        contains_seq(seq!['|'] + concat(m.hit_keys()), prefilter_key(f, int_decimal(id as int))),
    ensures
        exists|i: int| 0 <= i < m.hits().len() && (#[trigger] m.hits()[i]).id == id && m.hits()[i].feild == f,
{
    let t = hit_key(id, f);
    lemma_hit_key_token(id, f);
    assert(prefilter_key(f, int_decimal(id as int)) =~= seq!['|'] + t);
    assert forall|j: int| 0 <= j < m.hit_keys().len() implies bar_token(#[trigger] m.hit_keys()[j]) by {
        let hj = m.hits()[j];
        assert(m.hit_keys()[j] == hit_key(hj.id, hj.feild));
        lemma_hit_key_token(hj.id, hj.feild);
    }
    lemma_token_occurs(m.hit_keys(), t);
    let y = choose|y: int| 0 <= y < m.hit_keys().len() && m.hit_keys()[y] == t;
    let hy = m.hits()[y];
    assert(m.hit_keys()[y] == hit_key(hy.id, hy.feild));
    lemma_hit_key_injective(hy.id, hy.feild, id, f);
}

} // verus!
