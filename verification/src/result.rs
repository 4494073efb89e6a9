//! What a keyword search records: the keywords that hit, the key strings that
//! name them, and the rules they point at.
use vstd::prelude::*;
use crate::text::{int_decimal, push_char, push_i64};

verus! {

/// A recorded hit as the contracts see it.
pub struct HitView {
    pub id: i64,
    pub rid: Seq<char>,
    pub content: Seq<char>,
    pub feild: Seq<char>,
}

/// The key string that names a hit of keyword `id` in field `feild`: `"{id}:{feild}|"`.
pub open spec fn hit_key(id: i64, feild: Seq<char>) -> Seq<char> {
    int_decimal(id as int) + seq![':'] + feild + seq!['|']
}

/// The concatenation of a sequence of strings, in order.
pub open spec fn concat(parts: Seq<Seq<char>>) -> Seq<char>
    decreases parts.len(),
{
    if parts.len() == 0 {
        Seq::<char>::empty()
    } else {
        concat(parts.drop_last()) + parts.last()
    }
}

/// `s` holds no string twice.
pub open spec fn distinct(s: Seq<Seq<char>>) -> bool {
    forall|i: int, j: int| 0 <= i < j < s.len() ==> s[i] != s[j]
}

/// The views of a vector of strings.
pub open spec fn views(v: Seq<String>) -> Seq<Seq<char>> {
    v.map_values(|s: String| s@)
}

#[derive(PartialEq, Eq, Clone)]
pub struct MatchKeyword {
    id: i64,
    rid: String,
    content: String,
    feild: String,
}

impl MatchKeyword {
    pub closed spec fn view_hit(&self) -> HitView {
        HitView { id: self.id, rid: self.rid@, content: self.content@, feild: self.feild@ }
    }

    pub fn get_id(self) -> (r: i64)
        ensures
            r == self.view_hit().id,
    {
        self.id
    }

    pub fn get_feild(self) -> (r: String)
        ensures
            r@ == self.view_hit().feild,
    {
        self.feild
    }
}

pub struct RuleResult {
    pub rule_id: String,
}

/// The outcome of a keyword search over the fields of one request.
///
/// `key_string` holds, once each and in the order they first came, the key
/// strings of the recorded hits.
pub struct MatchResult {
    keywords: Vec<MatchKeyword>,
    key_string: Vec<String>,
    pub must_match_rules: Vec<String>,
}

impl MatchResult {
    /// The recorded hits, in the order they were added.
    pub closed spec fn hits(&self) -> Seq<HitView> {
        self.keywords@.map_values(|k: MatchKeyword| k.view_hit())
    }

    /// The rules that must be matched whatever the keywords.
    pub closed spec fn must_match(&self) -> Seq<Seq<char>> {
        views(self.must_match_rules@)
    }

    /// The key strings, in the order they first came.
    pub closed spec fn keys(&self) -> Seq<Seq<char>> {
        views(self.key_string@)
    }

    /// The key strings of the recorded hits, one per hit, in order.
    pub open spec fn hit_keys(&self) -> Seq<Seq<char>> {
        self.hits().map_values(|h: HitView| hit_key(h.id, h.feild))
    }

    /// The keys are distinct, and they are exactly the keys of the recorded hits.
    pub open spec fn wf(&self) -> bool {
        &&& distinct(self.keys())
        &&& self.keys().to_set() == self.hit_keys().to_set()
    }

    pub fn new() -> (r: Self)
        ensures
            r.wf(),
            r.hits() == Seq::<HitView>::empty(),
            r.keys() == Seq::<Seq<char>>::empty(),
            r.must_match() == Seq::<Seq<char>>::empty(),
    {
        let r = MatchResult { keywords: Vec::new(), key_string: Vec::new(), must_match_rules: Vec::new() };
        assert(r.keys() =~= Seq::<Seq<char>>::empty());
        assert(r.must_match() =~= Seq::<Seq<char>>::empty());
        assert(r.hit_keys() =~= Seq::<Seq<char>>::empty());
        assert(r.keys().to_set() =~= r.hit_keys().to_set());
        r
    }

    /// Adds `rid` to the rules that must be matched whatever the keywords.
    pub fn add_must_match(&mut self, rid: String)
        ensures
            final(self).must_match() == old(self).must_match().push(rid@),
            final(self).hits() == old(self).hits(),
            final(self).keys() == old(self).keys(),
    {
        let ghost before = self.must_match();
        self.must_match_rules.push(rid);
        assert(self.must_match() =~= before.push(rid@));
    }

    /// Records a hit of keyword `id` of rule `rid`, found as `content` in field `feild`.
    pub fn add_keyword(&mut self, content: String, id: i64, rid: String, feild: String)
        requires
            old(self).wf(),
        ensures
            final(self).wf(),
            final(self).hits() == old(self).hits().push(
                HitView { id, rid: rid@, content: content@, feild: feild@ },
            ),
            final(self).keys() == (if old(self).keys().contains(hit_key(id, feild@)) {
                old(self).keys()
            } else {
                old(self).keys().push(hit_key(id, feild@))
            }),
            final(self).must_match() == old(self).must_match(),
    {
        let ghost old_hits = self.hits();
        let ghost old_keys = self.keys();
        let mut key = String::new();
        push_i64(&mut key, id);
        push_char(&mut key, ':');
        key.append(feild.as_str());
        push_char(&mut key, '|');
        assert(key@ == hit_key(id, feild@)) by {
            assert(Seq::<char>::empty() + int_decimal(id as int) == int_decimal(id as int));
        }
        let mk = MatchKeyword { content: content, rid: rid, id: id, feild: feild };
        self.keywords.push(mk);
        let ghost new_hit = HitView { id, rid: rid@, content: content@, feild: feild@ };
        assert(self.hits() == old_hits.push(new_hit));
        let mut found = false;
        let mut i: usize = 0;
        while i < self.key_string.len()
            invariant
                i <= self.key_string.len(),
                self.keys() == old_keys,
                found == exists|j: int| 0 <= j < i && old_keys[j] == key@,
            decreases self.key_string.len() - i,
        {
            assert(old_keys[i as int] == self.key_string@[i as int]@);
            if self.key_string[i] == key {
                found = true;
            }
            i = i + 1;
        }
        assert(found == old_keys.contains(key@));
        if !found {
            self.key_string.push(key);
            assert(self.keys() == old_keys.push(key@));
        }
        proof {
            lemma_insert_to_set(old_keys, key@);
            assert(self.hit_keys() =~= old(self).hit_keys().push(key@));
            old(self).hit_keys().lemma_push_to_set_commute(key@);
        }
    }

    /// Appends every key string to `ret_str`, in the order they first came.
    pub fn get_hit_keyword(&mut self, ret_str: &mut String)
        ensures
            *final(self) == *old(self),
            final(ret_str)@ == old(ret_str)@ + concat(old(self).keys()),
    {
        let ghost start = ret_str@;
        let mut i: usize = 0;
        while i < self.key_string.len()
            invariant
                i <= self.key_string.len(),
                ret_str@ == start + concat(self.keys().take(i as int)),
            decreases self.key_string.len() - i,
        {
            ret_str.append(self.key_string[i].as_str());
            assert(self.keys().take(i + 1).drop_last() == self.keys().take(i as int));
            i = i + 1;
        }
        assert(self.keys().take(i as int) == self.keys());
    }

    /// The rules named by the recorded hits and the rules that must be matched.
    pub open spec fn hit_rule_set(&self) -> Set<Seq<char>> {
        self.hits().map_values(|h: HitView| h.rid).to_set() + self.must_match().to_set()
    }

    /// `after` is `before` with the hit rules that it lacks appended, each once:
    /// it keeps `before` as its start, holds no rule twice, and holds exactly
    /// the rules of `before` and the hit rules.
    pub open spec fn hit_rules_added(&self, before: Seq<Seq<char>>, after: Seq<Seq<char>>) -> bool {
        &&& distinct(after)
        &&& after.to_set() == before.to_set() + self.hit_rule_set()
        &&& before.len() <= after.len()
        &&& after.take(before.len() as int) == before
    }

    /// Adds to `rule`, each once, the rule of every recorded hit and every rule
    /// that must be matched; what `rule` held before stays, in its place.
    pub fn get_hit_rules(&self, rule: &mut Vec<String>)
        requires
            distinct(views(old(rule)@)),
        ensures
            self.hit_rules_added(views(old(rule)@), views(final(rule)@)),
    {
        let ghost start = views(rule@);
        let ghost rids = self.hits().map_values(|h: HitView| h.rid);
        let ghost mm = self.must_match();
        let mut i: usize = 0;
        assert(rids.take(0).to_set() =~= Set::<Seq<char>>::empty());
        assert(start.to_set() + rids.take(0).to_set() =~= start.to_set());
        while i < self.keywords.len()
            invariant
                i <= self.keywords.len(),
                rids == self.hits().map_values(|h: HitView| h.rid),
                rids.len() == self.keywords.len(),
                distinct(views(rule@)),
                start == views(old(rule)@),
                start.len() <= views(rule@).len(),
                views(rule@).take(start.len() as int) == start,
                views(rule@).to_set() == start.to_set() + rids.take(i as int).to_set(),
            decreases self.keywords.len() - i,
        {
            let ghost before = views(rule@);
            insert_string(rule, &self.keywords[i].rid);
            proof {
                assert(rids[i as int] == self.keywords@[i as int].rid@);
                lemma_take_step_to_set(rids, i as int);
                lemma_insert_to_set(before, rids[i as int]);
                assert(views(rule@).take(start.len() as int) =~= before.take(start.len() as int));
                assert(views(rule@).to_set() =~= start.to_set() + rids.take(i + 1).to_set());
            }
            i = i + 1;
        }
        assert(rids.take(i as int) == rids);
        let mut k: usize = 0;
        assert(mm.take(0).to_set() =~= Set::<Seq<char>>::empty());
        assert(views(rule@).to_set() =~= start.to_set() + rids.to_set() + mm.take(0).to_set());
        while k < self.must_match_rules.len()
            invariant
                k <= self.must_match_rules.len(),
                mm == self.must_match(),
                mm.len() == self.must_match_rules.len(),
                distinct(views(rule@)),
                start == views(old(rule)@),
                start.len() <= views(rule@).len(),
                views(rule@).take(start.len() as int) == start,
                views(rule@).to_set() == start.to_set() + rids.to_set() + mm.take(k as int).to_set(),
            decreases self.must_match_rules.len() - k,
        {
            let ghost before = views(rule@);
            insert_string(rule, &self.must_match_rules[k]);
            proof {
                assert(mm[k as int] == self.must_match_rules@[k as int]@);
                lemma_take_step_to_set(mm, k as int);
                lemma_insert_to_set(before, mm[k as int]);
                assert(views(rule@).take(start.len() as int) =~= before.take(start.len() as int));
                assert(views(rule@).to_set() =~= start.to_set() + rids.to_set() + mm.take(k + 1).to_set());
            }
            k = k + 1;
        }
        assert(mm.take(k as int) == mm);
        assert(views(rule@).to_set() =~= start.to_set() + self.hit_rule_set());
    }
}

pub proof fn lemma_take_step_to_set(s: Seq<Seq<char>>, i: int)
    requires
        0 <= i < s.len(),
    ensures
        s.take(i + 1).to_set() == s.take(i).to_set().insert(s[i]),
{
    assert(s.take(i + 1) == s.take(i).push(s[i]));
    s.take(i).lemma_push_to_set_commute(s[i]);
}

pub proof fn lemma_insert_to_set(before: Seq<Seq<char>>, x: Seq<char>)
    ensures
        (if before.contains(x) { before } else { before.push(x) }).to_set() == before.to_set().insert(x),
{
    if before.contains(x) {
        assert(before.to_set().insert(x) =~= before.to_set());
    } else {
        before.lemma_push_to_set_commute(x);
    }
}

/// Adds `s` to `set` unless a string equal to it is already there.
pub fn insert_string(set: &mut Vec<String>, s: &String)
    requires
        distinct(views(old(set)@)),
    ensures
        distinct(views(final(set)@)),
        views(final(set)@) == (if views(old(set)@).contains(s@) {
            views(old(set)@)
        } else {
            views(old(set)@).push(s@)
        }),
{
    let ghost start = views(set@);
    let mut i: usize = 0;
    while i < set.len()
        invariant
            i <= set.len(),
            views(set@) == start,
            start == views(old(set)@),
            distinct(start),
            forall|j: int| 0 <= j < i ==> start[j] != s@,
        decreases set.len() - i,
    {
        if set[i] == *s {
            assert(start[i as int] == s@);
            return;
        }
        i = i + 1;
    }
    set.push(s.clone());
    assert(views(set@) == start.push(s@));
}


proof fn lemma_distinct_len(s: Seq<Seq<char>>)
    requires
        distinct(s),
    ensures
        s.len() == s.to_set().len(),
{
    assert(s.no_duplicates()) by {
        assert forall|i: int, j: int| 0 <= i < s.len() && 0 <= j < s.len() && i != j implies s[i] != s[j] by {
            if i < j {
            } else {
            }
        }
    }
    s.unique_seq_to_set();
}

/// Asking for the hit rules a second time adds nothing: the list that the first
/// call gave comes back unchanged.
pub proof fn law_hit_rules_idempotent(
    m: MatchResult,
    first: Seq<Seq<char>>,
    once: Seq<Seq<char>>,
    twice: Seq<Seq<char>>,
)
    requires
        distinct(first),
        m.hit_rules_added(first, once),
        m.hit_rules_added(once, twice),
    ensures
        twice == once,
{
    assert(twice.to_set() =~= once.to_set());
    lemma_distinct_len(once);
    lemma_distinct_len(twice);
    assert(twice == twice.take(once.len() as int));
}

} // verus!
