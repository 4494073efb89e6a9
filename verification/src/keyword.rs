//! Keyword filters: keywords grouped by their text, searched for in a field's
//! content with a multi-pattern automaton, each hit kept only where the
//! keyword's boundary check passes.
use vstd::prelude::*;
use crate::automaton::{
    ac_case_insensitive, ac_matches, ac_patterns, automaton_matches, build_automaton, byte_len, bytes_match, valid_matches,
    Automaton,
};
use crate::assoc::{assoc, assoc_keys, lemma_assoc_absent, lemma_assoc_found};
use crate::result::{distinct, views, HitView, MatchResult};
use crate::text::{chars_of, is_word_char};
use vstd::utf8::{encode_scalar, encode_utf8};

verus! {

pub open spec fn word_right() -> Seq<char> {
    seq!['r', 'i', 'g', 'h', 't']
}

pub open spec fn word_left() -> Seq<char> {
    seq!['l', 'e', 'f', 't']
}

pub open spec fn word_both() -> Seq<char> {
    seq!['b', 'o', 't', 'h']
}

/// Which side of a hit a boundary check looks at.
pub enum BoundaryCheck {
    Right,
    Left,
}

/// The boundary check of one side: on the right, `end` is one before the last
/// byte of the payload, or the character at character index `end` is not a word
/// character; on the left, `start` is zero, or the character at character index
/// `start - 1` is not a word character. (`start` and `end` are byte offsets of a
/// hit; the checks use them as character indices, so a character before a
/// hit that is not ASCII shifts where they look.)
pub open spec fn boundary_ok(payload: Seq<char>, start: nat, end: nat, right: bool) -> bool {
    if right {
        ||| end + 1 == byte_len(payload)
        ||| (end < payload.len() && !is_word_char(payload[end as int]))
    } else {
        ||| start == 0
        ||| (start - 1 < payload.len() && !is_word_char(payload[start - 1]))
    }
}

/// The check named by `func` on a hit spanning `start..end` of `payload`:
/// `right`, `left`, or `both` sides; any other name passes.
pub open spec fn keyword_check(func: Seq<char>, payload: Seq<char>, start: nat, end: nat) -> bool {
    if func == word_right() {
        boundary_ok(payload, start, end, true)
    } else if func == word_left() {
        boundary_ok(payload, start, end, false)
    } else if func == word_both() {
        boundary_ok(payload, start, end, true) && boundary_ok(payload, start, end, false)
    } else {
        true
    }
}

/// The check named by `func` looks at the right side of a hit.
pub open spec fn checks_right(func: Seq<char>) -> bool {
    func == word_right() || func == word_both()
}

/// Whether `ch` may stand next to a keyword: it is not a word character.
pub fn _boundary_char_check(ch: char) -> (r: bool)
    ensures
        r == !is_word_char(ch),
{
    if (ch >= '0' && ch <= '9') || (ch >= 'a' && ch <= 'z') || (ch >= 'A' && ch <= 'Z') || (ch
        == '_') {
        return false;
    }
    return true;
}

/// The boundary check of side `bc` for a hit spanning `start..end` of `payload`.
pub fn _boundary_check(payload: &String, start: usize, end: usize, bc: BoundaryCheck) -> (r: bool)
    requires
        bc is Right ==> payload@.len() > 0,
    ensures
        r == boundary_ok(payload@, start as nat, end as nat, bc is Right),
{
    match bc {
        BoundaryCheck::Right => {
            let n = payload.as_str().as_bytes().len();
            assert(byte_len(payload@) > 0) by {
                assert(encode_scalar(payload@[0] as u32).len() >= 1);
                assert(encode_utf8(payload@) == encode_scalar(payload@[0] as u32) + encode_utf8(
                    payload@.drop_first(),
                ));
            }
            assert(n == byte_len(payload@));
            if end == n - 1 {
                return true;
            }
            let chars = chars_of(payload.as_str());
            if end < chars.len() {
                return _boundary_char_check(chars[end]);
            } else {
                return false;
            }
        },
        BoundaryCheck::Left => {
            if start == 0 {
                return true;
            }
            let chars = chars_of(payload.as_str());
            if start - 1 < chars.len() {
                return _boundary_char_check(chars[start - 1]);
            } else {
                return false;
            }
        },
    }
}

/// Whether `s` is exactly the word `w`.
pub fn equals_word(s: &String, w: &str) -> (r: bool)
    ensures
        r == (s@ == w@),
{
    let a = chars_of(s.as_str());
    let b = chars_of(w);
    if a.len() != b.len() {
        return false;
    }
    let mut i: usize = 0;
    while i < a.len()
        invariant
            a@ == s@,
            b@ == w@,
            a.len() == b.len(),
            i <= a.len(),
            forall|j: int| 0 <= j < i ==> a@[j] == b@[j],
        decreases a.len() - i,
    {
        if a[i] != b[i] {
            assert(a@[i as int] != b@[i as int]);
            return false;
        }
        i = i + 1;
    }
    assert(a@ == b@);
    true
}

/// Runs the check that `func` names on a hit spanning `start..end` of `payload`.
pub fn keyword_func_exec(func: &String, payload: &String, start: usize, end: usize) -> (r: bool)
    requires
        checks_right(func@) ==> payload@.len() > 0,
    ensures
        r == keyword_check(func@, payload@, start as nat, end as nat),
{
    proof {
        reveal_strlit("right");
        reveal_strlit("left");
        reveal_strlit("both");
        assert("right"@ =~= word_right());
        assert("left"@ =~= word_left());
        assert("both"@ =~= word_both());
    }
    if equals_word(func, "right") {
        return _boundary_check(payload, start, end, BoundaryCheck::Right);
    }
    if equals_word(func, "left") {
        return _boundary_check(payload, start, end, BoundaryCheck::Left);
    }
    if equals_word(func, "both") {
        if _boundary_check(payload, start, end, BoundaryCheck::Right) {
            if _boundary_check(payload, start, end, BoundaryCheck::Left) {
                return true;
            }
        }
        return false;
    }
    if equals_word(func, "none") {
        return true;
    }
    true
}


/// A keyword as the contracts see it.
pub struct KeywordView {
    pub id: i64,
    pub rid: Seq<char>,
    pub func: Seq<char>,
}

/// A keyword of a rule: its identifier, the rule it belongs to, and the name
/// of the boundary check that a hit of it must pass.
#[derive(PartialEq, Eq, Clone)]
pub struct Keyword {
    id: i64,
    rid: String,
    func: String,
}

impl Keyword {
    pub closed spec fn view_kw(&self) -> KeywordView {
        KeywordView { id: self.id, rid: self.rid@, func: self.func@ }
    }
}

/// The hits that the keywords `kws` of pattern `pat` give for a match spanning
/// `start..end` of `content` in field `feild`: one per keyword whose check
/// passes, in order.
pub open spec fn passing(
    kws: Seq<KeywordView>,
    pat: Seq<char>,
    content: Seq<char>,
    feild: Seq<char>,
    start: nat,
    end: nat,
) -> Seq<HitView>
    decreases kws.len(),
{
    if kws.len() == 0 {
        Seq::<HitView>::empty()
    } else {
        let prev = passing(kws.drop_last(), pat, content, feild, start, end);
        let k = kws.last();
        if keyword_check(k.func, content, start, end) {
            prev.push(HitView { id: k.id, rid: k.rid, content: pat, feild: feild })
        } else {
            prev
        }
    }
}

/// Some keyword in `kws` checks the right side of its hits.
pub open spec fn any_checks_right(kws: Seq<KeywordView>) -> bool {
    exists|i: int| 0 <= i < kws.len() && #[trigger] checks_right(kws[i].func)
}

/// A set of keywords grouped by their text, with the automaton that searches for
/// them once it is built.
pub struct KeywordFilter {
    ac_filter: Option<Automaton>,
    keyword_vec: Vec<String>,
    keyword_map: Vec<(String, Vec<Keyword>)>,
}

impl KeywordFilter {
    /// The patterns of the automaton: the keyword texts taken at each build, in order.
    pub closed spec fn patterns(&self) -> Seq<Seq<char>> {
        views(self.keyword_vec@)
    }

    /// The keyword texts with their keywords, in the order the texts first came.
    pub closed spec fn entries(&self) -> Seq<(Seq<char>, Seq<KeywordView>)> {
        self.keyword_map@.map_values(
            |e: (String, Vec<Keyword>)| (e.0@, e.1@.map_values(|k: Keyword| k.view_kw())),
        )
    }

    /// The automaton has been built.
    pub closed spec fn built(&self) -> bool {
        self.ac_filter is Some
    }

    /// The keyword texts, in the order they first came.
    pub open spec fn keys(&self) -> Seq<Seq<char>> {
        assoc_keys(self.entries())
    }

    /// The keywords whose text is `key`, in the order they were added.
    pub open spec fn keywords_of(&self, key: Seq<char>) -> Option<Seq<KeywordView>> {
        assoc(self.entries(), key)
    }

    /// Each text has one entry, and a built automaton searches for the patterns.
    pub closed spec fn wf(&self) -> bool {
        &&& distinct(self.keys())
        &&& (self.ac_filter matches Some(ac) ==> ac_patterns(ac) == self.patterns() && ac_case_insensitive(ac))
    }

    /// The hits that a match (pattern, start, end) of the automaton gives.
    pub open spec fn hits_for_match(
        &self,
        content: Seq<char>,
        feild: Seq<char>,
        m: (usize, usize, usize),
    ) -> Seq<HitView> {
        let pat = self.patterns()[m.0 as int];
        match self.keywords_of(pat) {
            Some(kws) => passing(kws, pat, content, feild, m.1 as nat, m.2 as nat),
            None => Seq::<HitView>::empty(),
        }
    }

    /// The hits that a sequence of matches gives, match by match.
    pub open spec fn hits_for(
        &self,
        content: Seq<char>,
        feild: Seq<char>,
        ms: Seq<(usize, usize, usize)>,
    ) -> Seq<HitView>
        decreases ms.len(),
    {
        if ms.len() == 0 {
            Seq::<HitView>::empty()
        } else {
            self.hits_for(content, feild, ms.drop_last()) + self.hits_for_match(
                content,
                feild,
                ms.last(),
            )
        }
    }

    /// A keyword with empty text checks the right side of its hits.
    pub open spec fn has_empty_right_keyword(&self) -> bool {
        match self.keywords_of(Seq::<char>::empty()) {
            Some(kws) => any_checks_right(kws),
            None => false,
        }
    }

    /// The keywords of the pattern a match names check the right side of the hit.
    pub open spec fn match_checks_right(&self, m: (usize, usize, usize)) -> bool {
        match self.keywords_of(self.patterns()[m.0 as int]) {
            Some(kws) => any_checks_right(kws),
            None => false,
        }
    }

    pub fn new() -> (r: Self)
        ensures
            r.wf(),
            r.entries() == Seq::<(Seq<char>, Seq<KeywordView>)>::empty(),
            r.patterns() == Seq::<Seq<char>>::empty(),
            !r.built(),
    {
        let r = KeywordFilter { ac_filter: None, keyword_vec: Vec::new(), keyword_map: Vec::new() };
        assert(r.entries() =~= Seq::<(Seq<char>, Seq<KeywordView>)>::empty());
        assert(r.keys() =~= Seq::<Seq<char>>::empty());
        assert(r.patterns() =~= Seq::<Seq<char>>::empty());
        r
    }

    /// The index of the entry whose text is `key`, if there is one.
    fn find_entry(&self, key: &String) -> (r: Option<usize>)
        ensures
            match r {
                Some(j) => j < self.entries().len() && self.entries()[j as int].0 == key@,
                None => !self.keys().contains(key@),
            },
    {
        let mut j: usize = 0;
        while j < self.keyword_map.len()
            invariant
                j <= self.keyword_map.len(),
                forall|i: int| 0 <= i < j ==> self.keys()[i] != key@,
            decreases self.keyword_map.len() - j,
        {
            assert(self.keys()[j as int] == self.keyword_map@[j as int].0@);
            if self.keyword_map[j].0 == *key {
                return Some(j);
            }
            j = j + 1;
        }
        None
    }

    /// Adds keyword `kid` of rule `rid` with text `kword` and check `func`.
    pub fn add(&mut self, kid: i64, rid: String, kword: String, func: String)
        requires
            old(self).wf(),
        ensures
            final(self).wf(),
            final(self).patterns() == old(self).patterns(),
            final(self).built() == old(self).built(),
            final(self).keys() == (if old(self).keys().contains(kword@) {
                old(self).keys()
            } else {
                old(self).keys().push(kword@)
            }),
            forall|k: Seq<char>|
                #[trigger] final(self).keywords_of(k) == (if k == kword@ {
                    Some(
                        match old(self).keywords_of(k) {
                            Some(kws) => kws,
                            None => Seq::<KeywordView>::empty(),
                        }.push(KeywordView { id: kid, rid: rid@, func: func@ }),
                    )
                } else {
                    old(self).keywords_of(k)
                }),
    {
        let ghost old_es = self.entries();
        let ghost kv = KeywordView { id: kid, rid: rid@, func: func@ };
        let kw = Keyword { id: kid, rid: rid, func: func };
        assert(kw.view_kw() == kv);
        match self.find_entry(&kword) {
            Some(j) => {
                let mut e = self.keyword_map.remove(j);
                let ghost old_list = e.1@.map_values(|k: Keyword| k.view_kw());
                e.1.push(kw);
                assert(e.1@.map_values(|k: Keyword| k.view_kw()) =~= old_list.push(kv));
                self.keyword_map.insert(j, e);
                let ghost new_es = old_es.update(j as int, (kword@, old_list.push(kv)));
                assert(self.entries() =~= new_es);
                assert(self.keys() =~= assoc_keys(old_es));
                assert(assoc_keys(old_es)[j as int] == kword@);
                proof {
                    lemma_assoc_found(old_es, j as int);
                    lemma_assoc_found(new_es, j as int);
                    assert forall|k: Seq<char>| k != kword@ implies #[trigger] assoc(new_es, k) == assoc(
                        old_es,
                        k,
                    ) by {
                        if assoc_keys(old_es).contains(k) {
                            let i = choose|i: int| 0 <= i < old_es.len() && #[trigger] assoc_keys(old_es)[i] == k;
                            lemma_assoc_found(old_es, i);
                            lemma_assoc_found(new_es, i);
                        } else {
                            lemma_assoc_absent(old_es, k);
                            lemma_assoc_absent(new_es, k);
                        }
                    }
                }
            },
            None => {
                let list = vec![kw];
                assert(list@.map_values(|k: Keyword| k.view_kw()) =~= seq![kv]);
                self.keyword_map.push((kword, list));
                let ghost new_es = old_es.push((kword@, seq![kv]));
                assert(self.entries() =~= new_es);
                assert(self.keys() =~= assoc_keys(old_es).push(kword@));
                proof {
                    lemma_assoc_absent(old_es, kword@);
                    assert(seq![kv] == Seq::<KeywordView>::empty().push(kv));
                    assert(new_es.drop_last() == old_es);
                }
            },
        }
    }

    /// Appends the keyword texts to the patterns and builds the automaton over
    /// all the patterns.
    pub fn build(&mut self)
        requires
            old(self).wf(),
        ensures
            final(self).wf(),
            final(self).built(),
            final(self).entries() == old(self).entries(),
            final(self).patterns() == old(self).patterns() + old(self).keys(),
            distinct(old(self).keys()),
    {
        let ghost start = self.patterns();
        let mut i: usize = 0;
        while i < self.keyword_map.len()
            invariant
                i <= self.keyword_map.len(),
                self.entries() == old(self).entries(),
                self.keyword_map == old(self).keyword_map,
                start == old(self).patterns(),
                self.patterns() == start + self.keys().take(i as int),
            decreases self.keyword_map.len() - i,
        {
            let k = self.keyword_map[i].0.clone();
            assert(self.keys()[i as int] == k@);
            let ghost old_pat = self.patterns();
            self.keyword_vec.push(k);
            assert(self.patterns() =~= old_pat.push(k@));
            assert(self.keys().take(i + 1) == self.keys().take(i as int).push(k@));
            assert(self.patterns() =~= start + self.keys().take(i + 1));
            i = i + 1;
        }
        assert(self.keys().take(i as int) == self.keys());
        self.ac_filter = Some(build_automaton(&self.keyword_vec, true));
    }

    /// Records, match by match, the hits that `matches` give in field `feild`
    /// whose content is `content`.
    pub fn record_matches(
        &self,
        mctx: &mut MatchResult,
        content: &String,
        feild: &String,
        matches: &Vec<(usize, usize, usize)>,
    )
        requires
            self.wf(),
            old(mctx).wf(),
            forall|i: int| 0 <= i < matches@.len() ==> (#[trigger] matches@[i]).0 < self.patterns().len(),
            content@.len() > 0 || forall|i: int|
                0 <= i < matches@.len() ==> !self.match_checks_right(#[trigger] matches@[i]),
        ensures
            final(mctx).wf(),
            final(mctx).must_match() == old(mctx).must_match(),
            final(mctx).hits() == old(mctx).hits() + self.hits_for(content@, feild@, matches@),
    {
        let mut i: usize = 0;
        while i < matches.len()
            invariant
                self.wf(),
                i <= matches.len(),
                mctx.wf(),
                mctx.must_match() == old(mctx).must_match(),
                mctx.hits() == old(mctx).hits() + self.hits_for(content@, feild@, matches@.take(i as int)),
                forall|j: int| 0 <= j < matches@.len() ==> (#[trigger] matches@[j]).0 < self.patterns().len(),
                content@.len() > 0 || forall|j: int|
                    0 <= j < matches@.len() ==> !self.match_checks_right(#[trigger] matches@[j]),
            decreases matches.len() - i,
        {
            let m = matches[i];
            assert(matches@.take(i + 1).drop_last() == matches@.take(i as int));
            let ghost before = mctx.hits();
            let pat = &self.keyword_vec[m.0];
            assert(self.patterns()[m.0 as int] == pat@);
            match self.find_entry(pat) {
                Some(j) => {
                    proof {
                        lemma_assoc_found(self.entries(), j as int);
                    }
                    let kws = &self.keyword_map[j].1;
                    let ghost kvs = self.entries()[j as int].1;
                    assert(kvs == kws@.map_values(|k: Keyword| k.view_kw()));
                    assert(content@.len() > 0 || !self.match_checks_right(matches@[i as int]));
                    let mut t: usize = 0;
                    while t < kws.len()
                        invariant
                            t <= kws.len(),
                            kvs == kws@.map_values(|k: Keyword| k.view_kw()),
                            mctx.wf(),
                            mctx.must_match() == old(mctx).must_match(),
                            mctx.hits() == before + passing(
                                kvs.take(t as int),
                                pat@,
                                content@,
                                feild@,
                                m.1 as nat,
                                m.2 as nat,
                            ),
                            content@.len() > 0 || !any_checks_right(kvs),
                        decreases kws.len() - t,
                    {
                        let kw = &kws[t];
                        assert(kvs[t as int] == kw.view_kw());
                        assert(checks_right(kvs[t as int].func) ==> any_checks_right(kvs));
                        assert(kvs.take(t + 1).drop_last() == kvs.take(t as int));
                        if keyword_func_exec(&kw.func, content, m.1, m.2) {
                            mctx.add_keyword(pat.clone(), kw.id, kw.rid.clone(), feild.clone());
                        }
                        t = t + 1;
                    }
                    assert(kvs.take(t as int) == kvs);
                },
                None => {
                    proof {
                        lemma_assoc_absent(self.entries(), pat@);
                    }
                },
            }
            i = i + 1;
        }
        assert(matches@.take(i as int) == matches@);
    }

    /// Searches `content`, the content of field `feild`, for the keywords and
    /// records each hit whose check passes; before the automaton is built, it
    /// records nothing.
    pub fn find_all(&self, mctx: &mut MatchResult, content: &String, feild: &String)
        requires
            self.wf(),
            old(mctx).wf(),
            self.built() ==> content@.len() > 0 || !self.has_empty_right_keyword(),
        ensures
            final(mctx).wf(),
            final(mctx).must_match() == old(mctx).must_match(),
            final(mctx).hits() == old(mctx).hits() + (if self.built() {
                self.hits_for(content@, feild@, ac_matches(self.patterns(), true, content@))
            } else {
                Seq::<HitView>::empty()
            }),
            self.built() ==> valid_matches(
                ac_matches(self.patterns(), true, content@),
                self.patterns(),
                true,
                content@,
            ),
    {
        match &self.ac_filter {
            Some(ac) => {
                let ms = automaton_matches(ac, content);
                proof {
                    if content@.len() == 0 {
                        crate::automaton::lemma_byte_len_zero(content@);
                        assert forall|i: int| 0 <= i < ms@.len() implies !self.match_checks_right(
                            #[trigger] ms@[i],
                        ) by {
                            let m = ms@[i];
                            crate::automaton::lemma_byte_len_zero(self.patterns()[m.0 as int]);
                            assert(self.patterns()[m.0 as int] =~= Seq::<char>::empty());
                        }
                    }
                }
                self.record_matches(mctx, content, feild, &ms);
            },
            None => {
                assert(old(mctx).hits() + Seq::<HitView>::empty() == old(mctx).hits());
            },
        }
    }
}

impl Default for KeywordFilter {
    fn default() -> (r: Self)
        ensures
            r.wf(),
            r.entries() == Seq::<(Seq<char>, Seq<KeywordView>)>::empty(),
            r.patterns() == Seq::<Seq<char>>::empty(),
            !r.built(),
    {
        KeywordFilter::new()
    }
}

/// Hit `h` is of a keyword in `kws` (by identifier and rule) whose check
/// passes on `content` for a match spanning `start..end`.
pub open spec fn passes_as(kws: Seq<KeywordView>, h: HitView, content: Seq<char>, start: nat, end: nat) -> bool {
    exists|q: int|
        0 <= q < kws.len() && (#[trigger] kws[q]).id == h.id && kws[q].rid == h.rid && keyword_check(
            kws[q].func,
            content,
            start,
            end,
        )
}

/// Match `m` accounts for hit `h`: `h` is of the keyword text that `m` names,
/// `m` spans that text in the content's bytes up to ASCII case, and `h`
/// belongs to a keyword of that text whose check passes for `m`.
pub open spec fn match_explains(kf: KeywordFilter, content: Seq<char>, m: (usize, usize, usize), h: HitView) -> bool {
    &&& h.content == kf.patterns()[m.0 as int]
    &&& bytes_match(encode_utf8(content).subrange(m.1 as int, m.2 as int), encode_utf8(h.content), true)
    &&& match kf.keywords_of(h.content) {
        Some(kws) => passes_as(kws, h, content, m.1 as nat, m.2 as nat),
        None => false,
    }
}

/// Every hit that `passing` gives is of text `pat` in field `feild`, and of
/// one of the keywords whose check passes.
proof fn lemma_passing_shape(
    kws: Seq<KeywordView>,
    pat: Seq<char>,
    content: Seq<char>,
    feild: Seq<char>,
    start: nat,
    end: nat,
)
    ensures
        forall|k: int|
            0 <= k < passing(kws, pat, content, feild, start, end).len() ==> {
                let h = #[trigger] passing(kws, pat, content, feild, start, end)[k];
                &&& h.content == pat
                &&& h.feild == feild
                &&& passes_as(kws, h, content, start, end)
            },
    decreases kws.len(),
{
    if kws.len() > 0 {
        let prevk = kws.drop_last();
        lemma_passing_shape(prevk, pat, content, feild, start, end);
        let pv = passing(prevk, pat, content, feild, start, end);
        let cur = passing(kws, pat, content, feild, start, end);
        assert forall|k: int| 0 <= k < cur.len() implies {
            let h = #[trigger] cur[k];
            &&& h.content == pat
            &&& h.feild == feild
            &&& passes_as(kws, h, content, start, end)
        } by {
            if k < pv.len() {
                assert(cur[k] == pv[k]);
                let q = choose|q: int|
                    0 <= q < prevk.len() && (#[trigger] prevk[q]).id == pv[k].id && prevk[q].rid == pv[k].rid
                        && keyword_check(prevk[q].func, content, start, end);
                assert(kws[q] == prevk[q]);
            } else {
                let last = kws.len() - 1;
                assert(kws[last] == kws.last());
            }
        }
    }
}

/// Every hit that the matches `ms` give is of field `feild` and of a keyword
/// text that one of the matches spans in the content's bytes, up to ASCII
/// case, and it belongs to a keyword of that text whose check passes for that
/// match. `find_all` appends the hits of the automaton's matches, and states
/// those matches valid, so every hit it records is such an occurrence.
pub proof fn law_hit_occurs(
    kf: KeywordFilter,
    content: Seq<char>,
    feild: Seq<char>,
    ms: Seq<(usize, usize, usize)>,
    k: int,
)
    requires
        valid_matches(ms, kf.patterns(), true, content),
        0 <= k < kf.hits_for(content, feild, ms).len(),
    ensures
        kf.hits_for(content, feild, ms)[k].feild == feild,
        exists|i: int|
            0 <= i < ms.len() && match_explains(kf, content, #[trigger] ms[i], kf.hits_for(content, feild, ms)[k]),
    decreases ms.len(),
{
    let prev = ms.drop_last();
    let hs = kf.hits_for(content, feild, ms);
    let hp = kf.hits_for(content, feild, prev);
    assert(valid_matches(prev, kf.patterns(), true, content)) by {
        assert forall|i: int| 0 <= i < prev.len() implies #[trigger] prev[i] == ms[i] by {}
    }
    if k < hp.len() {
        law_hit_occurs(kf, content, feild, prev, k);
        let i = choose|i: int| 0 <= i < prev.len() && match_explains(kf, content, #[trigger] prev[i], hp[k]);
        assert(hs[k] == hp[k]);
        assert(prev[i] == ms[i]);
    } else {
        let m = ms.last();
        let pat = kf.patterns()[m.0 as int];
        let last = ms.len() - 1;
        assert(ms[last] == m);
        match kf.keywords_of(pat) {
            Some(kws) => {
                lemma_passing_shape(kws, pat, content, feild, m.1 as nat, m.2 as nat);
                assert(hs[k] == passing(kws, pat, content, feild, m.1 as nat, m.2 as nat)[k - hp.len()]);
                assert(match_explains(kf, content, ms[last], hs[k]));
            },
            None => {},
        }
    }
}

/// The hits of a sequence of matches are those of each match in turn: the
/// matches `ms1` then `ms2` give the hits of `ms1` and then those of `ms2`.
pub proof fn law_hits_for_matchwise(
    kf: KeywordFilter,
    content: Seq<char>,
    feild: Seq<char>,
    ms1: Seq<(usize, usize, usize)>,
    ms2: Seq<(usize, usize, usize)>,
)
    ensures
        kf.hits_for(content, feild, ms1 + ms2) == kf.hits_for(content, feild, ms1) + kf.hits_for(content, feild, ms2),
    decreases ms2.len(),
{
    if ms2.len() == 0 {
        assert(ms1 + ms2 =~= ms1);
        assert(kf.hits_for(content, feild, ms1) + kf.hits_for(content, feild, ms2) =~= kf.hits_for(
            content,
            feild,
            ms1,
        ));
    } else {
        law_hits_for_matchwise(kf, content, feild, ms1, ms2.drop_last());
        assert((ms1 + ms2).drop_last() =~= ms1 + ms2.drop_last());
        assert((ms1 + ms2).last() == ms2.last());
    }
}

/// For keywords `kws`, a keyword whose check passes on the span gives its hit.
proof fn lemma_passing_has(
    kws: Seq<KeywordView>,
    pat: Seq<char>,
    content: Seq<char>,
    feild: Seq<char>,
    start: nat,
    end: nat,
    q: int,
)
    requires
        0 <= q < kws.len(),
        keyword_check(kws[q].func, content, start, end),
    ensures
        passing(kws, pat, content, feild, start, end).contains(
            HitView { id: kws[q].id, rid: kws[q].rid, content: pat, feild: feild },
        ),
    decreases kws.len(),
{
    let h = HitView { id: kws[q].id, rid: kws[q].rid, content: pat, feild: feild };
    let cur = passing(kws, pat, content, feild, start, end);
    let pv = passing(kws.drop_last(), pat, content, feild, start, end);
    if q == kws.len() - 1 {
        assert(cur == pv.push(h));
        assert(cur[pv.len() as int] == h);
    } else {
        assert(kws.drop_last()[q] == kws[q]);
        lemma_passing_has(kws.drop_last(), pat, content, feild, start, end, q);
        let x = choose|x: int| 0 <= x < pv.len() && pv[x] == h;
        assert(cur[x] == h);
    }
}

/// Every match is checked: for each match of `ms` and each keyword of the
/// text it names whose check passes on the match's span, the hits hold that
/// keyword's hit, whatever the other matches.
pub proof fn law_every_passing_match_recorded(
    kf: KeywordFilter,
    content: Seq<char>,
    feild: Seq<char>,
    ms: Seq<(usize, usize, usize)>,
    i: int,
    q: int,
)
    requires
        0 <= i < ms.len(),
        kf.keywords_of(kf.patterns()[ms[i].0 as int]) matches Some(kws) && 0 <= q < kws.len() && keyword_check(
            kws[q].func,
            content,
            ms[i].1 as nat,
            ms[i].2 as nat,
        ),
    ensures
        kf.hits_for(content, feild, ms).contains(
            HitView {
                id: kf.keywords_of(kf.patterns()[ms[i].0 as int]).unwrap()[q].id,
                rid: kf.keywords_of(kf.patterns()[ms[i].0 as int]).unwrap()[q].rid,
                content: kf.patterns()[ms[i].0 as int],
                feild: feild,
            },
        ),
{
    let m = ms[i];
    let pat = kf.patterns()[m.0 as int];
    let kws = kf.keywords_of(pat).unwrap();
    let h = HitView { id: kws[q].id, rid: kws[q].rid, content: pat, feild: feild };
    let a = ms.take(i);
    let b = seq![m];
    let c = ms.skip(i + 1);
    assert(ms =~= a + b + c);
    law_hits_for_matchwise(kf, content, feild, a + b, c);
    law_hits_for_matchwise(kf, content, feild, a, b);
    assert(b.drop_last() =~= Seq::<(usize, usize, usize)>::empty());
    assert(b.last() == m);
    let hb = kf.hits_for(content, feild, b);
    assert(kf.hits_for(content, feild, b.drop_last()) =~= Seq::<HitView>::empty());
    assert(hb =~= kf.hits_for_match(content, feild, m));
    lemma_passing_has(kws, pat, content, feild, m.1 as nat, m.2 as nat, q);
    let x = choose|x: int| 0 <= x < hb.len() && hb[x] == h;
    let ha = kf.hits_for(content, feild, a);
    let all = kf.hits_for(content, feild, ms);
    assert(all == ha + hb + kf.hits_for(content, feild, c));
    assert(all[ha.len() + x] == h);
}

/// The hits of a match are those of each keyword in turn: keywords `k1`
/// then `k2` give the hits of `k1` and then those of `k2`.
pub proof fn law_passing_keywise(
    k1: Seq<KeywordView>,
    k2: Seq<KeywordView>,
    pat: Seq<char>,
    content: Seq<char>,
    feild: Seq<char>,
    start: nat,
    end: nat,
)
    ensures
        passing(k1 + k2, pat, content, feild, start, end) == passing(k1, pat, content, feild, start, end)
            + passing(k2, pat, content, feild, start, end),
    decreases k2.len(),
{
    if k2.len() == 0 {
        assert(k1 + k2 =~= k1);
        assert(passing(k1, pat, content, feild, start, end) + passing(k2, pat, content, feild, start, end)
            =~= passing(k1, pat, content, feild, start, end));
    } else {
        law_passing_keywise(k1, k2.drop_last(), pat, content, feild, start, end);
        assert((k1 + k2).drop_last() =~= k1 + k2.drop_last());
        assert((k1 + k2).last() == k2.last());
    }
}

/// One keyword gives its hit where its check passes, and nothing otherwise.
pub proof fn law_passing_one(k: KeywordView, pat: Seq<char>, content: Seq<char>, feild: Seq<char>, start: nat, end: nat)
    ensures
        passing(seq![k], pat, content, feild, start, end) == if keyword_check(k.func, content, start, end) {
            seq![HitView { id: k.id, rid: k.rid, content: pat, feild: feild }]
        } else {
            Seq::<HitView>::empty()
        },
{
    let ks = seq![k];
    assert(ks.drop_last() =~= Seq::<KeywordView>::empty());
    assert(passing(ks.drop_last(), pat, content, feild, start, end) =~= Seq::<HitView>::empty());
    assert(ks.last() == k);
    assert(Seq::<HitView>::empty().push(HitView { id: k.id, rid: k.rid, content: pat, feild: feild }) =~= seq![
        HitView { id: k.id, rid: k.rid, content: pat, feild: feild },
    ]);
}

/// One match gives the hits of the keywords of the text it names.
pub proof fn law_hits_for_one_match(kf: KeywordFilter, content: Seq<char>, feild: Seq<char>, m: (usize, usize, usize))
    ensures
        kf.hits_for(content, feild, seq![m]) == kf.hits_for_match(content, feild, m),
{
    let ms = seq![m];
    assert(ms.drop_last() =~= Seq::<(usize, usize, usize)>::empty());
    assert(kf.hits_for(content, feild, ms.drop_last()) =~= Seq::<HitView>::empty());
    assert(ms.last() == m);
    assert(Seq::<HitView>::empty() + kf.hits_for_match(content, feild, m) =~= kf.hits_for_match(content, feild, m));
}

} // verus!
