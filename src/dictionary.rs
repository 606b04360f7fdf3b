use vstd::hash_map::StringHashMap;
use vstd::prelude::*;
use vstd::string::StrSliceExecFns;

use crate::variants::{
    contains_str, deletion_variants, deletions, derives, lemma_derives_step, lemma_within_trans,
    push_new, single_deletions, variants, views, within,
};
use crate::word::Word;

verus! {

/// The number of deletions that a new dictionary applies, both when indexing and when querying.
pub const DEFAULT_ERROR_DISTANCE: u8 = 2;

/// What best-match selection reports when the index it reads is inconsistent.
#[derive(Debug, Clone, Copy, PartialEq, Eq, Structural)]
pub enum DictError {
    /// Selection was asked to choose among no candidates.
    EmptyCandidates,
    /// A candidate is not a known word.
    UnknownCandidate,
}

/// `c` with `w` appended, unless `w` is already in it.
pub open spec fn merge_candidate(c: Seq<Seq<char>>, w: Seq<char>) -> Seq<Seq<char>> {
    if c.contains(w) {
        c
    } else {
        c.push(w)
    }
}

/// `c` with each string of `new` merged in, in order, without duplication.
pub open spec fn merge_all(c: Seq<Seq<char>>, new: Seq<Seq<char>>) -> Seq<Seq<char>>
    decreases new.len(),
{
    if new.len() == 0 {
        c
    } else {
        merge_candidate(merge_all(c, new.drop_last()), new.last())
    }
}

/// The candidate list stored under `k` in `m`, or the empty list.
pub open spec fn entry_or_empty(m: Map<Seq<char>, Seq<Seq<char>>>, k: Seq<char>) -> Seq<Seq<char>> {
    if m.contains_key(k) {
        m[k]
    } else {
        Seq::empty()
    }
}

/// `m` with the word `w` merged into the candidate list of every key in `keys`.
pub open spec fn with_candidate(
    m: Map<Seq<char>, Seq<Seq<char>>>,
    keys: Set<Seq<char>>,
    w: Seq<char>,
) -> Map<Seq<char>, Seq<Seq<char>>> {
    Map::new(
        |k: Seq<char>| m.contains_key(k) || keys.contains(k),
        |k: Seq<char>|
            if keys.contains(k) {
                merge_candidate(entry_or_empty(m, k), w)
            } else {
                m[k]
            },
    )
}

/// The score that one more plain insertion gives a word that had `s`; it saturates.
pub open spec fn bumped(s: u64) -> u64 {
    if s < u64::MAX {
        (s + 1) as u64
    } else {
        s
    }
}

/// The score a word has after one plain insertion into a dictionary whose scores are `m`.
pub open spec fn score_after_insert(m: Map<Seq<char>, u64>, w: Seq<char>) -> u64 {
    if m.contains_key(w) {
        bumped(m[w])
    } else {
        1
    }
}

/// Position `j` holds a candidate of greatest score, and the first such one.
pub open spec fn is_best(scores: Map<Seq<char>, u64>, c: Seq<Seq<char>>, j: int) -> bool {
    &&& 0 <= j < c.len()
    &&& forall|i: int| 0 <= i < c.len() ==> scores[#[trigger] c[i]] <= scores[c[j]]
    &&& forall|i: int| 0 <= i < j ==> scores[#[trigger] c[i]] < scores[c[j]]
}

/// The first candidate of greatest score.
pub open spec fn best_of(scores: Map<Seq<char>, u64>, c: Seq<Seq<char>>) -> Seq<char> {
    c[choose|j: int| is_best(scores, c, j)]
}

/// Every candidate of `c` is a known word.
pub open spec fn all_known(scores: Map<Seq<char>, u64>, c: Seq<Seq<char>>) -> bool {
    forall|i: int| 0 <= i < c.len() ==> scores.contains_key(#[trigger] c[i])
}

/// Every candidate of `c` derives `k` by deletions.
pub open spec fn all_derive(c: Seq<Seq<char>>, k: Seq<char>) -> bool {
    forall|i: int| 0 <= i < c.len() ==> derives(#[trigger] c[i], k)
}

/// Every string that the fallback search around `q` tries: `q` and its variants, and the
/// variants of each of those.
pub open spec fn search_pool(q: Seq<char>, d: nat) -> Set<Seq<char>> {
    Set::new(|t: Seq<char>| exists|s: Seq<char>| #[trigger] pool_step(q, d, s, t))
}

/// `s` is `q` or one of its variants, and `t` is `s` or one of its variants.
pub open spec fn pool_step(q: Seq<char>, d: nat, s: Seq<char>, t: Seq<char>) -> bool {
    &&& s == q || variants(q, d).contains(s)
    &&& t == s || variants(s, d).contains(t)
}

/// The index that one expansion step reads: the variant index itself, or, where that is
/// empty, every known word indexed under its own text.
pub open spec fn expansion_seed(
    scores: Map<Seq<char>, u64>,
    errors: Map<Seq<char>, Seq<Seq<char>>>,
) -> Map<Seq<char>, Seq<Seq<char>>> {
    if errors.dom() == Set::<Seq<char>>::empty() {
        Map::new(|k: Seq<char>| scores.contains_key(k), |k: Seq<char>| seq![k])
    } else {
        errors
    }
}

/// Key `i` of `seed` is expanded, being longer than two characters, and `k` is one of its
/// single deletions.
pub open spec fn feeds(seed: Map<Seq<char>, Seq<Seq<char>>>, i: Seq<char>, k: Seq<char>) -> bool {
    &&& seed.contains_key(i)
    &&& i.len() > 2
    &&& deletions(i).contains(k)
}

/// The candidates of `k` after one expansion step from `seed` over the index `base`.
pub open spec fn expanded_candidates(
    seed: Map<Seq<char>, Seq<Seq<char>>>,
    base: Map<Seq<char>, Seq<Seq<char>>>,
    k: Seq<char>,
) -> Set<Seq<char>> {
    entry_or_empty(base, k).to_set().union(
        Set::new(|w: Seq<char>| exists|i: Seq<char>| #[trigger] feeds(seed, i, k) && seed[i].contains(w)),
    )
}

/// Key `keys[ii]` is expanded and `k` is its deletion at a position already processed:
/// all of them for `ii < i`, those before `j` for `ii == i`.
spec fn fed(keys: Seq<Seq<char>>, i: int, j: int, ii: int, k: Seq<char>) -> bool {
    &&& 0 <= ii <= i
    &&& ii < keys.len()
    &&& keys[ii].len() > 2
    &&& exists|jj: int| 0 <= jj < keys[ii].len() && (ii < i || jj < j) && k == #[trigger] keys[ii].remove(jj)
}

/// The variant index `errors` is `base` with the processed deletions of `keys` merged in.
spec fn expansion_progress(
    errors: Map<Seq<char>, Seq<Seq<char>>>,
    base: Map<Seq<char>, Seq<Seq<char>>>,
    keys: Seq<Seq<char>>,
    cands: Seq<Seq<Seq<char>>>,
    i: int,
    j: int,
) -> bool {
    &&& forall|k: Seq<char>|
        #[trigger] errors.contains_key(k) <==> (base.contains_key(k)
            || exists|ii: int| fed(keys, i, j, ii, k))
    &&& forall|k: Seq<char>|
        #[trigger] errors.contains_key(k) ==> errors[k].to_set()
            == entry_or_empty(base, k).to_set().union(
        Set::new(|w: Seq<char>| exists|ii: int| fed(keys, i, j, ii, k) && cands[ii].contains(w)),
    )
}

/// The word index: known words with their scores, and the deletion-variant index that
/// maps each variant to the words it was derived from.
pub struct Dictionary {
    word_map: StringHashMap<Word>,
    word_keys: Vec<String>,
    error_map: StringHashMap<Vec<String>>,
    error_keys: Vec<String>,
    error_distance: u8,
}

impl Dictionary {
    /// The known words, each with its score.
    pub closed spec fn scores(&self) -> Map<Seq<char>, u64> {
        Map::new(|k: Seq<char>| self.word_map@.contains_key(k), |k: Seq<char>| self.word_map@[k].score)
    }

    /// The variant index: each variant with the list of words it stands for.
    pub closed spec fn errors(&self) -> Map<Seq<char>, Seq<Seq<char>>> {
        Map::new(
            |k: Seq<char>| self.error_map@.contains_key(k),
            |k: Seq<char>| views(self.error_map@[k]@),
        )
    }

    /// The number of deletions applied when indexing and when querying.
    pub closed spec fn distance(&self) -> nat {
        self.error_distance as nat
    }

    /// The internal consistency of the index.
    pub closed spec fn wf(&self) -> bool {
        &&& views(self.word_keys@).no_duplicates()
        &&& views(self.word_keys@).to_set() == self.word_map@.dom()
        &&& forall|k: Seq<char>| #[trigger]
            self.word_map@.contains_key(k) ==> self.word_map@[k].word@ == k
        &&& views(self.error_keys@).no_duplicates()
        &&& views(self.error_keys@).to_set() == self.error_map@.dom()
        &&& forall|k: Seq<char>| #[trigger]
            self.error_map@.contains_key(k) ==> {
                let c = views(self.error_map@[k]@);
                &&& c.len() > 0
                &&& c.no_duplicates()
                &&& all_known(self.scores(), c)
                &&& all_derive(c, k)
            }
    }

    /// What a single lookup of `s` yields: `s` itself if it is a known word, else the best
    /// candidate indexed under `s`, else nothing.
    pub closed spec fn resolve(&self, s: Seq<char>) -> Option<Seq<char>> {
        if self.scores().contains_key(s) {
            Some(s)
        } else if self.errors().contains_key(s) {
            Some(best_of(self.scores(), self.errors()[s]))
        } else {
            None
        }
    }

    pub fn new() -> (r: Dictionary)
        ensures
            r.wf(),
            r.scores() == Map::<Seq<char>, u64>::empty(),
            r.errors() == Map::<Seq<char>, Seq<Seq<char>>>::empty(),
            r.distance() == DEFAULT_ERROR_DISTANCE as nat,
    {
        let r = Dictionary {
            word_map: StringHashMap::new(),
            word_keys: Vec::new(),
            error_map: StringHashMap::new(),
            error_keys: Vec::new(),
            error_distance: DEFAULT_ERROR_DISTANCE,
        };
        assert(r.scores() =~= Map::empty());
        assert(r.errors() =~= Map::empty());
        assert(views(r.word_keys@) =~= Seq::empty());
        assert(views(r.error_keys@) =~= Seq::empty());
        assert(views(r.word_keys@).to_set() =~= r.word_map@.dom());
        assert(views(r.error_keys@).to_set() =~= r.error_map@.dom());
        r
    }

    /// The number of deletions applied when indexing and when querying.
    pub fn error_distance(&self) -> (r: u8)
        ensures
            r as nat == self.distance(),
    {
        self.error_distance
    }

    /// The score of `word`, if it is a known word.
    pub fn score(&self, word: &str) -> (r: Option<u64>)
        ensures
            r == (if self.scores().contains_key(word@) {
                Some(self.scores()[word@])
            } else {
                None
            }),
    {
        match self.word_map.get(word) {
            Some(w) => Some(w.score),
            None => None,
        }
    }

    /// The words indexed under the variant `key`, in their stored order.
    pub fn candidates(&self, key: &str) -> (r: Option<Vec<String>>)
        ensures
            match r {
                Some(v) => self.errors().contains_key(key@) && views(v@) == self.errors()[key@],
                None => !self.errors().contains_key(key@),
            },
    {
        match self.error_map.get(key) {
            Some(c) => Some(copy_strings(c)),
            None => None,
        }
    }

    /// Stores `w` as the entry of its own text, which is a new or a known word.
    fn put_word(&mut self, w: Word)
        requires
            old(self).wf(),
        ensures
            final(self).wf(),
            final(self).scores() == old(self).scores().insert(w.word@, w.score),
            final(self).errors() == old(self).errors(),
            final(self).distance() == old(self).distance(),
    {
        let ghost old_scores = self.scores();
        let ghost k = w.word@;
        if !self.word_map.contains_key(w.word.as_str()) {
            let key = w.word.clone();
            proof {
                assert(!views(self.word_keys@).contains(k));
                lemma_push_fresh(views(self.word_keys@), k);
                assert(views(self.word_keys@.push(key)) =~= views(self.word_keys@).push(k));
            }
            self.word_keys.push(key);
        }
        self.word_map.insert(w.word.clone(), w);
        proof {
            assert(self.word_map@.dom() =~= old(self).word_map@.dom().insert(k));
            assert(views(self.word_keys@).to_set() =~= self.word_map@.dom());
            assert(self.scores() =~= old_scores.insert(k, self.word_map@[k].score));
            assert(self.errors() =~= old(self).errors());
            assert forall|e: Seq<char>| #[trigger] self.error_map@.contains_key(e) implies all_known(
                self.scores(),
                views(self.error_map@[e]@),
            ) by {
                assert(all_known(old_scores, views(self.error_map@[e]@)));
            }
        }
    }

    /// Adds one occurrence of `word`: a known word's score goes up by one (saturating at
    /// the largest score), a new word gets score one. The variant index is left as it is.
    pub fn insert(&mut self, word: &str)
        requires
            old(self).wf(),
        ensures
            final(self).wf(),
            final(self).scores() == old(self).scores().insert(
                word@,
                score_after_insert(old(self).scores(), word@),
            ),
            final(self).errors() == old(self).errors(),
            final(self).distance() == old(self).distance(),
    {
        let next = match self.word_map.get(word) {
            Some(x) => {
                if x.score < u64::MAX {
                    x.score + 1
                } else {
                    x.score
                }
            },
            None => 1,
        };
        self.put_word(Word::new(word, next));
    }

    /// Adds `word` and sets its score to exactly `count`.
    pub fn insert_with_count(&mut self, word: &str, count: u64)
        requires
            old(self).wf(),
        ensures
            final(self).wf(),
            final(self).scores() == old(self).scores().insert(word@, count),
            final(self).errors() == old(self).errors(),
            final(self).distance() == old(self).distance(),
    {
        self.insert(word);
        self.put_word(Word::new(word, count));
        assert(self.scores() =~= old(self).scores().insert(word@, count));
    }

    /// Merges `cands` into the candidate list stored under `key`, creating it if absent.
    fn merge_into_entry(&mut self, key: String, cands: &Vec<String>)
        requires
            old(self).wf(),
            cands.len() > 0,
            all_known(old(self).scores(), views(cands@)),
            all_derive(views(cands@), key@),
        ensures
            final(self).wf(),
            final(self).scores() == old(self).scores(),
            final(self).errors() == old(self).errors().insert(
                key@,
                merge_all(entry_or_empty(old(self).errors(), key@), views(cands@)),
            ),
            final(self).distance() == old(self).distance(),
    {
        let ghost start = entry_or_empty(self.errors(), key@);
        let fresh = !self.error_map.contains_key(key.as_str());
        let mut c: Vec<String> = match self.error_map.get(key.as_str()) {
            Some(v) => copy_strings(v),
            None => Vec::new(),
        };
        assert(views(c@) == start);
        proof {
            if !fresh {
                assert(start.no_duplicates() && all_known(self.scores(), start) && all_derive(start, key@));
            }
        }
        let mut i: usize = 0;
        while i < cands.len()
            invariant
                i <= cands.len(),
                views(c@) == merge_all(start, views(cands@).subrange(0, i as int)),
                views(c@).no_duplicates(),
                all_known(self.scores(), views(c@)),
                all_known(self.scores(), views(cands@)),
                all_derive(views(c@), key@),
                all_derive(views(cands@), key@),
                i > 0 ==> views(c@).len() > 0,
            decreases cands.len() - i,
        {
            let ghost before = views(c@);
            let t = cands[i].clone();
            proof {
                assert(views(cands@)[i as int] == t@);
                lemma_push_new_keeps(before, t@);
            }
            push_new(&mut c, t);
            proof {
                let pre = views(cands@).subrange(0, i + 1);
                assert(pre.drop_last() =~= views(cands@).subrange(0, i as int));
                assert(pre.last() == t@);
                assert forall|j: int| 0 <= j < views(c@).len() implies self.scores().contains_key(
                    #[trigger] views(c@)[j],
                ) && derives(views(c@)[j], key@) by {
                    if j < before.len() {
                        assert(views(c@)[j] == before[j]);
                    }
                }
            }
            i += 1;
        }
        assert(views(cands@).subrange(0, cands.len() as int) =~= views(cands@));
        let ghost old_errors = self.errors();
        let ghost old_scores = self.scores();
        if fresh {
            proof {
                assert(!views(self.error_keys@).contains(key@));
                lemma_push_fresh(views(self.error_keys@), key@);
                assert(views(self.error_keys@.push(key)) =~= views(self.error_keys@).push(key@));
            }
            self.error_keys.push(key.clone());
        }
        let ghost cv = views(c@);
        self.error_map.insert(key, c);
        proof {
            assert(self.error_map@.dom() =~= old(self).error_map@.dom().insert(key@));
            assert(views(self.error_keys@).to_set() =~= self.error_map@.dom());
            assert(self.errors() =~= old_errors.insert(key@, cv));
            assert(self.scores() =~= old_scores);
        }
    }

    /// Indexes `word`, a known word, under each of its deletion variants, keeping the words
    /// already indexed there.
    pub fn add_permutations(&mut self, word: &str)
        requires
            old(self).wf(),
            old(self).scores().contains_key(word@),
        ensures
            final(self).wf(),
            final(self).scores() == old(self).scores(),
            final(self).errors() == with_candidate(
                old(self).errors(),
                variants(word@, old(self).distance()),
                word@,
            ),
            final(self).distance() == old(self).distance(),
    {
        let keys = self.permutations_of(word);
        let mut one: Vec<String> = Vec::new();
        one.push(word.to_owned());
        assert(views(one@) =~= seq![word@]);
        let mut i: usize = 0;
        while i < keys.len()
            invariant
                i <= keys.len(),
                views(keys@).no_duplicates(),
                views(keys@).to_set() == variants(word@, old(self).distance()),
                views(one@) == seq![word@],
                one.len() == 1,
                self.wf(),
                self.scores() == old(self).scores(),
                self.scores().contains_key(word@),
                self.distance() == old(self).distance(),
                self.errors() == with_candidate(
                    old(self).errors(),
                    views(keys@).subrange(0, i as int).to_set(),
                    word@,
                ),
            decreases keys.len() - i,
        {
            let ghost before = self.errors();
            let ghost done = views(keys@).subrange(0, i as int).to_set();
            let ghost k = keys[i as int]@;
            proof {
                assert(views(keys@)[i as int] == k);
                assert(!done.contains(k)) by {
                    if done.contains(k) {
                        let j = choose|j: int| 0 <= j < i && views(keys@).subrange(0, i as int)[j] == k;
                        assert(views(keys@)[j] == views(keys@)[i as int]);
                    }
                }
                assert(all_known(self.scores(), views(one@)));
                assert(views(keys@).contains(k));
                assert(views(keys@).to_set().contains(k));
                assert(within(word@, self.distance()).contains(k));
                assert(derives(word@, k));
                assert(all_derive(views(one@), k));
            }
            self.merge_into_entry(keys[i].clone(), &one);
            proof {
                let d2 = views(keys@).subrange(0, i + 1).to_set();
                assert(views(keys@).subrange(0, i + 1) =~= views(keys@).subrange(0, i as int).push(k));
                lemma_seq_push_to_set(views(keys@).subrange(0, i as int), k);
                assert(d2 == done.insert(k));
                assert(merge_all(entry_or_empty(before, k), seq![word@]) == merge_candidate(
                    entry_or_empty(before, k),
                    word@,
                )) by {
                    assert(seq![word@].drop_last() =~= Seq::<Seq<char>>::empty());
                    assert(merge_all(entry_or_empty(before, k), Seq::<Seq<char>>::empty()) == entry_or_empty(before, k));
                }
                assert(entry_or_empty(before, k) == entry_or_empty(old(self).errors(), k));
                assert(self.errors() =~= with_candidate(old(self).errors(), d2, word@));
            }
            i += 1;
        }
        assert(views(keys@).subrange(0, keys.len() as int) =~= views(keys@));
    }

    /// Adds one occurrence of `word`, as `insert` does, and indexes it under its deletion
    /// variants.
    pub fn insert_with_permutations(&mut self, word: &str)
        requires
            old(self).wf(),
        ensures
            final(self).wf(),
            final(self).scores() == old(self).scores().insert(
                word@,
                score_after_insert(old(self).scores(), word@),
            ),
            final(self).errors() == with_candidate(
                old(self).errors(),
                variants(word@, old(self).distance()),
                word@,
            ),
            final(self).distance() == old(self).distance(),
    {
        self.insert(word);
        self.add_permutations(word);
    }

    /// Adds `word` with score exactly `count` and indexes it under its deletion variants.
    pub fn insert_with_permutations_and_count(&mut self, word: &str, count: u64)
        requires
            old(self).wf(),
        ensures
            final(self).wf(),
            final(self).scores() == old(self).scores().insert(word@, count),
            final(self).errors() == with_candidate(
                old(self).errors(),
                variants(word@, old(self).distance()),
                word@,
            ),
            final(self).distance() == old(self).distance(),
    {
        self.insert_with_count(word, count);
        self.add_permutations(word);
    }

    /// `word` with one character removed, once for each position.
    pub fn generate_permutations(&self, word: &str) -> (r: Vec<String>)
        ensures
            r.len() == word@.len(),
            forall|i: int| 0 <= i < r.len() ==> #[trigger] r[i]@ == word@.remove(i),
            views(r@).to_set() == deletions(word@),
    {
        let r = single_deletions(word);
        assert(views(r@).to_set() =~= deletions(word@)) by {
            assert forall|t| views(r@).to_set().contains(t) implies deletions(word@).contains(t) by {
                let i = choose|i: int| 0 <= i < views(r@).len() && views(r@)[i] == t;
                assert(r[i]@ == t);
            }
            assert forall|t| deletions(word@).contains(t) implies views(r@).to_set().contains(t) by {
                let i = choose|i: int| 0 <= i < word@.len() && t == word@.remove(i);
                assert(views(r@)[i] == t);
            }
        }
        r
    }

    /// The deletion variants of `word` at this dictionary's distance, each once.
    pub fn permutations_of(&self, word: &str) -> (r: Vec<String>)
        ensures
            views(r@).no_duplicates(),
            views(r@).to_set() == variants(word@, self.distance()),
    {
        deletion_variants(word, self.error_distance)
    }

    fn best_index(&self, c: &Vec<String>) -> (r: Result<usize, DictError>)
        ensures
            match r {
                Ok(j) => c.len() > 0 && all_known(self.scores(), views(c@)) && is_best(
                    self.scores(),
                    views(c@),
                    j as int,
                ),
                Err(e) => e == (if c.len() == 0 {
                    DictError::EmptyCandidates
                } else {
                    DictError::UnknownCandidate
                }) && (c.len() == 0 || !all_known(self.scores(), views(c@))),
            },
    {
        let ghost cv = views(c@);
        let ghost sc = self.scores();
        if c.len() == 0 {
            return Err(DictError::EmptyCandidates);
        }
        let mut max: u64 = match self.word_map.get(c[0].as_str()) {
            Some(w) => w.score,
            None => {
                assert(!sc.contains_key(cv[0]));
                return Err(DictError::UnknownCandidate);
            },
        };
        let mut best: usize = 0;
        let mut i: usize = 1;
        while i < c.len()
            invariant
                cv == views(c@),
                sc == self.scores(),
                1 <= i <= c.len(),
                best < i,
                sc.contains_key(cv[best as int]),
                max == sc[cv[best as int]],
                forall|k: int| 0 <= k < i ==> sc.contains_key(#[trigger] cv[k]) && sc[cv[k]] <= max,
                forall|k: int| 0 <= k < best ==> sc[#[trigger] cv[k]] < max,
            decreases c.len() - i,
        {
            match self.word_map.get(c[i].as_str()) {
                Some(w) => {
                    assert(cv[i as int] == c@[i as int]@);
                    if w.score > max {
                        best = i;
                        max = w.score;
                    }
                },
                None => {
                    assert(cv[i as int] == c@[i as int]@);
                    assert(!sc.contains_key(cv[i as int]));
                    return Err(DictError::UnknownCandidate);
                },
            }
            i += 1;
        }
        Ok(best)
    }

    /// The candidate of greatest score, the first of them where several share it; an error
    /// where `possibilities` is empty or holds a word that is not known.
    pub fn find_best_match(&self, possibilities: Vec<String>) -> (r: Result<String, DictError>)
        ensures
            match r {
                Ok(w) => possibilities.len() > 0 && all_known(self.scores(), views(possibilities@))
                    && w@ == best_of(self.scores(), views(possibilities@)),
                Err(e) => e == (if possibilities.len() == 0 {
                    DictError::EmptyCandidates
                } else {
                    DictError::UnknownCandidate
                }) && (possibilities.len() == 0 || !all_known(
                    self.scores(),
                    views(possibilities@),
                )),
            },
    {
        match self.best_index(&possibilities) {
            Ok(j) => {
                proof {
                    lemma_best_unique(self.scores(), views(possibilities@), j as int);
                }
                Ok(possibilities[j].clone())
            },
            Err(e) => Err(e),
        }
    }

    /// A single lookup of `s`, as `resolve` describes it.
    fn find(&self, s: &str) -> (r: Option<String>)
        requires
            self.wf(),
        ensures
            match r {
                Some(x) => self.resolve(s@) == Some(x@),
                None => self.resolve(s@) is None,
            },
    {
        if let Some(w) = self.word_map.get(s) {
            assert(self.scores().contains_key(s@));
            return Some(w.word.clone());
        }
        if let Some(c) = self.error_map.get(s) {
            assert(self.errors().contains_key(s@));
            if c.len() > 1 {
                match self.best_index(c) {
                    Ok(j) => {
                        proof {
                            lemma_best_unique(self.scores(), views(c@), j as int);
                        }
                        Some(c[j].clone())
                    },
                    Err(_) => None,
                }
            } else {
                proof {
                    let cv = views(c@);
                    assert(is_best(self.scores(), cv, 0));
                    lemma_best_unique(self.scores(), cv, 0);
                }
                Some(c[0].clone())
            }
        } else {
            None
        }
    }

    /// The correction for `query`: `query` itself when it is a known word, else the best
    /// word indexed under it; failing both, the first string of the fallback search pool
    /// around `query` that a lookup resolves, and nothing when none of them does.
    pub fn check(&self, query: &str) -> (r: Option<String>)
        requires
            self.wf(),
        ensures
            self.scores().contains_key(query@) ==> r is Some && r->0@ == query@,
            self.resolve(query@) is Some ==> r is Some && self.resolve(query@) == Some(r->0@),
            r is Some ==> exists|p: Seq<char>|
                #[trigger] search_pool(query@, self.distance()).contains(p) && self.resolve(p)
                    == Some(r->0@),
            r is None <==> forall|p: Seq<char>|
                #[trigger] search_pool(query@, self.distance()).contains(p) ==> self.resolve(
                    p,
                ) is None,
    {
        let ghost q = query@;
        let ghost d = self.distance();
        let ghost pool = search_pool(q, d);
        if let Some(x) = self.find(query) {
            assert(pool_step(q, d, q, q));
            assert(pool.contains(q));
            return Some(x);
        }
        let near = self.permutations_of(query);
        let mut i: usize = 0;
        while i < near.len()
            invariant
                self.wf(),
                q == query@,
                d == self.distance(),
                pool == search_pool(q, d),
                i <= near.len(),
                views(near@).to_set() == variants(q, d),
                self.resolve(q) is None,
                forall|k: int| 0 <= k < i ==> self.resolve(#[trigger] views(near@)[k]) is None,
            decreases near.len() - i,
        {
            if let Some(x) = self.find(near[i].as_str()) {
                proof {
                    let p = near@[i as int]@;
                    assert(views(near@)[i as int] == p);
                    assert(variants(q, d).contains(p));
                    assert(pool_step(q, d, p, p));
                    assert(pool.contains(p));
                }
                return Some(x);
            }
            assert(views(near@)[i as int] == near@[i as int]@);
            i += 1;
        }
        let mut i: usize = 0;
        while i < near.len()
            invariant
                self.wf(),
                q == query@,
                d == self.distance(),
                pool == search_pool(q, d),
                i <= near.len(),
                views(near@).to_set() == variants(q, d),
                self.resolve(q) is None,
                forall|k: int| 0 <= k < near.len() ==> self.resolve(#[trigger] views(near@)[k]) is None,
                forall|k: int, t: Seq<char>|
                    0 <= k < i && #[trigger] variants(views(near@)[k], d).contains(t)
                        ==> self.resolve(t) is None,
            decreases near.len() - i,
        {
            let far = self.permutations_of(near[i].as_str());
            let ghost s = near@[i as int]@;
            assert(views(near@)[i as int] == s);
            assert(variants(q, d).contains(s)) by {
                assert(views(near@).contains(s));
            }
            let mut j: usize = 0;
            while j < far.len()
                invariant
                    self.wf(),
                    q == query@,
                    d == self.distance(),
                    pool == search_pool(q, d),
                    variants(q, d).contains(s),
                    self.resolve(q) is None,
                    j <= far.len(),
                    views(far@).to_set() == variants(s, d),
                    forall|k: int| 0 <= k < j ==> self.resolve(#[trigger] views(far@)[k]) is None,
                decreases far.len() - j,
            {
                if let Some(x) = self.find(far[j].as_str()) {
                    proof {
                        let t = far@[j as int]@;
                        assert(views(far@)[j as int] == t);
                        assert(variants(s, d).contains(t));
                        assert(variants(q, d).contains(s));
                        assert(pool_step(q, d, s, t));
                        assert(pool.contains(t));
                    }
                    return Some(x);
                }
                assert(views(far@)[j as int] == far@[j as int]@);
                j += 1;
            }
            proof {
                assert forall|k: int, t: Seq<char>|
                    0 <= k < i + 1 && #[trigger] variants(views(near@)[k], d).contains(t)
                        implies self.resolve(t) is None by {
                    if k == i {
                        let jj = choose|jj: int| 0 <= jj < views(far@).len() && views(far@)[jj] == t;
                    }
                }
            }
            i += 1;
        }
        proof {
            assert forall|p: Seq<char>| #[trigger] pool.contains(p) implies self.resolve(p) is None by {
                let s = choose|s: Seq<char>| pool_step(q, d, s, p);
                if s == q {
                    if p != s {
                        let k = choose|k: int| 0 <= k < views(near@).len() && views(near@)[k] == p;
                    }
                } else {
                    let k = choose|k: int| 0 <= k < views(near@).len() && views(near@)[k] == s;
                }
            }
        }
        None
    }

    /// The index that `generate_errors` reads, as parallel lists of keys and candidates.
    fn expansion_snapshot(&self) -> (r: (Vec<String>, Vec<Vec<String>>))
        requires
            self.wf(),
        ensures
            r.0.len() == r.1.len(),
            views(r.0@).no_duplicates(),
            views(r.0@).to_set() == expansion_seed(self.scores(), self.errors()).dom(),
            forall|i: int|
                0 <= i < r.0.len() ==> views(#[trigger] r.1@[i]@) == expansion_seed(
                    self.scores(),
                    self.errors(),
                )[views(r.0@)[i]] && r.1@[i].len() > 0 && all_known(self.scores(), views(r.1@[i]@))
                    && all_derive(views(r.1@[i]@), views(r.0@)[i]),
    {
        let ghost seed = expansion_seed(self.scores(), self.errors());
        let mut keys: Vec<String> = Vec::new();
        let mut cands: Vec<Vec<String>> = Vec::new();
        if self.error_keys.len() == 0 {
            assert(self.errors().dom() =~= Set::<Seq<char>>::empty()) by {
                assert(views(self.error_keys@) =~= Seq::<Seq<char>>::empty());
            }
            assert(seed.dom() =~= self.word_map@.dom());
            let mut i: usize = 0;
            while i < self.word_keys.len()
                invariant
                    self.wf(),
                    seed == expansion_seed(self.scores(), self.errors()),
                    seed.dom() == self.word_map@.dom(),
                    self.errors().dom() == Set::<Seq<char>>::empty(),
                    i <= self.word_keys.len(),
                    keys.len() == i,
                    cands.len() == i,
                    views(keys@) == views(self.word_keys@).subrange(0, i as int),
                    forall|ii: int|
                        0 <= ii < i ==> views(#[trigger] cands@[ii]@) == seed[views(keys@)[ii]]
                            && cands@[ii].len() > 0 && all_known(self.scores(), views(cands@[ii]@))
                            && all_derive(views(cands@[ii]@), views(keys@)[ii]),
                decreases self.word_keys.len() - i,
            {
                let k = self.word_keys[i].clone();
                let mut one: Vec<String> = Vec::new();
                one.push(k.clone());
                proof {
                    assert(views(one@) =~= seq![k@]);
                    assert(views(self.word_keys@)[i as int] == k@);
                    assert(views(self.word_keys@).to_set().contains(k@));
                    assert(self.scores().contains_key(k@));
                    assert(within(k@, 0).contains(k@));
                    assert(all_derive(views(one@), k@));
                }
                let ghost kb = keys@;
                keys.push(k);
                cands.push(one);
                proof {
                    assert(views(keys@) =~= views(self.word_keys@).subrange(0, i + 1));
                    assert forall|ii: int|
                        0 <= ii < i + 1 implies views(#[trigger] cands@[ii]@) == seed[views(keys@)[ii]]
                            && cands@[ii].len() > 0 && all_known(self.scores(), views(cands@[ii]@))
                            && all_derive(views(cands@[ii]@), views(keys@)[ii]) by {
                        if ii < i {
                            assert(views(keys@)[ii] == views(kb)[ii]);
                        }
                    }
                }
                i += 1;
            }
            assert(views(self.word_keys@).subrange(0, i as int) =~= views(self.word_keys@));
        } else {
            assert(seed == self.errors()) by {
                assert(self.errors().contains_key(views(self.error_keys@)[0]));
            }
            let mut i: usize = 0;
            while i < self.error_keys.len()
                invariant
                    self.wf(),
                    seed == self.errors(),
                    i <= self.error_keys.len(),
                    keys.len() == i,
                    cands.len() == i,
                    views(keys@) == views(self.error_keys@).subrange(0, i as int),
                    forall|ii: int|
                        0 <= ii < i ==> views(#[trigger] cands@[ii]@) == seed[views(keys@)[ii]]
                            && cands@[ii].len() > 0 && all_known(self.scores(), views(cands@[ii]@))
                            && all_derive(views(cands@[ii]@), views(keys@)[ii]),
                decreases self.error_keys.len() - i,
            {
                let ghost kb = keys@;
                proof {
                    assert(views(self.error_keys@)[i as int] == self.error_keys@[i as int]@);
                    assert(views(self.error_keys@).to_set().contains(self.error_keys@[i as int]@));
                }
                if let Some(c) = self.error_map.get(self.error_keys[i].as_str()) {
                    let k = self.error_keys[i].clone();
                    let cc = copy_strings(c);
                    proof {
                        assert(self.errors().contains_key(k@));
                    }
                    keys.push(k);
                    cands.push(cc);
                    proof {
                        assert(views(keys@) =~= views(self.error_keys@).subrange(0, i + 1));
                        assert forall|ii: int|
                            0 <= ii < i + 1 implies views(#[trigger] cands@[ii]@) == seed[views(keys@)[ii]]
                                && cands@[ii].len() > 0 && all_known(self.scores(), views(cands@[ii]@))
                            && all_derive(views(cands@[ii]@), views(keys@)[ii]) by {
                            if ii < i {
                                assert(views(keys@)[ii] == views(kb)[ii]);
                            }
                        }
                    }
                }
                i += 1;
            }
            assert(views(self.error_keys@).subrange(0, i as int) =~= views(self.error_keys@));
            assert(self.error_map@.dom() =~= self.errors().dom());
        }
        (keys, cands)
    }

    /// Expands the variant index by one deletion level. It reads the index as it stands, or,
    /// where that is empty, every known word indexed under itself; for each key of more than
    /// two characters it merges the key's candidates into the entry of each of the key's
    /// single deletions, creating entries as needed. The order of candidates within an
    /// entry is left open.
    pub fn generate_errors(&mut self)
        requires
            old(self).wf(),
        ensures
            final(self).wf(),
            final(self).scores() == old(self).scores(),
            final(self).distance() == old(self).distance(),
            forall|k: Seq<char>|
                #[trigger] final(self).errors().contains_key(k) <==> (old(self).errors().contains_key(k)
                    || exists|i: Seq<char>|
                    feeds(expansion_seed(old(self).scores(), old(self).errors()), i, k)),
            forall|k: Seq<char>|
                #[trigger] final(self).errors().contains_key(k) ==> final(self).errors()[k].to_set()
                    == expanded_candidates(
                    expansion_seed(old(self).scores(), old(self).errors()),
                    old(self).errors(),
                    k,
                ),
    {
        let ghost seed = expansion_seed(self.scores(), self.errors());
        let ghost base = self.errors();
        let (keys, cands) = self.expansion_snapshot();
        let ghost kv = views(keys@);
        let ghost cv = cands@.map_values(|c: Vec<String>| views(c@));
        proof {
            assert(expansion_progress(self.errors(), base, kv, cv, 0, 0)) by {
                assert forall|k: Seq<char>| #[trigger] self.errors().contains_key(k) implies self.errors()[k].to_set()
                    == entry_or_empty(base, k).to_set().union(
                    Set::new(|w: Seq<char>| exists|ii: int| fed(kv, 0, 0, ii, k) && cv[ii].contains(w)),
                ) by {
                    assert(self.errors()[k].to_set() =~= entry_or_empty(base, k).to_set().union(
                        Set::new(|w: Seq<char>| exists|ii: int| fed(kv, 0, 0, ii, k) && cv[ii].contains(w))));
                }
            }
        }
        let ghost sc = self.scores();
        assert forall|ii: int| 0 <= ii < kv.len() implies #[trigger] cv[ii].len() > 0
            && all_known(sc, cv[ii]) && all_derive(cv[ii], kv[ii]) by {
            assert(cv[ii] == views(cands@[ii]@));
        }
        let mut i: usize = 0;
        while i < keys.len()
            invariant
                self.wf(),
                self.scores() == old(self).scores(),
                self.distance() == old(self).distance(),
                keys.len() == cands.len(),
                kv == views(keys@),
                cv == cands@.map_values(|c: Vec<String>| views(c@)),
                sc == old(self).scores(),
                forall|ii: int|
                    0 <= ii < kv.len() ==> #[trigger] cv[ii].len() > 0 && all_known(sc, cv[ii])
                        && all_derive(cv[ii], kv[ii]),
                i <= keys.len(),
                expansion_progress(self.errors(), base, kv, cv, i as int, 0),
            decreases keys.len() - i,
        {
            let key = keys[i].as_str();
            let n = key.unicode_len();
            let ghost ki = kv[i as int];
            assert(ki == keys@[i as int]@);
            if n > 2 {
                let dels = single_deletions(key);
                let mut j: usize = 0;
                while j < dels.len()
                    invariant
                        self.wf(),
                        self.scores() == old(self).scores(),
                        self.distance() == old(self).distance(),
                        keys.len() == cands.len(),
                        kv == views(keys@),
                        cv == cands@.map_values(|c: Vec<String>| views(c@)),
                        sc == old(self).scores(),
                forall|ii: int|
                    0 <= ii < kv.len() ==> #[trigger] cv[ii].len() > 0 && all_known(sc, cv[ii])
                        && all_derive(cv[ii], kv[ii]),
                        i < keys.len(),
                        ki == kv[i as int],
                        ki.len() > 2,
                        dels.len() == ki.len(),
                        forall|jj: int| 0 <= jj < dels.len() ==> #[trigger] dels[jj]@ == ki.remove(jj),
                        j <= dels.len(),
                        expansion_progress(self.errors(), base, kv, cv, i as int, j as int),
                    decreases dels.len() - j,
                {
                    let ghost before = self.errors();
                    let ghost t = dels[j as int]@;
                    proof {
                        assert(cv[i as int] == views(cands@[i as int]@));
                        assert(cv[i as int].len() > 0);
                        assert(deletions(ki).contains(t));
                        assert forall|m: int| 0 <= m < cv[i as int].len() implies derives(#[trigger] cv[i as int][m], t) by {
                            lemma_derives_step(cv[i as int][m], ki, t);
                        }
                    }
                    self.merge_into_entry(dels[j].clone(), &cands[i]);
                    proof {
                        lemma_expansion_step(before, self.errors(), base, kv, cv, i as int, j as int, t);
                    }
                    j += 1;
                }
                proof {
                    lemma_expansion_next_key(self.errors(), base, kv, cv, i as int, j as int);
                }
            } else {
                proof {
                    lemma_expansion_next_key(self.errors(), base, kv, cv, i as int, 0);
                }
            }
            i += 1;
        }
        proof {
            lemma_expansion_done(self.errors(), seed, base, kv, cv, keys.len() as int);
        }
    }

    /// A known word resolves to itself, whatever the variant index holds.
    pub proof fn lemma_exact_match_priority(&self, w: Seq<char>)
        requires
            self.scores().contains_key(w),
        ensures
            self.resolve(w) == Some(w),
    {
    }

    /// In a dictionary with no words and no variants, no string of the search pool of any
    /// query resolves, so a query finds no match.
    pub proof fn lemma_empty_finds_nothing(&self, q: Seq<char>)
        requires
            self.scores() == Map::<Seq<char>, u64>::empty(),
            self.errors() == Map::<Seq<char>, Seq<Seq<char>>>::empty(),
        ensures
            forall|p: Seq<char>| #[trigger] search_pool(q, self.distance()).contains(p) ==> self.resolve(p) is None,
    {
    }

    /// What a lookup in the search pool around `q` finds is a known word from which the
    /// string looked up derives by deletions; that string lies within twice the distance
    /// of deletions from `q`.
    pub proof fn lemma_match_is_related(&self, q: Seq<char>, p: Seq<char>)
        requires
            self.wf(),
            search_pool(q, self.distance()).contains(p),
            self.resolve(p) is Some,
        ensures
            self.scores().contains_key(self.resolve(p)->0),
            derives(self.resolve(p)->0, p),
            within(q, 2 * self.distance()).contains(p),
    {
        lemma_search_pool_radius(q, self.distance(), p);
        if self.scores().contains_key(p) {
            assert(within(p, 0).contains(p));
        } else {
            let c = self.errors()[p];
            assert(c == views(self.error_map@[p]@));
            lemma_best_exists(self.scores(), c);
            let j = choose|j: int| is_best(self.scores(), c, j);
            assert(all_derive(c, p));
            assert(derives(c[j], p));
        }
    }

    /// A query none of whose strings within twice the distance of deletions derives from a
    /// known word resolves nothing in its search pool, so `check` finds no match for it.
    pub proof fn lemma_unrelated_query_finds_nothing(&self, q: Seq<char>)
        requires
            self.wf(),
            forall|p: Seq<char>, w: Seq<char>|
                within(q, 2 * self.distance()).contains(p) && #[trigger] self.scores().contains_key(w)
                    ==> !#[trigger] derives(w, p),
        ensures
            forall|p: Seq<char>| #[trigger] search_pool(q, self.distance()).contains(p) ==> self.resolve(p) is None,
    {
        assert forall|p: Seq<char>|
            #[trigger] search_pool(q, self.distance()).contains(p) implies self.resolve(p) is None by {
            if self.resolve(p) is Some {
                self.lemma_match_is_related(q, p);
            }
        }
    }
}

/// A copy of `v`, string by string.
fn copy_strings(v: &Vec<String>) -> (r: Vec<String>)
    ensures
        views(r@) == views(v@),
{
    let mut r: Vec<String> = Vec::new();
    let mut i: usize = 0;
    while i < v.len()
        invariant
            i <= v.len(),
            views(r@) == views(v@).subrange(0, i as int),
        decreases v.len() - i,
    {
        let ghost before = r@;
        let t = v[i].clone();
        r.push(t);
        assert(views(r@) =~= views(before).push(t@));
        assert(views(v@).subrange(0, i + 1) =~= views(v@).subrange(0, i as int).push(v@[i as int]@));
        i += 1;
    }
    assert(views(v@).subrange(0, v.len() as int) =~= views(v@));
    r
}

proof fn lemma_best_unique(scores: Map<Seq<char>, u64>, c: Seq<Seq<char>>, j: int)
    requires
        is_best(scores, c, j),
    ensures
        best_of(scores, c) == c[j],
{
    let k = choose|k: int| is_best(scores, c, k);
    if k < j {
        assert(scores[c[k]] < scores[c[j]]);
    } else if j < k {
        assert(scores[c[j]] < scores[c[k]]);
    }
}

/// `errors` is exactly the variant index of the words `words` at distance `d`: a key is
/// there if and only if it is a variant of one of them, and its candidates are, each once,
/// the words of which it is a variant.
pub open spec fn indexes_exactly(
    errors: Map<Seq<char>, Seq<Seq<char>>>,
    words: Set<Seq<char>>,
    d: nat,
) -> bool {
    &&& forall|k: Seq<char>| #[trigger] errors.contains_key(k) <==> exists|w: Seq<char>|
        words.contains(w) && #[trigger] variants(w, d).contains(k)
    &&& forall|k: Seq<char>| #[trigger] errors.contains_key(k) ==> errors[k].no_duplicates()
        && errors[k].to_set() == Set::new(|w: Seq<char>| words.contains(w) && variants(w, d).contains(k))
}

/// Indexing one more word keeps the index exact: every variant shared with words already
/// indexed keeps those words, gains the new one once, and gains nothing else.
pub proof fn lemma_merge_keeps_index_exact(
    errors: Map<Seq<char>, Seq<Seq<char>>>,
    words: Set<Seq<char>>,
    w: Seq<char>,
    d: nat,
)
    requires
        indexes_exactly(errors, words, d),
    ensures
        indexes_exactly(with_candidate(errors, variants(w, d), w), words.insert(w), d),
{
    let m = with_candidate(errors, variants(w, d), w);
    let ws = words.insert(w);
    assert forall|k: Seq<char>| #[trigger] m.contains_key(k) <==> exists|x: Seq<char>|
        ws.contains(x) && #[trigger] variants(x, d).contains(k) by {
        if exists|x: Seq<char>| ws.contains(x) && #[trigger] variants(x, d).contains(k) {
            let x = choose|x: Seq<char>| ws.contains(x) && #[trigger] variants(x, d).contains(k);
            if x != w {
                assert(errors.contains_key(k));
            }
        }
        if errors.contains_key(k) {
            let x = choose|x: Seq<char>| words.contains(x) && #[trigger] variants(x, d).contains(k);
            assert(ws.contains(x));
        }
        if variants(w, d).contains(k) {
            assert(ws.contains(w));
        }
    }
    assert forall|k: Seq<char>| #[trigger] m.contains_key(k) implies m[k].no_duplicates()
        && m[k].to_set() == Set::new(|x: Seq<char>| ws.contains(x) && variants(x, d).contains(k)) by {
        let target = Set::new(|x: Seq<char>| ws.contains(x) && variants(x, d).contains(k));
        let c = entry_or_empty(errors, k);
        assert(c.no_duplicates());
        assert(c.to_set() =~= Set::new(|x: Seq<char>| words.contains(x) && variants(x, d).contains(k))) by {
            if !errors.contains_key(k) {
                assert forall|x: Seq<char>| !(words.contains(x) && #[trigger] variants(x, d).contains(k)) by {}
            }
        }
        if variants(w, d).contains(k) {
            lemma_push_new_keeps(c, w);
            assert(m[k].to_set() =~= target);
        } else {
            assert(m[k].to_set() =~= target);
        }
    }
}

/// Every string of the search pool around `q` lies within `2 * d` deletions of `q`.
pub proof fn lemma_search_pool_radius(q: Seq<char>, d: nat, p: Seq<char>)
    requires
        search_pool(q, d).contains(p),
    ensures
        within(q, 2 * d).contains(p),
{
    let s = choose|s: Seq<char>| pool_step(q, d, s, p);
    assert(within(q, 0).contains(q));
    assert(within(s, 0).contains(s));
    crate::variants::lemma_within_grows(q, d, 0);
    crate::variants::lemma_within_grows(s, d, 0);
    assert(within(q, d).contains(s));
    assert(within(s, d).contains(p));
    lemma_within_trans(q, s, p, d, d);
    assert(d + d == 2 * d);
}

/// A non-empty candidate list has a best candidate.
proof fn lemma_best_exists(scores: Map<Seq<char>, u64>, c: Seq<Seq<char>>)
    requires
        c.len() > 0,
    ensures
        exists|j: int| is_best(scores, c, j),
    decreases c.len(),
{
    if c.len() == 1 {
        assert(is_best(scores, c, 0));
    } else {
        let a = c.drop_last();
        lemma_best_exists(scores, a);
        let j = choose|j: int| is_best(scores, a, j);
        assert(forall|i: int| 0 <= i < a.len() ==> a[i] == c[i]);
        if scores[c.last()] > scores[a[j]] {
            assert(is_best(scores, c, c.len() - 1));
        } else {
            assert(is_best(scores, c, j));
        }
    }
}

proof fn lemma_merge_all_set(c: Seq<Seq<char>>, n: Seq<Seq<char>>)
    requires
        c.no_duplicates(),
    ensures
        merge_all(c, n).no_duplicates(),
        merge_all(c, n).to_set() == c.to_set().union(n.to_set()),
    decreases n.len(),
{
    if n.len() == 0 {
        assert(n.to_set() =~= Set::<Seq<char>>::empty());
        assert(c.to_set().union(n.to_set()) =~= c.to_set());
    } else {
        lemma_merge_all_set(c, n.drop_last());
        lemma_push_new_keeps(merge_all(c, n.drop_last()), n.last());
        assert(n =~= n.drop_last().push(n.last()));
        lemma_seq_push_to_set(n.drop_last(), n.last());
        assert(c.to_set().union(n.to_set()) =~= c.to_set().union(n.drop_last().to_set()).insert(n.last()));
    }
}

/// One merge of the deletion `t = kv[i].remove(j)` moves the expansion from `(i, j)` to `(i, j + 1)`.
proof fn lemma_expansion_step(
    before: Map<Seq<char>, Seq<Seq<char>>>,
    after: Map<Seq<char>, Seq<Seq<char>>>,
    base: Map<Seq<char>, Seq<Seq<char>>>,
    kv: Seq<Seq<char>>,
    cv: Seq<Seq<Seq<char>>>,
    i: int,
    j: int,
    t: Seq<char>,
)
    requires
        0 <= i < kv.len(),
        kv.len() == cv.len(),
        kv[i].len() > 2,
        0 <= j < kv[i].len(),
        t == kv[i].remove(j),
        expansion_progress(before, base, kv, cv, i, j),
        forall|k: Seq<char>| #[trigger] before.contains_key(k) ==> before[k].no_duplicates(),
        after == before.insert(t, merge_all(entry_or_empty(before, t), cv[i])),
    ensures
        expansion_progress(after, base, kv, cv, i, j + 1),
{
    let j1 = j + 1;
    assert(entry_or_empty(before, t).no_duplicates());
    lemma_merge_all_set(entry_or_empty(before, t), cv[i]);
    assert(fed(kv, i, j1, i, t));
    assert forall|k: Seq<char>, ii: int| fed(kv, i, j1, ii, k) <==> (fed(kv, i, j, ii, k) || (ii == i && k == t)) by {
        if fed(kv, i, j1, ii, k) && !(ii == i && k == t) {
            let jj = choose|jj: int| 0 <= jj < kv[ii].len() && (ii < i || jj < j1) && k == #[trigger] kv[ii].remove(jj);
            if ii == i && jj == j {
            } else {
                assert(fed(kv, i, j, ii, k));
            }
        }
        if fed(kv, i, j, ii, k) {
            let jj = choose|jj: int| 0 <= jj < kv[ii].len() && (ii < i || jj < j) && k == #[trigger] kv[ii].remove(jj);
            assert(0 <= jj < kv[ii].len() && (ii < i || jj < j1) && k == kv[ii].remove(jj));
        }
    }
    assert forall|k: Seq<char>|
        #[trigger] after.contains_key(k) <==> (base.contains_key(k)
            || exists|ii: int| fed(kv, i, j1, ii, k)) by {
        if k == t {
            assert(fed(kv, i, j1, i, k));
        } else {
            if exists|ii: int| fed(kv, i, j1, ii, k) {
                let ii = choose|ii: int| fed(kv, i, j1, ii, k);
                assert(fed(kv, i, j, ii, k));
            }
            if exists|ii: int| fed(kv, i, j, ii, k) {
                let ii = choose|ii: int| fed(kv, i, j, ii, k);
                assert(fed(kv, i, j1, ii, k));
            }
        }
    }
    assert forall|k: Seq<char>| #[trigger]
        after.contains_key(k) implies after[k].to_set() == entry_or_empty(base, k).to_set().union(
        Set::new(|w: Seq<char>| exists|ii: int| fed(kv, i, j1, ii, k) && cv[ii].contains(w)),
    ) by {
        let s_new = Set::new(|w: Seq<char>| exists|ii: int| fed(kv, i, j1, ii, k) && cv[ii].contains(w));
        let s_old = Set::new(|w: Seq<char>| exists|ii: int| fed(kv, i, j, ii, k) && cv[ii].contains(w));
        if k == t {
            assert(s_new =~= s_old.union(cv[i].to_set())) by {
                assert forall|w| s_new.contains(w) implies s_old.union(cv[i].to_set()).contains(w) by {
                    let ii = choose|ii: int| fed(kv, i, j1, ii, k) && cv[ii].contains(w);
                    if !(ii == i) {
                        assert(fed(kv, i, j, ii, k));
                    }
                }
                assert forall|w| s_old.union(cv[i].to_set()).contains(w) implies s_new.contains(w) by {
                    if s_old.contains(w) {
                        let ii = choose|ii: int| fed(kv, i, j, ii, k) && cv[ii].contains(w);
                        assert(fed(kv, i, j1, ii, k));
                    } else {
                        assert(fed(kv, i, j1, i, k) && cv[i].contains(w));
                    }
                }
            }
            if before.contains_key(t) {
                assert(entry_or_empty(before, t) == before[t]);
            } else {
                assert(!base.contains_key(t));
                assert(s_old =~= Set::<Seq<char>>::empty()) by {
                    assert forall|w| !s_old.contains(w) by {
                        if s_old.contains(w) {
                            let ii = choose|ii: int| fed(kv, i, j, ii, k) && cv[ii].contains(w);
                        }
                    }
                }
                assert(entry_or_empty(before, t).to_set() =~= Set::<Seq<char>>::empty());
                assert(entry_or_empty(base, t).to_set() =~= Set::<Seq<char>>::empty());
            }
            assert(after[k].to_set() =~= entry_or_empty(base, k).to_set().union(s_new));
        } else {
            assert(s_new =~= s_old) by {
                assert forall|w| s_new.contains(w) implies s_old.contains(w) by {
                    let ii = choose|ii: int| fed(kv, i, j1, ii, k) && cv[ii].contains(w);
                    assert(fed(kv, i, j, ii, k));
                }
                assert forall|w| s_old.contains(w) implies s_new.contains(w) by {
                    let ii = choose|ii: int| fed(kv, i, j, ii, k) && cv[ii].contains(w);
                    assert(fed(kv, i, j1, ii, k));
                }
            }
            assert(before.contains_key(k));
        }
    }
}

/// Once every deletion of key `i` is merged (or it is too short to expand), key `i + 1` starts.
proof fn lemma_expansion_next_key(
    errors: Map<Seq<char>, Seq<Seq<char>>>,
    base: Map<Seq<char>, Seq<Seq<char>>>,
    kv: Seq<Seq<char>>,
    cv: Seq<Seq<Seq<char>>>,
    i: int,
    j: int,
)
    requires
        0 <= i < kv.len(),
        kv[i].len() > 2 ==> j == kv[i].len(),
        expansion_progress(errors, base, kv, cv, i, j),
    ensures
        expansion_progress(errors, base, kv, cv, i + 1, 0),
{
    let i1 = i + 1;
    assert forall|k: Seq<char>, ii: int| fed(kv, i1, 0, ii, k) <==> fed(kv, i, j, ii, k) by {
        if fed(kv, i1, 0, ii, k) {
            let jj = choose|jj: int| 0 <= jj < kv[ii].len() && (ii < i1 || jj < 0) && k == #[trigger] kv[ii].remove(jj);
            assert(0 <= jj < kv[ii].len() && (ii < i || jj < j) && k == kv[ii].remove(jj));
        }
        if fed(kv, i, j, ii, k) {
            let jj = choose|jj: int| 0 <= jj < kv[ii].len() && (ii < i || jj < j) && k == #[trigger] kv[ii].remove(jj);
            assert(0 <= jj < kv[ii].len() && (ii < i1 || jj < 0) && k == kv[ii].remove(jj));
        }
    }
    assert forall|k: Seq<char>| #[trigger]
        errors.contains_key(k) implies errors[k].to_set() == entry_or_empty(base, k).to_set().union(
        Set::new(|w: Seq<char>| exists|ii: int| fed(kv, i1, 0, ii, k) && cv[ii].contains(w)),
    ) by {
        assert(Set::new(|w: Seq<char>| exists|ii: int| fed(kv, i1, 0, ii, k) && cv[ii].contains(w)) =~=
            Set::new(|w: Seq<char>| exists|ii: int| fed(kv, i, j, ii, k) && cv[ii].contains(w)));
    }
}

/// With every key processed, the index is the one-level expansion of `base` from `seed`.
proof fn lemma_expansion_done(
    errors: Map<Seq<char>, Seq<Seq<char>>>,
    seed: Map<Seq<char>, Seq<Seq<char>>>,
    base: Map<Seq<char>, Seq<Seq<char>>>,
    kv: Seq<Seq<char>>,
    cv: Seq<Seq<Seq<char>>>,
    n: int,
)
    requires
        n == kv.len(),
        kv.len() == cv.len(),
        kv.to_set() == seed.dom(),
        forall|ii: int| 0 <= ii < n ==> #[trigger] cv[ii] == seed[kv[ii]],
        expansion_progress(errors, base, kv, cv, n, 0),
    ensures
        forall|k: Seq<char>| #[trigger] errors.contains_key(k) <==> (base.contains_key(k)
            || exists|i: Seq<char>| feeds(seed, i, k)),
        forall|k: Seq<char>| #[trigger] errors.contains_key(k) ==> errors[k].to_set()
            == expanded_candidates(seed, base, k),
{
    assert forall|k: Seq<char>| #[trigger] errors.contains_key(k) <==> (base.contains_key(k)
        || exists|i: Seq<char>| feeds(seed, i, k)) by {
        if exists|ii: int| fed(kv, n, 0, ii, k) {
            let ii = choose|ii: int| fed(kv, n, 0, ii, k);
            let jj = choose|jj: int| 0 <= jj < kv[ii].len() && (ii < n || jj < 0) && k == #[trigger] kv[ii].remove(jj);
            assert(kv.contains(kv[ii]));
            assert(feeds(seed, kv[ii], k));
        }
        if exists|i: Seq<char>| feeds(seed, i, k) {
            let i = choose|i: Seq<char>| feeds(seed, i, k);
            assert(kv.to_set().contains(i));
            let ii = choose|ii: int| 0 <= ii < kv.len() && kv[ii] == i;
            let jj = choose|jj: int| 0 <= jj < i.len() && k == i.remove(jj);
            assert(fed(kv, n, 0, ii, k));
        }
    }
    assert forall|k: Seq<char>| #[trigger] errors.contains_key(k) implies errors[k].to_set()
        == expanded_candidates(seed, base, k) by {
        let a = Set::new(|w: Seq<char>| exists|ii: int| fed(kv, n, 0, ii, k) && cv[ii].contains(w));
        let b = Set::new(|w: Seq<char>| exists|i: Seq<char>| #[trigger] feeds(seed, i, k) && seed[i].contains(w));
        assert(a =~= b) by {
            assert forall|w| a.contains(w) implies b.contains(w) by {
                let ii = choose|ii: int| fed(kv, n, 0, ii, k) && cv[ii].contains(w);
                let jj = choose|jj: int| 0 <= jj < kv[ii].len() && (ii < n || jj < 0) && k == #[trigger] kv[ii].remove(jj);
                assert(kv.contains(kv[ii]));
                assert(feeds(seed, kv[ii], k) && seed[kv[ii]].contains(w));
            }
            assert forall|w| b.contains(w) implies a.contains(w) by {
                let i = choose|i: Seq<char>| #[trigger] feeds(seed, i, k) && seed[i].contains(w);
                assert(kv.to_set().contains(i));
                let ii = choose|ii: int| 0 <= ii < kv.len() && kv[ii] == i;
                let jj = choose|jj: int| 0 <= jj < i.len() && k == i.remove(jj);
                assert(fed(kv, n, 0, ii, k) && cv[ii].contains(w));
            }
        }
    }
}

proof fn lemma_seq_push_to_set(a: Seq<Seq<char>>, t: Seq<char>)
    ensures
        a.push(t).to_set() == a.to_set().insert(t),
{
    assert(a.push(t).to_set() =~= a.to_set().insert(t)) by {
        assert forall|x| a.push(t).to_set().contains(x) implies a.to_set().insert(t).contains(x) by {
            let j = choose|j: int| 0 <= j < a.push(t).len() && a.push(t)[j] == x;
            if j < a.len() {
                assert(a[j] == x);
            }
        }
        assert forall|x| a.to_set().insert(t).contains(x) implies a.push(t).to_set().contains(x) by {
            if x == t {
                assert(a.push(t)[a.len() as int] == x);
            } else {
                let j = choose|j: int| 0 <= j < a.len() && a[j] == x;
                assert(a.push(t)[j] == x);
            }
        }
    }
}

proof fn lemma_push_new_keeps(a: Seq<Seq<char>>, t: Seq<char>)
    requires
        a.no_duplicates(),
    ensures
        merge_candidate(a, t).no_duplicates(),
        merge_candidate(a, t).len() > 0,
        merge_candidate(a, t).to_set() == a.to_set().insert(t),
{
    lemma_seq_push_to_set(a, t);
    if a.contains(t) {
        assert(a.to_set().insert(t) =~= a.to_set());
    } else {
        lemma_push_fresh(a, t);
    }
}

proof fn lemma_push_fresh(a: Seq<Seq<char>>, t: Seq<char>)
    requires
        a.no_duplicates(),
        !a.contains(t),
    ensures
        a.push(t).no_duplicates(),
        a.push(t).to_set() == a.to_set().insert(t),
{
    assert forall|i: int, j: int|
        0 <= i < a.push(t).len() && 0 <= j < a.push(t).len() && i != j implies a.push(t)[i]
        != a.push(t)[j] by {
        if i < a.len() && j < a.len() {
        } else if i < a.len() {
            assert(a[i] == a.push(t)[i]);
        } else {
            assert(a[j] == a.push(t)[j]);
        }
    }
    assert(a.push(t).to_set() =~= a.to_set().insert(t)) by {
        assert forall|x| a.push(t).to_set().contains(x) implies a.to_set().insert(t).contains(x) by {
            let j = choose|j: int| 0 <= j < a.push(t).len() && a.push(t)[j] == x;
            if j < a.len() {
                assert(a[j] == x);
            }
        }
        assert forall|x| a.to_set().insert(t).contains(x) implies a.push(t).to_set().contains(x) by {
            if x == t {
                assert(a.push(t)[a.len() as int] == x);
            } else {
                let j = choose|j: int| 0 <= j < a.len() && a[j] == x;
                assert(a.push(t)[j] == x);
            }
        }
    }
}

} // verus!
