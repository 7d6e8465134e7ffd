//! Scoring and ranking: each match scores the difference in phoneme count
//! against the query, and results are ordered by a stable ascending sort.

use vstd::prelude::*;
use crate::phoneme::copy_bytes;

verus! {

/// One raw match: the candidate word and its score. A lower score is a
/// closer match.
pub struct ScoredMatch {
    pub word: Vec<u8>,
    pub score: usize,
}

/// Ghost-level picture of a match.
pub struct MatchModel {
    pub word: Seq<u8>,
    pub score: int,
}

impl View for ScoredMatch {
    type V = MatchModel;

    open spec fn view(&self) -> MatchModel {
        MatchModel { word: self.word@, score: self.score as int }
    }
}

/// The ghost picture of a match list.
pub open spec fn matches_model(s: Seq<ScoredMatch>) -> Seq<MatchModel> {
    s.map_values(|m: ScoredMatch| m@)
}

/// The ghost picture of a word list.
pub open spec fn words_model(s: Seq<Vec<u8>>) -> Seq<Seq<u8>> {
    s.map_values(|w: Vec<u8>| w@)
}

pub open spec fn abs_diff(a: int, b: int) -> int {
    if a >= b {
        a - b
    } else {
        b - a
    }
}

/// A match scores the distance between the query's phoneme count and the
/// candidate's: zero for an equal count, growing as the counts diverge.
pub fn score(query_len: usize, candidate_len: usize) -> (r: usize)
    ensures
        r == abs_diff(query_len as int, candidate_len as int),
{
    if query_len >= candidate_len {
        query_len - candidate_len
    } else {
        candidate_len - query_len
    }
}

/// Insertion of one match into a score-sorted list: it lands after every
/// match of equal or lower score, so matches of equal score keep their
/// relative order — the sort built from this is stable.
pub open spec fn insert_sorted(x: MatchModel, s: Seq<MatchModel>) -> Seq<MatchModel>
    decreases s.len(),
{
    if s.len() == 0 {
        seq![x]
    } else if s[0].score <= x.score {
        seq![s[0]] + insert_sorted(x, s.drop_first())
    } else {
        seq![x] + s
    }
}

/// The stable ascending sort of a match list, by score.
pub open spec fn sort_model(s: Seq<MatchModel>) -> Seq<MatchModel>
    decreases s.len(),
{
    if s.len() == 0 {
        seq![]
    } else {
        insert_sorted(s.last(), sort_model(s.drop_last()))
    }
}

/// Scores never decrease along the list.
pub open spec fn sorted_by_score(s: Seq<MatchModel>) -> bool {
    forall|i: int, j: int| 0 <= i < j < s.len() ==> #[trigger] s[i].score <= #[trigger] s[j].score
}

proof fn lemma_insert_sorted_keeps_sorted(x: MatchModel, s: Seq<MatchModel>)
    requires
        sorted_by_score(s),
    ensures
        sorted_by_score(insert_sorted(x, s)),
        insert_sorted(x, s).len() == s.len() + 1,
        forall|k: int| 0 <= k < insert_sorted(x, s).len() ==> (#[trigger] insert_sorted(x, s)[k]
            == x || exists|j: int| 0 <= j < s.len() && insert_sorted(x, s)[k] == s[j]),
    decreases s.len(),
{
    if s.len() == 0 {
    } else if s[0].score <= x.score {
        assert(sorted_by_score(s.drop_first()));
        lemma_insert_sorted_keeps_sorted(x, s.drop_first());
        let r = seq![s[0]] + insert_sorted(x, s.drop_first());
        assert forall|i: int, j: int| 0 <= i < j < r.len() implies r[i].score <= r[j].score by {
            if i == 0 && j > 0 {
                let inner = insert_sorted(x, s.drop_first());
                assert(inner[j - 1] == x || exists|m: int|
                    0 <= m < s.drop_first().len() && inner[j - 1] == s.drop_first()[m]);
            }
        }
        assert forall|k: int| 0 <= k < r.len() implies (r[k] == x || exists|j: int|
            0 <= j < s.len() && r[k] == s[j]) by {
            if k == 0 {
                assert(r[0] == s[0]);
            } else {
                let inner = insert_sorted(x, s.drop_first());
                if inner[k - 1] != x {
                    let m = choose|m: int|
                        0 <= m < s.drop_first().len() && inner[k - 1] == s.drop_first()[m];
                    assert(r[k] == s[m + 1]);
                }
            }
        }
    }
}

/// Law: the ranked list is sorted — scores never decrease along it.
pub proof fn lemma_sort_is_sorted(s: Seq<MatchModel>)
    ensures
        sorted_by_score(sort_model(s)),
        sort_model(s).len() == s.len(),
    decreases s.len(),
{
    if s.len() > 0 {
        lemma_sort_is_sorted(s.drop_last());
        lemma_insert_sorted_keeps_sorted(s.last(), sort_model(s.drop_last()));
    }
}

proof fn lemma_insert_sorted_multiset(x: MatchModel, s: Seq<MatchModel>)
    ensures
        insert_sorted(x, s).to_multiset() == s.to_multiset().insert(x),
    decreases s.len(),
{
    broadcast use vstd::seq_lib::group_to_multiset_ensures;
    broadcast use vstd::multiset::group_multiset_axioms;

    if s.len() == 0 {
        assert(insert_sorted(x, s) =~= Seq::<MatchModel>::empty().push(x));
        assert(insert_sorted(x, s).to_multiset() =~= s.to_multiset().insert(x));
    } else if s[0].score <= x.score {
        lemma_insert_sorted_multiset(x, s.drop_first());
        vstd::seq_lib::lemma_multiset_commutative(seq![s[0]], insert_sorted(x, s.drop_first()));
        assert(s =~= seq![s[0]] + s.drop_first());
        vstd::seq_lib::lemma_multiset_commutative(seq![s[0]], s.drop_first());
        assert(insert_sorted(x, s).to_multiset() =~= s.to_multiset().insert(x));
    } else {
        assert(insert_sorted(x, s) =~= seq![x] + s);
        vstd::seq_lib::lemma_multiset_commutative(seq![x], s);
        assert(seq![x] =~= Seq::<MatchModel>::empty().push(x));
        assert(insert_sorted(x, s).to_multiset() =~= s.to_multiset().insert(x));
    }
}

/// Law: ranking only reorders. The sorted list holds exactly the matches
/// the scan produced — as a multiset — so no match is lost, invented or
/// repeated by the ranking step.
pub proof fn lemma_sort_permutes(s: Seq<MatchModel>)
    ensures
        sort_model(s).to_multiset() == s.to_multiset(),
    decreases s.len(),
{
    broadcast use vstd::seq_lib::group_to_multiset_ensures;

    if s.len() > 0 {
        lemma_sort_permutes(s.drop_last());
        lemma_insert_sorted_multiset(s.last(), sort_model(s.drop_last()));
        assert(s =~= s.drop_last().push(s.last()));
        assert(sort_model(s).to_multiset() =~= s.to_multiset());
    }
}

proof fn lemma_insert_at_position(x: MatchModel, s: Seq<MatchModel>, pos: int)
    requires
        0 <= pos <= s.len(),
        forall|j: int| 0 <= j < pos ==> #[trigger] s[j].score <= x.score,
        pos < s.len() ==> s[pos].score > x.score,
    ensures
        insert_sorted(x, s) == s.take(pos) + seq![x] + s.skip(pos),
    decreases pos,
{
    if s.len() == 0 {
        assert(insert_sorted(x, s) =~= s.take(0) + seq![x] + s.skip(0));
    } else if pos == 0 {
        assert(s[0].score > x.score);
        assert(insert_sorted(x, s) =~= s.take(0) + seq![x] + s.skip(0));
    } else {
        assert(s[0].score <= x.score);
        lemma_insert_at_position(x, s.drop_first(), pos - 1);
        assert(seq![s[0]] + (s.drop_first().take(pos - 1) + seq![x] + s.drop_first().skip(pos - 1))
            =~= s.take(pos) + seq![x] + s.skip(pos));
    }
}

/// Inserts one match behind every match of equal or lower score.
fn insert_match(v: &mut Vec<ScoredMatch>, x: ScoredMatch)
    ensures
        matches_model(final(v)@) == insert_sorted(x@, matches_model(old(v)@)),
{
    let ghost xm = x@;
    let ghost sm = matches_model(v@);
    let mut pos: usize = 0;
    loop
        invariant
            pos <= v@.len(),
            sm == matches_model(v@),
            xm == x@,
            forall|j: int| 0 <= j < pos ==> #[trigger] sm[j].score <= xm.score,
        ensures
            pos <= v@.len(),
            forall|j: int| 0 <= j < pos ==> #[trigger] sm[j].score <= xm.score,
            pos < v@.len() ==> sm[pos as int].score > xm.score,
        decreases v@.len() - pos,
    {
        if pos >= v.len() {
            break;
        }
        proof {
            assert(sm[pos as int] == v@[pos as int]@);
        }
        if v[pos].score > x.score {
            break;
        }
        pos = pos + 1;
    }
    proof {
        lemma_insert_at_position(xm, sm, pos as int);
    }
    v.insert(pos, x);
    proof {
        assert(matches_model(v@) =~= sm.take(pos as int) + seq![xm] + sm.skip(pos as int));
    }
}

impl ScoredMatch {
    /// An identical copy.
    fn duplicate(&self) -> (r: ScoredMatch)
        ensures
            r@ == self@,
    {
        ScoredMatch { word: copy_bytes(&self.word), score: self.score }
    }
}

/// Sorts matches ascending by score with a stable sort: matches of equal
/// score keep the order in which the scan produced them.
pub fn sort_matches(v: &Vec<ScoredMatch>) -> (r: Vec<ScoredMatch>)
    ensures
        matches_model(r@) == sort_model(matches_model(v@)),
{
    let mut r: Vec<ScoredMatch> = Vec::new();
    let mut k: usize = 0;
    while k < v.len()
        invariant
            k <= v@.len(),
            matches_model(r@) == sort_model(matches_model(v@).take(k as int)),
        decreases v@.len() - k,
    {
        let x = v[k].duplicate();
        proof {
            let taken = matches_model(v@).take(k + 1 as int);
            assert(taken.drop_last() =~= matches_model(v@).take(k as int));
            assert(taken.last() == x@);
        }
        insert_match(&mut r, x);
        k = k + 1;
    }
    proof {
        assert(matches_model(v@).take(v@.len() as int) =~= matches_model(v@));
    }
    r
}

/// ASCII lower-casing of one byte: only `A` through `Z` change.
pub open spec fn lower_byte(b: u8) -> u8 {
    if 65 <= b <= 90 {
        (b + 32) as u8
    } else {
        b
    }
}

/// ASCII lower-casing of a word, for display.
pub open spec fn lower_model(s: Seq<u8>) -> Seq<u8> {
    s.map_values(|b: u8| lower_byte(b))
}

/// Lower-cases a word.
pub fn to_lower(word: &Vec<u8>) -> (r: Vec<u8>)
    ensures
        r@ == lower_model(word@),
{
    let mut r: Vec<u8> = Vec::new();
    let mut i: usize = 0;
    while i < word.len()
        invariant
            i <= word@.len(),
            r@.len() == i,
            r@ =~= lower_model(word@).take(i as int),
        decreases word@.len() - i,
    {
        let b = word[i];
        if 65 <= b && b <= 90 {
            r.push(b + 32);
        } else {
            r.push(b);
        }
        proof {
            assert(r@ =~= lower_model(word@).take(i + 1 as int));
        }
        i = i + 1;
    }
    proof {
        assert(lower_model(word@).take(word@.len() as int) =~= lower_model(word@));
    }
    r
}

/// The displayed form of a ranked match list: the words alone, in rank
/// order, lower-cased.
pub open spec fn display_model(s: Seq<MatchModel>) -> Seq<Seq<u8>> {
    s.map_values(|m: MatchModel| lower_model(m.word))
}

/// Renders a ranked match list for display.
pub fn display_words(v: &Vec<ScoredMatch>) -> (r: Vec<Vec<u8>>)
    ensures
        words_model(r@) == display_model(matches_model(v@)),
{
    let ghost goal = display_model(matches_model(v@));
    let mut r: Vec<Vec<u8>> = Vec::new();
    let mut k: usize = 0;
    while k < v.len()
        invariant
            k <= v@.len(),
            r@.len() == k,
            goal == display_model(matches_model(v@)),
            words_model(r@) =~= goal.take(k as int),
        decreases v@.len() - k,
    {
        r.push(to_lower(&v[k].word));
        proof {
            assert(words_model(r@) =~= goal.take(k + 1 as int));
        }
        k = k + 1;
    }
    proof {
        assert(goal.take(v@.len() as int) =~= goal);
    }
    r
}

} // verus!
