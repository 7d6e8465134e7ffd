//! The cascading matcher: one pass over the dictionary, trying windows of
//! the query pattern from most to least specific on each candidate and
//! keeping the first that matches.

use vstd::prelude::*;
use crate::dictionary::{Dictionary, EntryModel, RhymeError, lookup, lookup_model, upper_model};
use crate::pattern::{
    RhymeStyle, RhymeType, Token, TokenModel, build_tokens, build_tokens_model, token_match,
    token_matches, toks_model,
};
use crate::phoneme::{Phoneme, PhonemeModel, copy_bytes, trans_model};
use crate::ranker::{
    MatchModel, ScoredMatch, abs_diff, display_model, display_words, matches_model, score,
    sort_matches, sort_model, words_model,
};

verus! {

/// The window tokens match the candidate phonemes starting at `pos`, one
/// token to one phoneme.
pub open spec fn match_at(w: Seq<TokenModel>, line: Seq<PhonemeModel>, pos: int) -> bool {
    &&& 0 <= pos
    &&& pos + w.len() <= line.len()
    &&& forall|j: int| 0 <= j < w.len() ==> token_matches(w[j], line[pos + j])
}

/// The window of length `i` taken from the query pattern: its tail for a
/// rhyme or an anywhere-match, its head for alliteration.
pub open spec fn window_model(toks: Seq<TokenModel>, rtype: RhymeType, i: int) -> Seq<TokenModel>
    recommends
        0 <= i <= toks.len(),
{
    match rtype {
        RhymeType::Alliteration => toks.subrange(0, i),
        _ => toks.subrange(toks.len() - i, toks.len() as int),
    }
}

/// The window of length `i` accepts the candidate line: anchored at the
/// line's end for a rhyme, at its start for alliteration, anywhere for an
/// anywhere-match — always at whole-phoneme granularity.
pub open spec fn window_hits(
    toks: Seq<TokenModel>,
    rtype: RhymeType,
    i: int,
    line: Seq<PhonemeModel>,
) -> bool {
    let w = window_model(toks, rtype, i);
    match rtype {
        RhymeType::Rhyme => match_at(w, line, line.len() - i),
        RhymeType::Alliteration => match_at(w, line, 0),
        RhymeType::Any => exists|pos: int| match_at(w, line, pos),
    }
}

/// The first window, tried from length `i` downward to `min`, that accepts
/// the line: the candidate's best attainable specificity.
pub open spec fn best_window(
    toks: Seq<TokenModel>,
    rtype: RhymeType,
    min: int,
    i: int,
    line: Seq<PhonemeModel>,
) -> Option<int>
    decreases i - min + 1,
{
    if i < min {
        None
    } else if window_hits(toks, rtype, i, line) {
        Some(i)
    } else {
        best_window(toks, rtype, min, i - 1, line)
    }
}

/// The specificity at which a candidate line is accepted, if it is: the
/// cascade starts one short of the full pattern and stops at the floor.
pub open spec fn cand_hit(
    toks: Seq<TokenModel>,
    rtype: RhymeType,
    min: int,
    line: Seq<PhonemeModel>,
) -> Option<int> {
    best_window(toks, rtype, min, toks.len() - 1, line)
}

/// What one candidate entry adds to the scan: nothing, or exactly one
/// match, scored by phoneme-count distance from the query.
pub open spec fn contribution(
    e: EntryModel,
    toks: Seq<TokenModel>,
    rtype: RhymeType,
    min: int,
    qlen: int,
) -> Seq<MatchModel> {
    match cand_hit(toks, rtype, min, e.line) {
        Some(_) => seq![MatchModel { word: e.word, score: abs_diff(qlen, e.line.len() as int) }],
        None => seq![],
    }
}

/// The raw matches of the single pass over the dictionary, in scan order.
pub open spec fn scan_model(
    d: Seq<EntryModel>,
    toks: Seq<TokenModel>,
    rtype: RhymeType,
    min: int,
    qlen: int,
) -> Seq<MatchModel>
    decreases d.len(),
{
    if d.len() == 0 {
        seq![]
    } else {
        contribution(d[0], toks, rtype, min, qlen) + scan_model(d.drop_first(), toks, rtype, min, qlen)
    }
}

proof fn lemma_scan_snoc(
    d: Seq<EntryModel>,
    e: EntryModel,
    toks: Seq<TokenModel>,
    rtype: RhymeType,
    min: int,
    qlen: int,
)
    ensures
        scan_model(d.push(e), toks, rtype, min, qlen) == scan_model(d, toks, rtype, min, qlen)
            + contribution(e, toks, rtype, min, qlen),
    decreases d.len(),
{
    if d.len() == 0 {
        assert(d.push(e).drop_first() =~= d);
        assert(d.push(e)[0] == e);
        assert(scan_model(d.push(e), toks, rtype, min, qlen) == contribution(e, toks, rtype, min, qlen)
            + scan_model(d, toks, rtype, min, qlen));
        assert(scan_model(d, toks, rtype, min, qlen) == Seq::<MatchModel>::empty());
        assert(contribution(e, toks, rtype, min, qlen) + Seq::<MatchModel>::empty()
            =~= Seq::<MatchModel>::empty() + contribution(e, toks, rtype, min, qlen));
    } else {
        assert(d.push(e).drop_first() =~= d.drop_first().push(e));
        assert(d.push(e)[0] == d[0]);
        lemma_scan_snoc(d.drop_first(), e, toks, rtype, min, qlen);
        assert(scan_model(d.push(e), toks, rtype, min, qlen) == contribution(d[0], toks, rtype, min, qlen)
            + (scan_model(d.drop_first(), toks, rtype, min, qlen) + contribution(e, toks, rtype, min, qlen)));
        assert(contribution(d[0], toks, rtype, min, qlen) + (scan_model(d.drop_first(), toks, rtype, min, qlen)
            + contribution(e, toks, rtype, min, qlen)) =~= scan_model(d, toks, rtype, min, qlen)
            + contribution(e, toks, rtype, min, qlen));
    }
}

/// Decides whether the window `toks[lo..hi]` matches the line at `pos`.
fn match_window_at(toks: &Vec<Token>, lo: usize, hi: usize, line: &Vec<Phoneme>, pos: usize) -> (r:
    bool)
    requires
        lo <= hi <= toks@.len(),
        pos + (hi - lo) <= line@.len(),
    ensures
        r == match_at(
            toks_model(toks@).subrange(lo as int, hi as int),
            trans_model(line@),
            pos as int,
        ),
{
    let ghost w = toks_model(toks@).subrange(lo as int, hi as int);
    let ghost lm = trans_model(line@);
    proof {
        assert(line.len() == line@.len());
    }
    let mut j: usize = 0;
    while j < hi - lo
        invariant
            lo <= hi <= toks@.len(),
            pos + (hi - lo) <= line@.len(),
            line@.len() <= usize::MAX,
            j <= hi - lo,
            w == toks_model(toks@).subrange(lo as int, hi as int),
            lm == trans_model(line@),
            forall|m: int| 0 <= m < j ==> token_matches(w[m], lm[pos + m]),
        decreases hi - lo - j,
    {
        if !token_match(&toks[lo + j], &line[pos + j]) {
            proof {
                assert(w[j as int] == toks_model(toks@)[lo + j]);
                assert(lm[pos + j] == line@[pos + j as int]@);
            }
            return false;
        }
        proof {
            assert(w[j as int] == toks_model(toks@)[lo + j]);
            assert(lm[pos + j] == line@[pos + j as int]@);
        }
        j = j + 1;
    }
    true
}

/// Decides whether the window of length `i` accepts the candidate line.
fn window_match(toks: &Vec<Token>, rtype: RhymeType, i: usize, line: &Vec<Phoneme>) -> (r: bool)
    requires
        i <= toks@.len(),
    ensures
        r == window_hits(toks_model(toks@), rtype, i as int, trans_model(line@)),
{
    let n = toks.len();
    let ghost w = window_model(toks_model(toks@), rtype, i as int);
    let ghost lm = trans_model(line@);
    match rtype {
        RhymeType::Rhyme => {
            if line.len() < i {
                proof {
                    assert(!match_at(w, lm, lm.len() - i));
                }
                false
            } else {
                match_window_at(toks, n - i, n, line, line.len() - i)
            }
        },
        RhymeType::Alliteration => {
            if line.len() < i {
                proof {
                    assert(!match_at(w, lm, 0));
                }
                false
            } else {
                match_window_at(toks, 0, i, line, 0)
            }
        },
        RhymeType::Any => {
            if line.len() < i {
                proof {
                    assert(forall|pos: int| !match_at(w, lm, pos));
                }
                return false;
            }
            let mut pos: usize = 0;
            while pos <= line.len() - i
                invariant
                    rtype is Any,
                    n == toks@.len(),
                    i <= toks@.len(),
                    i <= line@.len(),
                    line@.len() <= usize::MAX,
                    pos <= line@.len() - i + 1,
                    w == window_model(toks_model(toks@), rtype, i as int),
                    lm == trans_model(line@),
                    forall|p: int| 0 <= p < pos ==> !match_at(w, lm, p),
                decreases line@.len() - i - pos + 1,
            {
                if match_window_at(toks, n - i, n, line, pos) {
                    proof {
                        assert(match_at(w, lm, pos as int));
                    }
                    return true;
                }
                proof {
                    assert(!match_at(w, lm, pos as int));
                }
                pos = pos + 1;
            }
            proof {
                assert forall|p: int| !match_at(w, lm, p) by {
                    if 0 <= p < pos {
                    } else {
                        assert(!match_at(w, lm, p));
                    }
                }
            }
            false
        },
    }
}

/// Runs the cascade on one candidate: windows from one short of the full
/// pattern down to the floor, first hit wins, the rest are skipped.
fn best_match_len(toks: &Vec<Token>, rtype: RhymeType, min: usize, line: &Vec<Phoneme>) -> (r:
    Option<usize>)
    ensures
        match r {
            Some(i) => cand_hit(toks_model(toks@), rtype, min as int, trans_model(line@))
                == Some(i as int),
            None => cand_hit(toks_model(toks@), rtype, min as int, trans_model(line@)) is None,
        },
{
    let n = toks.len();
    let ghost tm = toks_model(toks@);
    let ghost lm = trans_model(line@);
    let mut i: usize = n;
    while i > min
        invariant
            i <= n,
            n == toks@.len(),
            tm == toks_model(toks@),
            lm == trans_model(line@),
            i > min ==> best_window(tm, rtype, min as int, n - 1, lm) == best_window(
                tm,
                rtype,
                min as int,
                i - 1,
                lm,
            ),
            i <= min ==> best_window(tm, rtype, min as int, n - 1, lm) == best_window(
                tm,
                rtype,
                min as int,
                i as int - 1,
                lm,
            ),
        decreases i,
    {
        let wl = i - 1;
        if window_match(toks, rtype, wl, line) {
            return Some(wl);
        }
        i = wl;
    }
    None
}

/// Scans the dictionary once: each entry is tried against the cascade and
/// contributes at most one raw match, in scan order.
fn scan_dictionary(
    dict: &Dictionary,
    toks: &Vec<Token>,
    rtype: RhymeType,
    min: usize,
    qlen: usize,
) -> (r: Vec<ScoredMatch>)
    ensures
        matches_model(r@) == scan_model(dict@, toks_model(toks@), rtype, min as int, qlen as int),
{
    let ghost tm = toks_model(toks@);
    let mut r: Vec<ScoredMatch> = Vec::new();
    let mut k: usize = 0;
    while k < dict.entries.len()
        invariant
            k <= dict.entries@.len(),
            tm == toks_model(toks@),
            matches_model(r@) == scan_model(dict@.take(k as int), tm, rtype, min as int, qlen as int),
        decreases dict.entries@.len() - k,
    {
        let e = &dict.entries[k];
        let ghost before = matches_model(r@);
        match best_match_len(toks, rtype, min, &e.transcription) {
            Some(_) => {
                let s = score(qlen, e.transcription.len());
                let m = ScoredMatch { word: copy_bytes(&e.word), score: s };
                proof {
                    assert(contribution(dict@[k as int], tm, rtype, min as int, qlen as int)
                        =~= seq![m@]);
                }
                r.push(m);
                proof {
                    assert(matches_model(r@) =~= before + contribution(
                        dict@[k as int],
                        tm,
                        rtype,
                        min as int,
                        qlen as int,
                    ));
                }
            },
            None => {
                proof {
                    assert(contribution(dict@[k as int], tm, rtype, min as int, qlen as int)
                        =~= Seq::<MatchModel>::empty());
                    assert(matches_model(r@) =~= before + contribution(
                        dict@[k as int],
                        tm,
                        rtype,
                        min as int,
                        qlen as int,
                    ));
                }
            },
        }
        proof {
            assert(dict@.take(k + 1 as int) =~= dict@.take(k as int).push(dict@[k as int]));
            lemma_scan_snoc(dict@.take(k as int), dict@[k as int], tm, rtype, min as int, qlen as int);
        }
        k = k + 1;
    }
    proof {
        assert(dict@.take(dict@.len() as int) =~= dict@);
    }
    r
}

/// What a whole query returns: the error when the word has no entry, else
/// the ranked, lower-cased word list of the scan.
pub open spec fn find_model(
    d: Seq<EntryModel>,
    word: Seq<u8>,
    style: RhymeStyle,
    rtype: RhymeType,
    min: int,
    keep: bool,
) -> Result<Seq<Seq<u8>>, RhymeError> {
    match lookup_model(d, upper_model(word)) {
        None => Err(RhymeError::WordNotFound),
        Some(t) => {
            let toks = build_tokens_model(t, style, keep);
            Ok(display_model(sort_model(scan_model(d, toks, rtype, min, t.len() as int))))
        },
    }
}

proof fn lemma_scan_under_floor(
    d: Seq<EntryModel>,
    toks: Seq<TokenModel>,
    rtype: RhymeType,
    min: int,
    qlen: int,
)
    requires
        min >= toks.len(),
    ensures
        scan_model(d, toks, rtype, min, qlen) == Seq::<MatchModel>::empty(),
    decreases d.len(),
{
    if d.len() > 0 {
        lemma_scan_under_floor(d.drop_first(), toks, rtype, min, qlen);
        assert(scan_model(d, toks, rtype, min, qlen) =~= Seq::<MatchModel>::empty());
    }
}

/// Answers a query: looks the word up, builds the pattern for the style,
/// scans the dictionary once with the cascade, scores and rank-sorts the
/// matches, and returns the words lower-cased. Fails only when the word
/// has no dictionary entry.
///
/// When the floor `min_phonemes` is at or above the query's phoneme count
/// the cascade has no windows and the result is empty, not an error.
pub fn find_onepass(
    dict: &Dictionary,
    word: &[u8],
    rhyme_style: RhymeStyle,
    rhyme_type: RhymeType,
    min_phonemes: usize,
    keep_emphasis: bool,
) -> (r: Result<Vec<Vec<u8>>, RhymeError>)
    ensures
        match r {
            Ok(v) => find_model(
                dict@,
                word@,
                rhyme_style,
                rhyme_type,
                min_phonemes as int,
                keep_emphasis,
            ) == Ok::<Seq<Seq<u8>>, RhymeError>(words_model(v@)),
            Err(e) => find_model(
                dict@,
                word@,
                rhyme_style,
                rhyme_type,
                min_phonemes as int,
                keep_emphasis,
            ) == Err::<Seq<Seq<u8>>, RhymeError>(e),
        },
        r is Err <==> lookup_model(dict@, upper_model(word@)) is None,
        match lookup_model(dict@, upper_model(word@)) {
            Some(t) => min_phonemes >= t.len() ==> (r matches Ok(v) && v@.len() == 0),
            None => true,
        },
{
    let t = match lookup(dict, word) {
        Ok(t) => t,
        Err(e) => {
            return Err(e);
        },
    };
    let toks = build_tokens(t, rhyme_style, keep_emphasis);
    let qlen = t.len();
    let raw = scan_dictionary(dict, &toks, rhyme_type, min_phonemes, qlen);
    let sorted = sort_matches(&raw);
    let out = display_words(&sorted);
    proof {
        let tm = trans_model(t@);
        if min_phonemes >= tm.len() {
            lemma_scan_under_floor(
                dict@,
                toks_model(toks@),
                rhyme_type,
                min_phonemes as int,
                qlen as int,
            );
            assert(sort_model(Seq::<MatchModel>::empty()) == Seq::<MatchModel>::empty());
            assert(display_model(Seq::<MatchModel>::empty()).len() == 0);
            assert(out@.len() == words_model(out@).len());
        }
    }
    Ok(out)
}

/// Law: the cascade short-circuits. When a candidate line is accepted at
/// window length `i`, the scan holds exactly one match for that candidate,
/// and it comes from a window no shorter than `i`: no weaker window ever
/// adds a duplicate for a line a stronger window already matched.
pub proof fn lemma_cascade_short_circuit(
    e: EntryModel,
    toks: Seq<TokenModel>,
    rtype: RhymeType,
    min: int,
    qlen: int,
    i: int,
)
    requires
        min <= i <= toks.len() - 1,
        window_hits(toks, rtype, i, e.line),
    ensures
        contribution(e, toks, rtype, min, qlen).len() == 1,
        match cand_hit(toks, rtype, min, e.line) {
            Some(k) => i <= k <= toks.len() - 1,
            None => false,
        },
{
    lemma_best_window_finds(toks, rtype, min, toks.len() - 1, i, e.line);
}

proof fn lemma_best_window_finds(
    toks: Seq<TokenModel>,
    rtype: RhymeType,
    min: int,
    top: int,
    i: int,
    line: Seq<PhonemeModel>,
)
    requires
        min <= i <= top,
        window_hits(toks, rtype, i, line),
    ensures
        match best_window(toks, rtype, min, top, line) {
            Some(k) => i <= k <= top,
            None => false,
        },
    decreases top - i,
{
    if !window_hits(toks, rtype, top, line) {
        lemma_best_window_finds(toks, rtype, min, top - 1, i, line);
    }
}

/// Law: one query, one answer. The whole pipeline — lookup, pattern,
/// scan, ranking, display — is a function of the dictionary and the query
/// parameters alone, so re-running a query returns the identical ordered
/// list.
pub proof fn lemma_query_deterministic(
    r1: Result<Seq<Seq<u8>>, RhymeError>,
    r2: Result<Seq<Seq<u8>>, RhymeError>,
    d: Seq<EntryModel>,
    word: Seq<u8>,
    style: RhymeStyle,
    rtype: RhymeType,
    min: int,
    keep: bool,
)
    requires
        r1 == find_model(d, word, style, rtype, min, keep),
        r2 == find_model(d, word, style, rtype, min, keep),
    ensures
        r1 == r2,
{
}

} // verus!
