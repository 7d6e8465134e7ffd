//! The index builder: six ordered-key indexes over the dictionary, one per
//! orientation (forward or reversed) and phoneme subset (all, vowels only,
//! consonants only), each keyed by the dash-joined, stress-stripped codes.

use vstd::prelude::*;
use crate::dictionary::{Dictionary, EntryModel};
use crate::phoneme::{Phoneme, PhonemeModel, bytes_equal, copy_bytes, is_vowel_model, trans_model};

verus! {

/// One stored pairing of index key and word.
pub struct IndexPair {
    pub key: Vec<u8>,
    pub word: Vec<u8>,
}

/// Ghost-level picture of a stored pairing.
pub struct PairModel {
    pub key: Seq<u8>,
    pub word: Seq<u8>,
}

impl View for IndexPair {
    type V = PairModel;

    open spec fn view(&self) -> PairModel {
        PairModel { key: self.key@, word: self.word@ }
    }
}

/// An ordered-key index: keys are unique, and each key stores one word —
/// on a key collision the last insertion wins, so two words sharing a
/// transformed phoneme key keep only the later one. That loss is the
/// documented collision policy of this minimal store.
pub struct PhoneticIndex {
    pub pairs: Vec<IndexPair>,
}

impl View for PhoneticIndex {
    type V = Seq<PairModel>;

    open spec fn view(&self) -> Seq<PairModel> {
        self.pairs@.map_values(|p: IndexPair| p@)
    }
}

/// Well-formedness: no two stored pairs share a key.
pub open spec fn index_wf(ps: Seq<PairModel>) -> bool {
    forall|i: int, j: int| 0 <= i < j < ps.len() ==> #[trigger] ps[i].key != #[trigger] ps[j].key
}

/// The key-to-word contents of an index, later insertions shadowing
/// earlier ones.
pub open spec fn index_map(ps: Seq<PairModel>) -> Map<Seq<u8>, Seq<u8>>
    decreases ps.len(),
{
    if ps.len() == 0 {
        Map::empty()
    } else {
        index_map(ps.drop_last()).insert(ps.last().key, ps.last().word)
    }
}

proof fn lemma_index_map_update(ps: Seq<PairModel>, i: int, p: PairModel)
    requires
        index_wf(ps),
        0 <= i < ps.len(),
        ps[i].key == p.key,
    ensures
        index_map(ps.update(i, p)) == index_map(ps).insert(p.key, p.word),
    decreases ps.len(),
{
    let upd = ps.update(i, p);
    if i == ps.len() - 1 {
        assert(upd.drop_last() =~= ps.drop_last());
        assert(upd.last() == p);
        assert(index_map(upd) =~= index_map(ps).insert(p.key, p.word));
    } else {
        assert(upd.drop_last() =~= ps.drop_last().update(i, p));
        assert(upd.last() == ps.last());
        assert(index_wf(ps.drop_last()));
        lemma_index_map_update(ps.drop_last(), i, p);
        assert(ps.last().key != p.key);
        assert(index_map(ps.drop_last()).insert(p.key, p.word).insert(ps.last().key, ps.last().word)
            =~= index_map(ps.drop_last()).insert(ps.last().key, ps.last().word).insert(
            p.key,
            p.word,
        ));
    }
}

impl PhoneticIndex {
    /// An empty index.
    pub fn new() -> (r: PhoneticIndex)
        ensures
            r@ == Seq::<PairModel>::empty(),
            index_wf(r@),
            index_map(r@) == Map::<Seq<u8>, Seq<u8>>::empty(),
    {
        let r = PhoneticIndex { pairs: Vec::new() };
        proof {
            assert(r@ =~= Seq::<PairModel>::empty());
        }
        r
    }

    /// Stores a word under a key. A key already present keeps its place in
    /// the order and takes the new word: the last insertion wins.
    pub fn insert(&mut self, key: Vec<u8>, word: Vec<u8>)
        requires
            index_wf(old(self)@),
        ensures
            index_wf(final(self)@),
            index_map(final(self)@) == index_map(old(self)@).insert(key@, word@),
    {
        let ghost before = self@;
        let mut i: usize = 0;
        while i < self.pairs.len()
            invariant
                i <= self.pairs@.len(),
                self@ == before,
                before == old(self)@,
                index_wf(before),
                forall|j: int| 0 <= j < i ==> #[trigger] before[j].key != key@,
            decreases self.pairs@.len() - i,
        {
            if bytes_equal(&self.pairs[i].key, &key) {
                proof {
                    assert(before[i as int].key == key@);
                }
                let p = IndexPair { key, word };
                self.pairs[i] = p;
                proof {
                    assert(self@ =~= before.update(i as int, PairModel { key: key@, word: word@ }));
                    lemma_index_map_update(
                        before,
                        i as int,
                        PairModel { key: key@, word: word@ },
                    );
                    assert(index_wf(self@));
                }
                return;
            }
            proof {
                assert(before[i as int].key != key@);
            }
            i = i + 1;
        }
        self.pairs.push(IndexPair { key, word });
        proof {
            assert(self@ =~= before.push(PairModel { key: key@, word: word@ }));
            assert(self@.drop_last() =~= before);
            assert(index_wf(self@));
        }
    }
}

/// The delimiter-aware prefix relation: the prefix must end at a whole
/// phoneme code, so a key extends it only across a dash. `AA` reaches the
/// keys `AA` and `AA-T`, never `AAT` — raw string prefixing would.
pub open spec fn key_has_prefix(key: Seq<u8>, prefix: Seq<u8>) -> bool {
    ||| key == prefix
    ||| (key.len() > prefix.len() && key.take(prefix.len() as int) == prefix && key[prefix.len() as int]
        == 45)
}

/// Every stored pair whose key starts with the prefix, in index order.
pub open spec fn subtrie_model(ps: Seq<PairModel>, prefix: Seq<u8>) -> Seq<PairModel>
    decreases ps.len(),
{
    if ps.len() == 0 {
        seq![]
    } else {
        (if key_has_prefix(ps[0].key, prefix) {
            seq![ps[0]]
        } else {
            seq![]
        }) + subtrie_model(ps.drop_first(), prefix)
    }
}

proof fn lemma_subtrie_snoc(ps: Seq<PairModel>, p: PairModel, prefix: Seq<u8>)
    ensures
        subtrie_model(ps.push(p), prefix) == subtrie_model(ps, prefix) + (if key_has_prefix(
            p.key,
            prefix,
        ) {
            seq![p]
        } else {
            Seq::<PairModel>::empty()
        }),
    decreases ps.len(),
{
    let tail = if key_has_prefix(p.key, prefix) {
        seq![p]
    } else {
        Seq::<PairModel>::empty()
    };
    if ps.len() == 0 {
        assert(ps.push(p).drop_first() =~= ps);
        assert(ps.push(p)[0] == p);
        assert(subtrie_model(ps.push(p), prefix) =~= subtrie_model(ps, prefix) + tail);
    } else {
        assert(ps.push(p).drop_first() =~= ps.drop_first().push(p));
        assert(ps.push(p)[0] == ps[0]);
        lemma_subtrie_snoc(ps.drop_first(), p, prefix);
        assert(subtrie_model(ps.push(p), prefix) =~= subtrie_model(ps, prefix) + tail);
    }
}

/// Decides the delimiter-aware prefix relation.
fn prefix_match(key: &Vec<u8>, prefix: &Vec<u8>) -> (r: bool)
    ensures
        r == key_has_prefix(key@, prefix@),
{
    if key.len() == prefix.len() {
        return bytes_equal(key, prefix);
    }
    if key.len() < prefix.len() {
        return false;
    }
    if key[prefix.len()] != 45 {
        return false;
    }
    let mut i: usize = 0;
    while i < prefix.len()
        invariant
            i <= prefix@.len(),
            prefix@.len() < key@.len(),
            forall|j: int| 0 <= j < i ==> key@[j] == prefix@[j],
        decreases prefix@.len() - i,
    {
        if key[i] != prefix[i] {
            return false;
        }
        i = i + 1;
    }
    proof {
        assert(key@.take(prefix@.len() as int) =~= prefix@);
    }
    true
}

impl IndexPair {
    /// An identical copy.
    fn duplicate(&self) -> (r: IndexPair)
        ensures
            r@ == self@,
    {
        IndexPair { key: copy_bytes(&self.key), word: copy_bytes(&self.word) }
    }
}

impl PhoneticIndex {
    /// The prefix query: every stored (key, word) whose key starts with
    /// the prefix at whole-code granularity, in index order.
    pub fn subtrie(&self, prefix: &Vec<u8>) -> (r: Vec<IndexPair>)
        ensures
            r@.map_values(|p: IndexPair| p@) == subtrie_model(self@, prefix@),
    {
        let mut r: Vec<IndexPair> = Vec::new();
        let mut i: usize = 0;
        while i < self.pairs.len()
            invariant
                i <= self.pairs@.len(),
                r@.map_values(|p: IndexPair| p@) == subtrie_model(self@.take(i as int), prefix@),
            decreases self.pairs@.len() - i,
        {
            let ghost before = r@.map_values(|p: IndexPair| p@);
            if prefix_match(&self.pairs[i].key, prefix) {
                r.push(self.pairs[i].duplicate());
                proof {
                    assert(r@.map_values(|p: IndexPair| p@) =~= before.push(self@[i as int]));
                }
            }
            proof {
                assert(self@.take(i + 1 as int) =~= self@.take(i as int).push(self@[i as int]));
                lemma_subtrie_snoc(self@.take(i as int), self@[i as int], prefix@);
                assert(r@.map_values(|p: IndexPair| p@) =~= subtrie_model(
                    self@.take(i + 1 as int),
                    prefix@,
                ));
            }
            i = i + 1;
        }
        proof {
            assert(self@.take(self@.len() as int) =~= self@);
        }
        r
    }
}

/// Which phonemes of an entry an index variant stores.
#[derive(PartialEq, Eq, Structural, Clone, Copy, Debug)]
pub enum PhonemeFilter {
    All,
    VowelsOnly,
    ConsonantsOnly,
}

pub open spec fn filter_keeps(p: PhonemeModel, f: PhonemeFilter) -> bool {
    match f {
        PhonemeFilter::All => true,
        PhonemeFilter::VowelsOnly => is_vowel_model(p),
        PhonemeFilter::ConsonantsOnly => !is_vowel_model(p),
    }
}

/// The stress-stripped codes of the kept phonemes, in order.
pub open spec fn filter_codes(line: Seq<PhonemeModel>, f: PhonemeFilter) -> Seq<Seq<u8>>
    decreases line.len(),
{
    if line.len() == 0 {
        seq![]
    } else {
        (if filter_keeps(line[0], f) {
            seq![line[0].code]
        } else {
            seq![]
        }) + filter_codes(line.drop_first(), f)
    }
}

/// Codes joined with the dash delimiter, which no phoneme code contains.
pub open spec fn join_dash(codes: Seq<Seq<u8>>) -> Seq<u8>
    decreases codes.len(),
{
    if codes.len() == 0 {
        seq![]
    } else if codes.len() == 1 {
        codes[0]
    } else {
        codes[0] + seq![45u8] + join_dash(codes.drop_first())
    }
}

/// The index key of an entry under a variant: its kept codes, reversed
/// when the variant is a rhyme index, joined with dashes. Reversal makes a
/// prefix of the key a shared phoneme *suffix* of the word — a rhyme.
pub open spec fn key_model(line: Seq<PhonemeModel>, f: PhonemeFilter, reversed: bool) -> Seq<u8> {
    if reversed {
        join_dash(filter_codes(line, f).reverse())
    } else {
        join_dash(filter_codes(line, f))
    }
}

proof fn lemma_filter_codes_snoc(line: Seq<PhonemeModel>, p: PhonemeModel, f: PhonemeFilter)
    ensures
        filter_codes(line.push(p), f) == filter_codes(line, f) + (if filter_keeps(p, f) {
            seq![p.code]
        } else {
            Seq::<Seq<u8>>::empty()
        }),
    decreases line.len(),
{
    let tail = if filter_keeps(p, f) {
        seq![p.code]
    } else {
        Seq::<Seq<u8>>::empty()
    };
    if line.len() == 0 {
        assert(line.push(p).drop_first() =~= line);
        assert(line.push(p)[0] == p);
        assert(filter_codes(line.push(p), f) =~= filter_codes(line, f) + tail);
    } else {
        assert(line.push(p).drop_first() =~= line.drop_first().push(p));
        assert(line.push(p)[0] == line[0]);
        lemma_filter_codes_snoc(line.drop_first(), p, f);
        assert(filter_codes(line.push(p), f) =~= filter_codes(line, f) + tail);
    }
}

proof fn lemma_join_dash_snoc(codes: Seq<Seq<u8>>, c: Seq<u8>)
    ensures
        join_dash(codes.push(c)) == if codes.len() == 0 {
            c
        } else {
            join_dash(codes) + seq![45u8] + c
        },
    decreases codes.len(),
{
    if codes.len() == 0 {
        assert(codes.push(c)[0] == c);
        assert(join_dash(codes.push(c)) =~= c);
    } else {
        assert(codes.push(c).drop_first() =~= codes.drop_first().push(c));
        assert(codes.push(c)[0] == codes[0]);
        lemma_join_dash_snoc(codes.drop_first(), c);
        if codes.len() == 1 {
            assert(join_dash(codes.push(c)) =~= join_dash(codes) + seq![45u8] + c);
        } else {
            assert(codes[0] + seq![45u8] + (join_dash(codes.drop_first()) + seq![45u8] + c)
                =~= (codes[0] + seq![45u8] + join_dash(codes.drop_first())) + seq![45u8] + c);
        }
    }
}

/// Decides whether an index variant keeps a phoneme.
fn filter_keep(p: &Phoneme, f: PhonemeFilter) -> (r: bool)
    ensures
        r == filter_keeps(p@, f),
{
    match f {
        PhonemeFilter::All => true,
        PhonemeFilter::VowelsOnly => p.is_vowel(),
        PhonemeFilter::ConsonantsOnly => !p.is_vowel(),
    }
}

/// Computes the index key of one transcription under a variant.
pub fn index_key(line: &Vec<Phoneme>, f: PhonemeFilter, reversed: bool) -> (r: Vec<u8>)
    ensures
        r@ == key_model(trans_model(line@), f, reversed),
{
    let ghost lm = trans_model(line@);
    let mut codes: Vec<Vec<u8>> = Vec::new();
    let mut i: usize = 0;
    while i < line.len()
        invariant
            i <= line@.len(),
            lm == trans_model(line@),
            codes@.map_values(|c: Vec<u8>| c@) == filter_codes(lm.take(i as int), f),
        decreases line@.len() - i,
    {
        let ghost before = codes@.map_values(|c: Vec<u8>| c@);
        let p = &line[i];
        if filter_keep(p, f) {
            codes.push(p.strip_stress().code);
            proof {
                assert(codes@.map_values(|c: Vec<u8>| c@) =~= before.push(lm[i as int].code));
            }
        }
        proof {
            assert(lm.take(i + 1 as int) =~= lm.take(i as int).push(lm[i as int]));
            lemma_filter_codes_snoc(lm.take(i as int), lm[i as int], f);
            assert(codes@.map_values(|c: Vec<u8>| c@) =~= filter_codes(lm.take(i + 1 as int), f));
        }
        i = i + 1;
    }
    proof {
        assert(lm.take(lm.len() as int) =~= lm);
    }
    let ghost forward = filter_codes(lm, f);
    let ordered: Vec<Vec<u8>> = if reversed {
        let mut rev: Vec<Vec<u8>> = Vec::new();
        let mut j: usize = codes.len();
        while j > 0
            invariant
                j <= codes@.len(),
                codes@.map_values(|c: Vec<u8>| c@) == forward,
                rev@.len() == codes@.len() - j,
                forall|m: int| 0 <= m < rev@.len() ==> rev@[m]@ == forward[forward.len() - 1 - m],
            decreases j,
        {
            j = j - 1;
            rev.push(copy_bytes(&codes[j]));
        }
        proof {
            assert(rev@.map_values(|c: Vec<u8>| c@) =~= forward.reverse());
        }
        rev
    } else {
        codes
    };
    let ghost goal_codes = if reversed {
        forward.reverse()
    } else {
        forward
    };
    let mut r: Vec<u8> = Vec::new();
    let mut k: usize = 0;
    while k < ordered.len()
        invariant
            k <= ordered@.len(),
            ordered@.map_values(|c: Vec<u8>| c@) == goal_codes,
            r@ == join_dash(goal_codes.take(k as int)),
        decreases ordered@.len() - k,
    {
        let ghost before = r@;
        if k > 0 {
            r.push(45);
        }
        let c = &ordered[k];
        let mut b: usize = 0;
        while b < c.len()
            invariant
                b <= c@.len(),
                k > 0 ==> r@ == before + seq![45u8] + c@.take(b as int),
                k == 0 ==> r@ == c@.take(b as int),
            decreases c@.len() - b,
        {
            r.push(c[b]);
            proof {
                if k > 0 {
                    assert(r@ =~= before + seq![45u8] + c@.take(b + 1 as int));
                } else {
                    assert(r@ =~= c@.take(b + 1 as int));
                }
            }
            b = b + 1;
        }
        proof {
            assert(c@.take(c@.len() as int) =~= c@);
            assert(goal_codes.take(k + 1 as int) =~= goal_codes.take(k as int).push(
                goal_codes[k as int],
            ));
            lemma_join_dash_snoc(goal_codes.take(k as int), goal_codes[k as int]);
            assert(c@ == goal_codes[k as int]);
        }
        k = k + 1;
    }
    proof {
        assert(goal_codes.take(goal_codes.len() as int) =~= goal_codes);
    }
    r
}

/// The six index variants built from one dictionary.
pub struct PhoneticIndexes {
    pub allit_all: PhoneticIndex,
    pub allit_vowel: PhoneticIndex,
    pub allit_conso: PhoneticIndex,
    pub rhyme_all: PhoneticIndex,
    pub rhyme_vowel: PhoneticIndex,
    pub rhyme_conso: PhoneticIndex,
}

/// The contents an index variant holds after one pass over the dictionary:
/// each entry's key maps to its word, later entries shadowing earlier ones
/// on a key collision.
pub open spec fn build_map_model(d: Seq<EntryModel>, f: PhonemeFilter, reversed: bool) -> Map<
    Seq<u8>,
    Seq<u8>,
>
    decreases d.len(),
{
    if d.len() == 0 {
        Map::empty()
    } else {
        build_map_model(d.drop_last(), f, reversed).insert(
            key_model(d.last().line, f, reversed),
            d.last().word,
        )
    }
}

/// Builds all six indexes in one linear pass over the dictionary: for each
/// entry, its stress-stripped codes are filtered to each subset, joined
/// forward for the alliteration indexes and reversed for the rhyme
/// indexes, and the word is stored under each key.
pub fn build_indexes(dict: &Dictionary) -> (r: PhoneticIndexes)
    ensures
        index_wf(r.allit_all@),
        index_wf(r.allit_vowel@),
        index_wf(r.allit_conso@),
        index_wf(r.rhyme_all@),
        index_wf(r.rhyme_vowel@),
        index_wf(r.rhyme_conso@),
        index_map(r.allit_all@) == build_map_model(dict@, PhonemeFilter::All, false),
        index_map(r.allit_vowel@) == build_map_model(dict@, PhonemeFilter::VowelsOnly, false),
        index_map(r.allit_conso@) == build_map_model(dict@, PhonemeFilter::ConsonantsOnly, false),
        index_map(r.rhyme_all@) == build_map_model(dict@, PhonemeFilter::All, true),
        index_map(r.rhyme_vowel@) == build_map_model(dict@, PhonemeFilter::VowelsOnly, true),
        index_map(r.rhyme_conso@) == build_map_model(dict@, PhonemeFilter::ConsonantsOnly, true),
{
    let mut allit_all = PhoneticIndex::new();
    let mut allit_vowel = PhoneticIndex::new();
    let mut allit_conso = PhoneticIndex::new();
    let mut rhyme_all = PhoneticIndex::new();
    let mut rhyme_vowel = PhoneticIndex::new();
    let mut rhyme_conso = PhoneticIndex::new();
    let mut k: usize = 0;
    while k < dict.entries.len()
        invariant
            k <= dict.entries@.len(),
            index_wf(allit_all@),
            index_wf(allit_vowel@),
            index_wf(allit_conso@),
            index_wf(rhyme_all@),
            index_wf(rhyme_vowel@),
            index_wf(rhyme_conso@),
            index_map(allit_all@) == build_map_model(
                dict@.take(k as int),
                PhonemeFilter::All,
                false,
            ),
            index_map(allit_vowel@) == build_map_model(
                dict@.take(k as int),
                PhonemeFilter::VowelsOnly,
                false,
            ),
            index_map(allit_conso@) == build_map_model(
                dict@.take(k as int),
                PhonemeFilter::ConsonantsOnly,
                false,
            ),
            index_map(rhyme_all@) == build_map_model(dict@.take(k as int), PhonemeFilter::All, true),
            index_map(rhyme_vowel@) == build_map_model(
                dict@.take(k as int),
                PhonemeFilter::VowelsOnly,
                true,
            ),
            index_map(rhyme_conso@) == build_map_model(
                dict@.take(k as int),
                PhonemeFilter::ConsonantsOnly,
                true,
            ),
        decreases dict.entries@.len() - k,
    {
        let e = &dict.entries[k];
        proof {
            assert(dict@.take(k + 1 as int) =~= dict@.take(k as int).push(dict@[k as int]));
            assert(dict@.take(k + 1 as int).drop_last() =~= dict@.take(k as int));
        }
        allit_all.insert(
            index_key(&e.transcription, PhonemeFilter::All, false),
            copy_bytes(&e.word),
        );
        allit_vowel.insert(
            index_key(&e.transcription, PhonemeFilter::VowelsOnly, false),
            copy_bytes(&e.word),
        );
        allit_conso.insert(
            index_key(&e.transcription, PhonemeFilter::ConsonantsOnly, false),
            copy_bytes(&e.word),
        );
        rhyme_all.insert(
            index_key(&e.transcription, PhonemeFilter::All, true),
            copy_bytes(&e.word),
        );
        rhyme_vowel.insert(
            index_key(&e.transcription, PhonemeFilter::VowelsOnly, true),
            copy_bytes(&e.word),
        );
        rhyme_conso.insert(
            index_key(&e.transcription, PhonemeFilter::ConsonantsOnly, true),
            copy_bytes(&e.word),
        );
        k = k + 1;
    }
    proof {
        assert(dict@.take(dict@.len() as int) =~= dict@);
    }
    PhoneticIndexes { allit_all, allit_vowel, allit_conso, rhyme_all, rhyme_vowel, rhyme_conso }
}

} // verus!
