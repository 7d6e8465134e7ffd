//! The dictionary: ordered (word, transcription) entries, lookup by word,
//! and the parser for the plain-text source format.

use vstd::prelude::*;
use crate::phoneme::{
    Phoneme, PhonemeModel, bytes_equal, bytes_of_slice, parse_phoneme, parse_phoneme_model,
    trans_model,
};

verus! {

/// The one recoverable, user-facing error: the query word has no entry.
/// A malformed source line is no error — the parser skips it — and the
/// pattern grammar is total, so nothing else in the core can fail.
#[derive(PartialEq, Eq, Structural, Clone, Copy, Debug)]
pub enum RhymeError {
    WordNotFound,
}

/// One pronunciation of one word.
pub struct DictionaryEntry {
    pub word: Vec<u8>,
    pub transcription: Vec<Phoneme>,
}

/// Ghost-level picture of an entry.
pub struct EntryModel {
    pub word: Seq<u8>,
    pub line: Seq<PhonemeModel>,
}

impl View for DictionaryEntry {
    type V = EntryModel;

    open spec fn view(&self) -> EntryModel {
        EntryModel { word: self.word@, line: trans_model(self.transcription@) }
    }
}

/// An ordered sequence of entries, immutable once loaded. A word may occur
/// more than once (pronunciation variants); lookup takes the first.
pub struct Dictionary {
    pub entries: Vec<DictionaryEntry>,
}

impl View for Dictionary {
    type V = Seq<EntryModel>;

    open spec fn view(&self) -> Seq<EntryModel> {
        self.entries@.map_values(|e: DictionaryEntry| e@)
    }
}

/// ASCII upper-casing of one byte: only `a` through `z` change.
pub open spec fn upper_byte(b: u8) -> u8 {
    if 97 <= b <= 122 {
        (b - 32) as u8
    } else {
        b
    }
}

/// ASCII upper-casing of a word.
pub open spec fn upper_model(s: Seq<u8>) -> Seq<u8> {
    s.map_values(|b: u8| upper_byte(b))
}

/// A word that upper-casing leaves alone: it holds no lower-case letter.
pub open spec fn word_is_upper(w: Seq<u8>) -> bool {
    forall|i: int| 0 <= i < w.len() ==> !(97 <= #[trigger] w[i] <= 122)
}

/// Upper-cases a word.
pub fn to_upper(word: &[u8]) -> (r: Vec<u8>)
    ensures
        r@ == upper_model(word@),
{
    let mut r: Vec<u8> = Vec::new();
    let mut i: usize = 0;
    while i < word.len()
        invariant
            i <= word@.len(),
            r@.len() == i,
            r@ =~= upper_model(word@).take(i as int),
        decreases word@.len() - i,
    {
        let b = word[i];
        if 97 <= b && b <= 122 {
            r.push(b - 32);
        } else {
            r.push(b);
        }
        proof {
            assert(r@ =~= upper_model(word@).take(i + 1 as int));
        }
        i = i + 1;
    }
    proof {
        assert(upper_model(word@).take(word@.len() as int) =~= upper_model(word@));
    }
    r
}

/// What lookup returns: the transcription of the first entry whose word is
/// `w`, if any entry lists it.
pub open spec fn lookup_model(d: Seq<EntryModel>, w: Seq<u8>) -> Option<Seq<PhonemeModel>>
    decreases d.len(),
{
    if d.len() == 0 {
        None
    } else if d[0].word == w {
        Some(d[0].line)
    } else {
        lookup_model(d.drop_first(), w)
    }
}

proof fn lemma_lookup_hit(d: Seq<EntryModel>, w: Seq<u8>, i: int)
    requires
        0 <= i < d.len(),
        forall|j: int| 0 <= j < i ==> #[trigger] d[j].word != w,
        d[i].word == w,
    ensures
        lookup_model(d, w) == Some(d[i].line),
    decreases i,
{
    if i > 0 {
        lemma_lookup_hit(d.drop_first(), w, i - 1);
    }
}

proof fn lemma_lookup_miss(d: Seq<EntryModel>, w: Seq<u8>)
    requires
        forall|j: int| 0 <= j < d.len() ==> #[trigger] d[j].word != w,
    ensures
        lookup_model(d, w) is None,
    decreases d.len(),
{
    if d.len() > 0 {
        lemma_lookup_miss(d.drop_first(), w);
    }
}

/// Looks a word up, case-insensitively: the input is upper-cased first,
/// as the dictionary keys are stored upper-case. Returns the first-listed
/// pronunciation, or `WordNotFound` when no entry lists the word.
pub fn lookup<'a>(dict: &'a Dictionary, word: &[u8]) -> (r: Result<
    &'a Vec<Phoneme>,
    RhymeError,
>)
    ensures
        match r {
            Ok(t) => lookup_model(dict@, upper_model(word@)) == Some(trans_model(t@)),
            Err(e) => e is WordNotFound && lookup_model(dict@, upper_model(word@)) is None,
        },
{
    let w = to_upper(word);
    let mut i: usize = 0;
    while i < dict.entries.len()
        invariant
            i <= dict.entries@.len(),
            w@ == upper_model(word@),
            forall|j: int| 0 <= j < i ==> #[trigger] dict@[j].word != w@,
        decreases dict.entries@.len() - i,
    {
        if bytes_equal(&dict.entries[i].word, &w) {
            proof {
                lemma_lookup_hit(dict@, w@, i as int);
            }
            return Ok(&dict.entries[i].transcription);
        }
        i = i + 1;
    }
    proof {
        lemma_lookup_miss(dict@, w@);
    }
    Err(RhymeError::WordNotFound)
}

/// Law: for every dictionary entry, looking its word up — provided no
/// earlier entry lists the same word — returns exactly that entry's
/// transcription: the first-listed pronunciation wins.
pub proof fn lemma_lookup_returns_first(d: Seq<EntryModel>, i: int)
    requires
        0 <= i < d.len(),
        forall|j: int| 0 <= j < i ==> #[trigger] d[j].word != d[i].word,
        word_is_upper(d[i].word),
    ensures
        upper_model(d[i].word) == d[i].word,
        lookup_model(d, upper_model(d[i].word)) == Some(d[i].line),
{
    assert(upper_model(d[i].word) =~= d[i].word);
    lemma_lookup_hit(d, d[i].word, i);
}

/// The first position of byte `b` in `s` at or after `from`, or `s.len()`
/// when there is none.
pub open spec fn find_byte_model(s: Seq<u8>, b: u8, from: int) -> int
    decreases s.len() - from,
{
    if from < 0 || from >= s.len() {
        s.len() as int
    } else if s[from] == b {
        from
    } else {
        find_byte_model(s, b, from + 1)
    }
}

/// The found position never lies before `from` nor past the end.
pub proof fn lemma_find_byte_bounds(s: Seq<u8>, b: u8, from: int)
    requires
        0 <= from <= s.len(),
    ensures
        from <= find_byte_model(s, b, from) <= s.len(),
    decreases s.len() - from,
{
    if from < s.len() && s[from] != b {
        lemma_find_byte_bounds(s, b, from + 1);
    }
}

/// Finds the next occurrence of a byte in a slice.
pub fn find_byte(s: &[u8], b: u8, from: usize) -> (r: usize)
    requires
        from <= s@.len(),
    ensures
        r == find_byte_model(s@, b, from as int),
        from <= r <= s@.len(),
        r < s@.len() ==> s@[r as int] == b,
{
    let mut i: usize = from;
    while i < s.len()
        invariant
            from <= i <= s@.len(),
            find_byte_model(s@, b, from as int) == find_byte_model(s@, b, i as int),
        decreases s@.len() - i,
    {
        if s[i] == b {
            return i;
        }
        i = i + 1;
    }
    s.len()
}

/// The phonemes written in `s` from position `from` on: space-separated
/// raw tokens, empties skipped, each parsed into a phoneme.
pub open spec fn parse_tokens_model(s: Seq<u8>, from: int) -> Seq<PhonemeModel>
    decreases s.len() - from,
    via parse_tokens_model_decreases
{
    if from < 0 || from >= s.len() {
        seq![]
    } else {
        let e = find_byte_model(s, 32, from);
        if e == from {
            parse_tokens_model(s, from + 1)
        } else {
            let tok = parse_phoneme_model(s.subrange(from, e));
            if e >= s.len() {
                seq![tok]
            } else {
                seq![tok] + parse_tokens_model(s, e + 1)
            }
        }
    }
}

#[via_fn]
proof fn parse_tokens_model_decreases(s: Seq<u8>, from: int) {
    if 0 <= from < s.len() {
        lemma_find_byte_bounds(s, 32, from);
    }
}

/// What one source line means.
///
/// A line is `WORD  PH1 PH2 ...`: the word, two spaces, then the phoneme
/// tokens. A blank line, a comment line (leading `;`), or a line that does
/// not fit the shape — no two-space separator, an empty word, no phonemes —
/// yields no entry: the parser's policy for a malformed line is to skip it,
/// never to fail. A parenthesized variant marker such as `WORD(1)` is cut
/// off: the variant becomes a distinct entry under the base word.
pub open spec fn parse_line_entry(line: Seq<u8>) -> Option<EntryModel> {
    if line.len() == 0 || line[0] == 59 {
        None
    } else {
        let sp = find_byte_model(line, 32, 0);
        if sp == 0 || sp + 1 >= line.len() || line[sp + 1] != 32 {
            None
        } else {
            let par = find_byte_model(line, 40, 0);
            let wend = if par < sp {
                par
            } else {
                sp
            };
            let phs = parse_tokens_model(line, sp + 2);
            if wend == 0 || phs.len() == 0 {
                None
            } else {
                Some(EntryModel { word: line.subrange(0, wend), line: phs })
            }
        }
    }
}

/// The entries of the whole source text from position `from` on, line by
/// line (lines end at a newline byte or at the end of the text).
pub open spec fn parse_from(text: Seq<u8>, from: int) -> Seq<EntryModel>
    decreases text.len() - from,
    via parse_from_decreases
{
    if from < 0 || from >= text.len() {
        seq![]
    } else {
        let e = find_byte_model(text, 10, from);
        let rest = if e >= text.len() {
            seq![]
        } else {
            parse_from(text, e + 1)
        };
        match parse_line_entry(text.subrange(from, e)) {
            Some(en) => seq![en] + rest,
            None => rest,
        }
    }
}

#[via_fn]
proof fn parse_from_decreases(text: Seq<u8>, from: int) {
    if 0 <= from < text.len() {
        lemma_find_byte_bounds(text, 10, from);
    }
}

/// What the parser produces for a whole source text.
pub open spec fn parse_dict_model(text: Seq<u8>) -> Seq<EntryModel> {
    parse_from(text, 0)
}

/// Parses one line into an entry, if the line carries one.
fn parse_line(line: &Vec<u8>) -> (r: Option<DictionaryEntry>)
    ensures
        match r {
            Some(en) => parse_line_entry(line@) == Some(en@),
            None => parse_line_entry(line@) is None,
        },
{
    if line.len() == 0 || line[0] == 59 {
        return None;
    }
    let sp = find_byte(line.as_slice(), 32, 0);
    if sp == 0 || sp >= line.len() - 1 || line[sp + 1] != 32 {
        return None;
    }
    let par = find_byte(line.as_slice(), 40, 0);
    let wend = if par < sp {
        par
    } else {
        sp
    };
    if wend == 0 {
        return None;
    }
    let mut phs: Vec<Phoneme> = Vec::new();
    let mut c: usize = sp + 2;
    while c < line.len()
        invariant
            sp + 2 <= c <= line@.len(),
            parse_tokens_model(line@, sp + 2 as int) =~= trans_model(phs@) + parse_tokens_model(
                line@,
                c as int,
            ),
        decreases line@.len() - c,
    {
        let e = find_byte(line.as_slice(), 32, c);
        if e == c {
            c = c + 1;
        } else {
            let tok = bytes_of_slice(line.as_slice(), c, e);
            let p = parse_phoneme(tok.as_slice());
            phs.push(p);
            proof {
                assert(trans_model(phs@) =~= trans_model(phs@.drop_last()).push(p@));
                assert(parse_tokens_model(line@, sp + 2 as int) =~= trans_model(phs@)
                    + (if e >= line@.len() {
                    Seq::<PhonemeModel>::empty()
                } else {
                    parse_tokens_model(line@, e + 1 as int)
                }));
            }
            if e >= line.len() {
                c = line.len();
                proof {
                    assert(parse_tokens_model(line@, c as int) =~= Seq::<PhonemeModel>::empty());
                    assert(parse_tokens_model(line@, sp + 2 as int) =~= trans_model(phs@)
                        + parse_tokens_model(line@, c as int));
                }
            } else {
                c = e + 1;
            }
        }
    }
    proof {
        assert(parse_tokens_model(line@, c as int) =~= Seq::<PhonemeModel>::empty());
        assert(parse_tokens_model(line@, sp + 2 as int) =~= trans_model(phs@));
    }
    if phs.len() == 0 {
        return None;
    }
    let word = bytes_of_slice(line.as_slice(), 0, wend);
    proof {
        assert(word@ =~= line@.subrange(0, wend as int));
    }
    Some(DictionaryEntry { word, transcription: phs })
}

/// Parses a whole source text into a dictionary: one entry per well-formed
/// line, in source order; blank, comment and malformed lines skipped.
pub fn parse_dictionary(text: &[u8]) -> (d: Dictionary)
    ensures
        d@ == parse_dict_model(text@),
{
    let mut entries: Vec<DictionaryEntry> = Vec::new();
    let mut pos: usize = 0;
    while pos < text.len()
        invariant
            pos <= text@.len(),
            parse_dict_model(text@) =~= entries@.map_values(|en: DictionaryEntry| en@)
                + parse_from(text@, pos as int),
        decreases text@.len() - pos,
    {
        let e = find_byte(text, 10, pos);
        let line = bytes_of_slice(text, pos, e);
        let ghost entries_before = entries@;
        match parse_line(&line) {
            Some(en) => {
                entries.push(en);
                proof {
                    assert(entries@.map_values(|x: DictionaryEntry| x@)
                        =~= entries_before.map_values(|x: DictionaryEntry| x@).push(
                        entries@[entries@.len() - 1]@,
                    ));
                }
            },
            None => {},
        }
        if e >= text.len() {
            pos = text.len();
            proof {
                assert(parse_from(text@, pos as int) =~= Seq::<EntryModel>::empty());
                assert(parse_dict_model(text@) =~= entries@.map_values(
                    |en: DictionaryEntry| en@,
                ) + parse_from(text@, pos as int));
            }
        } else {
            pos = e + 1;
            proof {
                assert(parse_dict_model(text@) =~= entries@.map_values(
                    |en: DictionaryEntry| en@,
                ) + parse_from(text@, pos as int));
            }
        }
    }
    proof {
        assert(parse_from(text@, pos as int) =~= Seq::<EntryModel>::empty());
        assert(parse_dict_model(text@) =~= entries@.map_values(|en: DictionaryEntry| en@));
    }
    Dictionary { entries }
}

} // verus!
