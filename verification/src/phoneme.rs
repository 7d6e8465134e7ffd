//! The phoneme model: ARPABET codes, stress digits, and the vowel set.

use vstd::prelude::*;

verus! {

/// One ARPABET phoneme: a short alphabetic code, plus the stress digit a
/// vowel may carry in a dictionary transcription (`OW1` is code `OW`,
/// stress `1`).
#[derive(Debug, PartialEq, Eq)]
pub struct Phoneme {
    pub code: Vec<u8>,
    pub stress: Option<u8>,
}

/// Ghost-level picture of a phoneme: the code bytes and the stress digit.
pub struct PhonemeModel {
    pub code: Seq<u8>,
    pub stress: Option<u8>,
}

impl View for Phoneme {
    type V = PhonemeModel;

    open spec fn view(&self) -> PhonemeModel {
        PhonemeModel { code: self.code@, stress: self.stress }
    }
}

/// The fifteen vowel codes, keyed by their two letters:
/// AA AE AH AO AW AY EH ER EY IH IY OW OY UH UW.
pub open spec fn is_vowel_pair(a: u8, b: u8) -> bool {
    ||| (a == 65 && (b == 65 || b == 69 || b == 72 || b == 79 || b == 87 || b == 89))
    ||| (a == 69 && (b == 72 || b == 82 || b == 89))
    ||| (a == 73 && (b == 72 || b == 89))
    ||| (a == 79 && (b == 87 || b == 89))
    ||| (a == 85 && (b == 72 || b == 87))
}

/// A code denotes a vowel sound iff it is one of the fifteen two-letter
/// vowel codes. Any other code — including an unknown one — counts as a
/// consonant; that conservative default is a policy choice.
pub open spec fn is_vowel_code(code: Seq<u8>) -> bool {
    code.len() == 2 && is_vowel_pair(code[0], code[1])
}

pub open spec fn is_vowel_model(p: PhonemeModel) -> bool {
    is_vowel_code(p.code)
}

/// An ASCII decimal digit, as a raw transcription token may end in one.
pub open spec fn is_stress_digit(b: u8) -> bool {
    48 <= b <= 57
}

/// Splitting a raw token such as `OW1` into code `OW` and stress `1`:
/// a trailing digit, if present, is the stress; the rest is the code.
pub open spec fn parse_phoneme_model(tok: Seq<u8>) -> PhonemeModel {
    if tok.len() > 0 && is_stress_digit(tok[tok.len() - 1]) {
        PhonemeModel {
            code: tok.take(tok.len() - 1),
            stress: Some((tok[tok.len() - 1] - 48) as u8),
        }
    } else {
        PhonemeModel { code: tok, stress: None }
    }
}

/// Copies a byte range out of a slice.
pub fn bytes_of_slice(s: &[u8], from: usize, to: usize) -> (r: Vec<u8>)
    requires
        from <= to <= s@.len(),
    ensures
        r@ == s@.subrange(from as int, to as int),
{
    let mut r: Vec<u8> = Vec::new();
    let mut i: usize = from;
    while i < to
        invariant
            from <= i <= to <= s@.len(),
            r@ == s@.subrange(from as int, i as int),
        decreases to - i,
    {
        r.push(s[i]);
        proof {
            assert(r@ =~= s@.subrange(from as int, i + 1 as int));
        }
        i = i + 1;
    }
    r
}

/// Copies a byte vector.
pub fn copy_bytes(v: &Vec<u8>) -> (r: Vec<u8>)
    ensures
        r@ == v@,
{
    let mut r: Vec<u8> = Vec::new();
    let mut i: usize = 0;
    while i < v.len()
        invariant
            i <= v@.len(),
            r@ == v@.subrange(0, i as int),
        decreases v@.len() - i,
    {
        r.push(v[i]);
        proof {
            assert(r@ =~= v@.subrange(0, i + 1 as int));
        }
        i = i + 1;
    }
    proof {
        assert(r@ =~= v@);
    }
    r
}

/// The ghost picture of a transcription: one model per phoneme, in order.
pub open spec fn trans_model(s: Seq<Phoneme>) -> Seq<PhonemeModel> {
    s.map_values(|p: Phoneme| p@)
}

/// Byte-for-byte equality of two byte vectors.
pub fn bytes_equal(a: &Vec<u8>, b: &Vec<u8>) -> (r: bool)
    ensures
        r == (a@ == b@),
{
    if a.len() != b.len() {
        return false;
    }
    let mut i: usize = 0;
    while i < a.len()
        invariant
            i <= a@.len(),
            a@.len() == b@.len(),
            forall|j: int| 0 <= j < i ==> a@[j] == b@[j],
        decreases a@.len() - i,
    {
        if a[i] != b[i] {
            return false;
        }
        i = i + 1;
    }
    proof {
        assert(a@ =~= b@);
    }
    true
}

impl Phoneme {
    /// Classifies this phoneme: true exactly for the fifteen vowel codes,
    /// stress digit ignored (it is not part of the code).
    pub fn is_vowel(&self) -> (r: bool)
        ensures
            r == is_vowel_model(self@),
    {
        if self.code.len() != 2 {
            return false;
        }
        let a = self.code[0];
        let b = self.code[1];
        (a == 65 && (b == 65 || b == 69 || b == 72 || b == 79 || b == 87 || b == 89))
            || (a == 69 && (b == 72 || b == 82 || b == 89))
            || (a == 73 && (b == 72 || b == 89))
            || (a == 79 && (b == 87 || b == 89))
            || (a == 85 && (b == 72 || b == 87))
    }

    /// The same phoneme with its stress removed: only the code remains.
    pub fn strip_stress(&self) -> (r: Phoneme)
        ensures
            r@.code == self@.code,
            r@.stress is None,
    {
        Phoneme { code: copy_bytes(&self.code), stress: None }
    }
}

/// Parses one raw transcription token (`OW1`, `K`) into a phoneme.
pub fn parse_phoneme(tok: &[u8]) -> (r: Phoneme)
    ensures
        r@ == parse_phoneme_model(tok@),
{
    let n = tok.len();
    if n > 0 {
        let last = tok[n - 1];
        if 48 <= last && last <= 57 {
            return Phoneme { code: bytes_of_slice(tok, 0, n - 1), stress: Some(last - 48) };
        }
    }
    proof {
        assert(tok@.subrange(0, n as int) =~= tok@);
    }
    Phoneme { code: bytes_of_slice(tok, 0, n), stress: None }
}

/// Law: classification is total and is decided by the code alone — the
/// stress digit never changes it — and every code of the vowel set
/// classifies as a vowel.
pub proof fn lemma_vowel_classification(p: PhonemeModel, q: PhonemeModel)
    requires
        p.code == q.code,
    ensures
        is_vowel_model(p) == is_vowel_model(q),
        is_vowel_code(seq![65, 65]),
        is_vowel_code(seq![65, 69]),
        is_vowel_code(seq![65, 72]),
        is_vowel_code(seq![65, 79]),
        is_vowel_code(seq![65, 87]),
        is_vowel_code(seq![65, 89]),
        is_vowel_code(seq![69, 72]),
        is_vowel_code(seq![69, 82]),
        is_vowel_code(seq![69, 89]),
        is_vowel_code(seq![73, 72]),
        is_vowel_code(seq![73, 89]),
        is_vowel_code(seq![79, 87]),
        is_vowel_code(seq![79, 89]),
        is_vowel_code(seq![85, 72]),
        is_vowel_code(seq![85, 87]),
{
}

/// Law: a raw token that ends in a stress digit parses to the same code as
/// the bare token; the digit lands in the stress field, never in the code.
pub proof fn lemma_stress_never_in_code(code: Seq<u8>, d: u8)
    requires
        code.len() == 0 || !is_stress_digit(code[code.len() - 1]),
        is_stress_digit(d),
    ensures
        parse_phoneme_model(code.push(d)).code == code,
        parse_phoneme_model(code.push(d)).stress == Some((d - 48) as u8),
        parse_phoneme_model(code).code == code,
        parse_phoneme_model(code).stress is None,
{
    assert(code.push(d).take(code.len() as int) =~= code);
}

} // verus!
