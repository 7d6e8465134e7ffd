//! Wildcard pattern builder: turns a query transcription into a sequence of
//! literal-or-wildcard tokens under a chosen match style.

use vstd::prelude::*;
use crate::phoneme::{
    Phoneme, PhonemeModel, copy_bytes, is_vowel_model, trans_model,
};

verus! {

/// Which phonemes of the query must match literally.
///
/// `Syllabic` keeps every phoneme literal. `Vowel` keeps vowels literal and
/// wildcards consonants (assonance-style matching). `Consonant` is the
/// mirror image: consonants literal, vowels wildcarded (consonance-style).
/// Note the naming: `Vowel` here says which phonemes are *matched*, while
/// the vowel-only index of the index builder says which phonemes are
/// *stored*; the two senses are opposites of one another.
#[derive(PartialEq, Eq, Structural, Clone, Copy, Debug)]
pub enum RhymeStyle {
    Syllabic,
    Vowel,
    Consonant,
}

/// Where the pattern is anchored on a candidate transcription: at its end
/// (a rhyme), at its start (alliteration), or anywhere within it.
#[derive(PartialEq, Eq, Structural, Clone, Copy, Debug)]
pub enum RhymeType {
    Rhyme,
    Alliteration,
    Any,
}

/// One token of a match pattern. A token always consumes exactly one
/// phoneme of the candidate.
pub enum Token {
    /// Matches a phoneme whose code and stress both equal these.
    Exact { code: Vec<u8>, stress: Option<u8> },
    /// Matches a phoneme with this code under any stress (or none).
    CodeOnly { code: Vec<u8> },
    /// Matches any single phoneme, stress included.
    Wild,
}

/// Ghost-level picture of a token.
pub enum TokenModel {
    Exact { code: Seq<u8>, stress: Option<u8> },
    CodeOnly { code: Seq<u8> },
    Wild,
}

impl View for Token {
    type V = TokenModel;

    open spec fn view(&self) -> TokenModel {
        match self {
            Token::Exact { code, stress } => TokenModel::Exact { code: code@, stress: *stress },
            Token::CodeOnly { code } => TokenModel::CodeOnly { code: code@ },
            Token::Wild => TokenModel::Wild,
        }
    }
}

/// The ghost picture of a token sequence.
pub open spec fn toks_model(s: Seq<Token>) -> Seq<TokenModel> {
    s.map_values(|t: Token| t@)
}

/// Whether one token accepts one phoneme.
pub open spec fn token_matches(t: TokenModel, p: PhonemeModel) -> bool {
    match t {
        TokenModel::Exact { code, stress } => p.code == code && p.stress == stress,
        TokenModel::CodeOnly { code } => p.code == code,
        TokenModel::Wild => true,
    }
}

/// The token a query phoneme becomes under a match style.
pub open spec fn token_for(p: PhonemeModel, style: RhymeStyle, keep_stress: bool) -> TokenModel {
    match style {
        RhymeStyle::Syllabic => TokenModel::Exact { code: p.code, stress: p.stress },
        RhymeStyle::Vowel => if is_vowel_model(p) {
            if keep_stress {
                TokenModel::Exact { code: p.code, stress: p.stress }
            } else {
                TokenModel::CodeOnly { code: p.code }
            }
        } else {
            TokenModel::Wild
        },
        RhymeStyle::Consonant => if is_vowel_model(p) {
            TokenModel::Wild
        } else {
            TokenModel::Exact { code: p.code, stress: p.stress }
        },
    }
}

/// The whole pattern a query transcription becomes: one token per phoneme.
pub open spec fn build_tokens_model(
    t: Seq<PhonemeModel>,
    style: RhymeStyle,
    keep_stress: bool,
) -> Seq<TokenModel> {
    t.map_values(|p: PhonemeModel| token_for(p, style, keep_stress))
}

/// Decides whether one pattern token accepts one candidate phoneme.
pub fn token_match(t: &Token, p: &Phoneme) -> (r: bool)
    ensures
        r == token_matches(t@, p@),
{
    match t {
        Token::Exact { code, stress } => {
            let code_eq = crate::phoneme::bytes_equal(code, &p.code);
            let stress_eq = match (*stress, p.stress) {
                (None, None) => true,
                (Some(a), Some(b)) => a == b,
                _ => false,
            };
            code_eq && stress_eq
        },
        Token::CodeOnly { code } => crate::phoneme::bytes_equal(code, &p.code),
        Token::Wild => true,
    }
}

/// Vowel-style tokens: each vowel stays literal — with its stress digit if
/// `keep_vowel_emph` is set, under any stress otherwise — and each
/// consonant becomes a wildcard.
pub fn wild_consos(t: &Vec<Phoneme>, keep_vowel_emph: bool) -> (r: Vec<Token>)
    ensures
        toks_model(r@) == build_tokens_model(trans_model(t@), RhymeStyle::Vowel, keep_vowel_emph),
{
    let ghost goal = build_tokens_model(trans_model(t@), RhymeStyle::Vowel, keep_vowel_emph);
    let mut r: Vec<Token> = Vec::new();
    let mut i: usize = 0;
    while i < t.len()
        invariant
            i <= t@.len(),
            r@.len() == i,
            goal == build_tokens_model(trans_model(t@), RhymeStyle::Vowel, keep_vowel_emph),
            toks_model(r@) =~= goal.take(i as int),
        decreases t@.len() - i,
    {
        let p = &t[i];
        if p.is_vowel() {
            if keep_vowel_emph {
                r.push(Token::Exact { code: copy_bytes(&p.code), stress: p.stress });
            } else {
                r.push(Token::CodeOnly { code: copy_bytes(&p.code) });
            }
        } else {
            r.push(Token::Wild);
        }
        proof {
            assert(toks_model(r@) =~= goal.take(i + 1 as int));
        }
        i = i + 1;
    }
    proof {
        assert(goal.take(t@.len() as int) =~= goal);
    }
    r
}

/// Consonant-style tokens: each consonant stays literal and each vowel
/// becomes a wildcard, which absorbs the stress digit with the phoneme.
pub fn wild_vowels(t: &Vec<Phoneme>) -> (r: Vec<Token>)
    ensures
        toks_model(r@) == build_tokens_model(trans_model(t@), RhymeStyle::Consonant, true),
{
    let ghost goal = build_tokens_model(trans_model(t@), RhymeStyle::Consonant, true);
    let mut r: Vec<Token> = Vec::new();
    let mut i: usize = 0;
    while i < t.len()
        invariant
            i <= t@.len(),
            r@.len() == i,
            goal == build_tokens_model(trans_model(t@), RhymeStyle::Consonant, true),
            toks_model(r@) =~= goal.take(i as int),
        decreases t@.len() - i,
    {
        let p = &t[i];
        if p.is_vowel() {
            r.push(Token::Wild);
        } else {
            r.push(Token::Exact { code: copy_bytes(&p.code), stress: p.stress });
        }
        proof {
            assert(toks_model(r@) =~= goal.take(i + 1 as int));
        }
        i = i + 1;
    }
    proof {
        assert(goal.take(t@.len() as int) =~= goal);
    }
    r
}

/// Syllabic tokens: every phoneme literal, stress kept as given.
fn literal_tokens(t: &Vec<Phoneme>) -> (r: Vec<Token>)
    ensures
        toks_model(r@) == build_tokens_model(trans_model(t@), RhymeStyle::Syllabic, true),
{
    let ghost goal = build_tokens_model(trans_model(t@), RhymeStyle::Syllabic, true);
    let mut r: Vec<Token> = Vec::new();
    let mut i: usize = 0;
    while i < t.len()
        invariant
            i <= t@.len(),
            r@.len() == i,
            goal == build_tokens_model(trans_model(t@), RhymeStyle::Syllabic, true),
            toks_model(r@) =~= goal.take(i as int),
        decreases t@.len() - i,
    {
        let p = &t[i];
        r.push(Token::Exact { code: copy_bytes(&p.code), stress: p.stress });
        proof {
            assert(toks_model(r@) =~= goal.take(i + 1 as int));
        }
        i = i + 1;
    }
    proof {
        assert(goal.take(t@.len() as int) =~= goal);
    }
    r
}

/// Builds the match pattern for a query transcription under a style.
///
/// `keep_stress` only matters for `Vowel` style; `Syllabic` keeps stress as
/// given and `Consonant` wildcards vowels together with their stress.
pub fn build_tokens(t: &Vec<Phoneme>, style: RhymeStyle, keep_stress: bool) -> (r: Vec<Token>)
    ensures
        toks_model(r@) == build_tokens_model(trans_model(t@), style, keep_stress),
{
    match style {
        RhymeStyle::Syllabic => {
            let r = literal_tokens(t);
            proof {
                assert(build_tokens_model(trans_model(t@), style, true) =~= build_tokens_model(
                    trans_model(t@),
                    style,
                    keep_stress,
                ));
            }
            r
        },
        RhymeStyle::Vowel => wild_consos(t, keep_stress),
        RhymeStyle::Consonant => {
            let r = wild_vowels(t);
            proof {
                assert(build_tokens_model(trans_model(t@), style, true) =~= build_tokens_model(
                    trans_model(t@),
                    style,
                    keep_stress,
                ));
            }
            r
        },
    }
}

} // verus!
