use rhymomatic::pattern::{build_tokens, wild_consos, wild_vowels, RhymeStyle, Token};
use rhymomatic::phoneme::{parse_phoneme, Phoneme};

fn focus_transcription() -> Vec<Phoneme> {
    [b"F".as_slice(), b"OW1", b"K", b"AH0", b"S"]
        .iter()
        .map(|t| parse_phoneme(t))
        .collect()
}

fn is_wild(t: &Token) -> bool {
    matches!(t, Token::Wild)
}

fn is_exact(t: &Token, code: &[u8], stress: Option<u8>) -> bool {
    match t {
        Token::Exact { code: c, stress: s } => c.as_slice() == code && *s == stress,
        _ => false,
    }
}

fn is_code_only(t: &Token, code: &[u8]) -> bool {
    match t {
        Token::CodeOnly { code: c } => c.as_slice() == code,
        _ => false,
    }
}

#[test]
fn vowel_style_keeping_stress_renders_wild_ow1_wild_ah0_wild() {
    let t = focus_transcription();
    let toks = wild_consos(&t, true);
    assert_eq!(toks.len(), 5);
    assert!(is_wild(&toks[0]));
    assert!(is_exact(&toks[1], b"OW", Some(1)));
    assert!(is_wild(&toks[2]));
    assert!(is_exact(&toks[3], b"AH", Some(0)));
    assert!(is_wild(&toks[4]));
}

#[test]
fn vowel_style_dropping_stress_wildcards_the_digit() {
    let t = focus_transcription();
    let toks = wild_consos(&t, false);
    assert_eq!(toks.len(), 5);
    assert!(is_wild(&toks[0]));
    assert!(is_code_only(&toks[1], b"OW"));
    assert!(is_wild(&toks[2]));
    assert!(is_code_only(&toks[3], b"AH"));
    assert!(is_wild(&toks[4]));
}

#[test]
fn consonant_style_renders_f_wild_k_wild_s() {
    let t = focus_transcription();
    let toks = wild_vowels(&t);
    assert_eq!(toks.len(), 5);
    assert!(is_exact(&toks[0], b"F", None));
    assert!(is_wild(&toks[1]));
    assert!(is_exact(&toks[2], b"K", None));
    assert!(is_wild(&toks[3]));
    assert!(is_exact(&toks[4], b"S", None));
}

#[test]
fn syllabic_style_keeps_every_phoneme_literal() {
    let t = focus_transcription();
    let toks = build_tokens(&t, RhymeStyle::Syllabic, true);
    assert_eq!(toks.len(), 5);
    assert!(is_exact(&toks[0], b"F", None));
    assert!(is_exact(&toks[1], b"OW", Some(1)));
    assert!(is_exact(&toks[2], b"K", None));
    assert!(is_exact(&toks[3], b"AH", Some(0)));
    assert!(is_exact(&toks[4], b"S", None));
}

#[test]
fn build_tokens_dispatches_by_style() {
    let t = focus_transcription();
    let v = build_tokens(&t, RhymeStyle::Vowel, true);
    assert!(is_wild(&v[0]) && is_exact(&v[1], b"OW", Some(1)));
    let c = build_tokens(&t, RhymeStyle::Consonant, true);
    assert!(is_exact(&c[0], b"F", None) && is_wild(&c[1]));
}

#[test]
fn every_vowel_code_classifies_as_vowel_with_any_stress() {
    let codes: [&[u8]; 15] = [
        b"AA", b"AE", b"AH", b"AO", b"AW", b"AY", b"EH", b"ER", b"EY", b"IH", b"IY", b"OW",
        b"OY", b"UH", b"UW",
    ];
    for code in codes {
        let bare = parse_phoneme(code);
        assert!(bare.is_vowel());
        for d in [b'0', b'1', b'2'] {
            let mut tok = code.to_vec();
            tok.push(d);
            let stressed = parse_phoneme(&tok);
            assert!(stressed.is_vowel());
            assert_eq!(stressed.code, bare.code);
        }
    }
}

#[test]
fn consonants_and_unknown_codes_classify_as_consonant() {
    for code in [b"K".as_slice(), b"HH", b"ZH", b"NG", b"QQ", b"X"] {
        assert!(!parse_phoneme(code).is_vowel());
    }
}

#[test]
fn strip_stress_removes_only_the_digit() {
    let p = parse_phoneme(b"OW1");
    assert_eq!(p.code, b"OW".to_vec());
    assert_eq!(p.stress, Some(1));
    let s = p.strip_stress();
    assert_eq!(s.code, b"OW".to_vec());
    assert_eq!(s.stress, None);
    let bare = parse_phoneme(b"K");
    assert_eq!(bare.code, b"K".to_vec());
    assert_eq!(bare.stress, None);
}
