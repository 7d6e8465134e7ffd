use rhymomatic::dictionary::{parse_dictionary, RhymeError};
use rhymomatic::matcher::find_onepass;
use rhymomatic::pattern::{RhymeStyle, RhymeType};

const DICT_TEXT: &[u8] = b";;; a small pronunciation dictionary\n\
FOCUS  F OW1 K AH0 S\n\
FOCUSED  F OW1 K AH0 S T\n\
CROCUS  K R OW1 K AH0 S\n\
LOCUS  L OW1 K AH0 S\n\
HOCUS  HH OW1 K AH0 S\n\
BOGUS  B OW1 G AH0 S\n\
CIRCUS  S ER1 K AH0 S\n\
FOG  F AO1 G\n\
CAT  K AE1 T\n";

fn words(r: Result<Vec<Vec<u8>>, RhymeError>) -> Vec<String> {
    r.unwrap()
        .into_iter()
        .map(|w| String::from_utf8(w).unwrap())
        .collect()
}

#[test]
fn test_just_find_onepass() {
    let dict = parse_dictionary(DICT_TEXT);
    let word = "FOCUS";
    let v = find_onepass(
        &dict,
        word.as_bytes(),
        RhymeStyle::Syllabic,
        RhymeType::Rhyme,
        2,
        true,
    );
    println!("{:?}", words(v));
}

#[test]
fn test_just_find_onepass_vowel() {
    let dict = parse_dictionary(DICT_TEXT);
    let word = "FOCUS";
    let v = find_onepass(
        &dict,
        word.as_bytes(),
        RhymeStyle::Vowel,
        RhymeType::Rhyme,
        2,
        true,
    );
    println!("{:?}", words(v));
}

#[test]
fn test_just_find_onepass_conso() {
    let dict = parse_dictionary(DICT_TEXT);
    let word = "FOCUS";
    let v = find_onepass(
        &dict,
        word.as_bytes(),
        RhymeStyle::Consonant,
        RhymeType::Rhyme,
        2,
        true,
    );
    println!("{:?}", words(v));
}

#[test]
fn syllabic_rhyme_ranked_by_phoneme_count() {
    // The query itself counts five phonemes; every word whose count is
    // also five must outrank the six-phoneme words, and scores must never
    // decrease along the list.
    let dict = parse_dictionary(DICT_TEXT);
    let v = words(find_onepass(
        &dict,
        b"FOCUS",
        RhymeStyle::Syllabic,
        RhymeType::Rhyme,
        2,
        true,
    ));
    assert!(!v.is_empty());
    let score_of = |w: &String| -> usize {
        let t = rhymomatic::dictionary::lookup(&dict, w.as_bytes()).unwrap();
        if t.len() >= 5 {
            t.len() - 5
        } else {
            5 - t.len()
        }
    };
    let first = rhymomatic::dictionary::lookup(&dict, v[0].as_bytes()).unwrap();
    assert_eq!(first.len(), 5);
    for pair in v.windows(2) {
        assert!(score_of(&pair[0]) <= score_of(&pair[1]));
    }
    // Self-matches are permitted by design.
    assert!(v.contains(&"focus".to_string()));
    // LOCUS, HOCUS and CROCUS share the OW1 K AH0 S tail; CAT shares
    // nothing long enough.
    assert!(v.contains(&"locus".to_string()));
    assert!(v.contains(&"hocus".to_string()));
    assert!(v.contains(&"crocus".to_string()));
    assert!(!v.contains(&"cat".to_string()));
}

#[test]
fn word_not_found_error() {
    let dict = parse_dictionary(DICT_TEXT);
    let r = find_onepass(
        &dict,
        b"NOTAREALWORD",
        RhymeStyle::Syllabic,
        RhymeType::Rhyme,
        2,
        true,
    );
    assert_eq!(r, Err(RhymeError::WordNotFound));
}

#[test]
fn min_phonemes_at_or_over_length_is_empty_not_error() {
    let dict = parse_dictionary(DICT_TEXT);
    for min in [5usize, 6, 100] {
        let r = find_onepass(
            &dict,
            b"FOCUS",
            RhymeStyle::Syllabic,
            RhymeType::Rhyme,
            min,
            true,
        );
        assert_eq!(r, Ok(vec![]));
    }
}

#[test]
fn each_candidate_appears_at_most_once_per_entry() {
    // BOGUS matches FOCUS at window lengths 2 (AH0 S) and nothing longer
    // under Syllabic/Rhyme; LOCUS matches at 4, 3 and 2. The short-circuit
    // keeps one hit per entry, so no word may appear more often than it
    // has dictionary entries (here: once each).
    let dict = parse_dictionary(DICT_TEXT);
    let v = words(find_onepass(
        &dict,
        b"FOCUS",
        RhymeStyle::Syllabic,
        RhymeType::Rhyme,
        2,
        true,
    ));
    let mut seen = v.clone();
    seen.sort();
    seen.dedup();
    assert_eq!(seen.len(), v.len());
    assert!(v.contains(&"bogus".to_string()));
}

#[test]
fn rerunning_a_query_gives_identical_output() {
    let dict = parse_dictionary(DICT_TEXT);
    let a = words(find_onepass(
        &dict,
        b"FOCUS",
        RhymeStyle::Vowel,
        RhymeType::Rhyme,
        2,
        false,
    ));
    let b = words(find_onepass(
        &dict,
        b"FOCUS",
        RhymeStyle::Vowel,
        RhymeType::Rhyme,
        2,
        false,
    ));
    assert_eq!(a, b);
}

#[test]
fn alliteration_anchors_at_the_start() {
    let dict = parse_dictionary(DICT_TEXT);
    let v = words(find_onepass(
        &dict,
        b"FOCUS",
        RhymeStyle::Syllabic,
        RhymeType::Alliteration,
        2,
        true,
    ));
    // FOCUSED shares the leading F OW1 K AH0 (four phonemes) with FOCUS.
    assert!(v.contains(&"focused".to_string()));
    assert!(v.contains(&"focus".to_string()));
    assert!(!v.contains(&"locus".to_string()));
}

#[test]
fn any_type_matches_anywhere() {
    let dict = parse_dictionary(DICT_TEXT);
    // The tail OW1 K AH0 S of FOCUS occurs mid-line in no entry here, but
    // end-anchored occurrences are "anywhere" occurrences too.
    let v = words(find_onepass(
        &dict,
        b"FOCUS",
        RhymeStyle::Syllabic,
        RhymeType::Any,
        2,
        true,
    ));
    assert!(v.contains(&"crocus".to_string()));
    // FOCUSED carries OW1 K AH0 S strictly inside the line, which only
    // the anywhere anchor may accept at that window length.
    assert!(v.contains(&"focused".to_string()));
}

#[test]
fn lookup_is_case_insensitive_and_output_is_lowercase() {
    let dict = parse_dictionary(DICT_TEXT);
    let v = words(find_onepass(
        &dict,
        b"focus",
        RhymeStyle::Syllabic,
        RhymeType::Rhyme,
        2,
        true,
    ));
    assert!(!v.is_empty());
    for w in &v {
        assert_eq!(w, &w.to_lowercase());
    }
}

#[test]
fn min_phonemes_zero_admits_every_entry() {
    // With a floor of zero the weakest window is empty and accepts any
    // line, so every entry lands in the result, ranked by count distance.
    let dict = parse_dictionary(DICT_TEXT);
    let v = words(find_onepass(
        &dict,
        b"FOCUS",
        RhymeStyle::Syllabic,
        RhymeType::Rhyme,
        0,
        true,
    ));
    assert_eq!(v.len(), dict.entries.len());
    assert!(v.contains(&"cat".to_string()));
}

#[test]
fn vowel_style_without_stress_matches_across_stress_digits() {
    // BOGUS and FOCUS share the vowel codes OW and AH; with stress kept
    // the digits also agree here, but dropping stress must not lose the
    // match either.
    let dict = parse_dictionary(DICT_TEXT);
    let kept = words(find_onepass(
        &dict,
        b"FOCUS",
        RhymeStyle::Vowel,
        RhymeType::Rhyme,
        2,
        true,
    ));
    let dropped = words(find_onepass(
        &dict,
        b"FOCUS",
        RhymeStyle::Vowel,
        RhymeType::Rhyme,
        2,
        false,
    ));
    assert!(kept.contains(&"bogus".to_string()));
    assert!(dropped.contains(&"bogus".to_string()));
    // CIRCUS has vowels ER1 AH0, which differ from OW1 AH0 in code, so
    // the full vowel window cannot accept it; the weaker AH0-S tail under
    // Vowel style is wild-consonant AH0 wild, which does accept it.
    assert!(kept.contains(&"circus".to_string()));
}
