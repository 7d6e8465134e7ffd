use rhymomatic::codec::{load, save};
use rhymomatic::dictionary::parse_dictionary;
use rhymomatic::index::{build_indexes, index_key, PhonemeFilter, PhoneticIndex};
use rhymomatic::ranker::score;

fn pairs_of(idx: &PhoneticIndex) -> Vec<(Vec<u8>, Vec<u8>)> {
    idx.pairs
        .iter()
        .map(|p| (p.key.clone(), p.word.clone()))
        .collect()
}

#[test]
fn six_variants_key_by_filtered_stripped_codes() {
    let dict = parse_dictionary(b"FOG  F AO1 G\n");
    let idx = build_indexes(&dict);
    assert_eq!(pairs_of(&idx.allit_all), vec![(b"F-AO-G".to_vec(), b"FOG".to_vec())]);
    assert_eq!(pairs_of(&idx.allit_vowel), vec![(b"AO".to_vec(), b"FOG".to_vec())]);
    assert_eq!(pairs_of(&idx.allit_conso), vec![(b"F-G".to_vec(), b"FOG".to_vec())]);
    assert_eq!(pairs_of(&idx.rhyme_all), vec![(b"G-AO-F".to_vec(), b"FOG".to_vec())]);
    assert_eq!(pairs_of(&idx.rhyme_vowel), vec![(b"AO".to_vec(), b"FOG".to_vec())]);
    assert_eq!(pairs_of(&idx.rhyme_conso), vec![(b"G-F".to_vec(), b"FOG".to_vec())]);
}

#[test]
fn key_collision_keeps_the_last_word() {
    // LOCUS and HOCUS share every phoneme but the first consonant, so the
    // vowel-only keys collide; the later entry wins the key.
    let dict = parse_dictionary(b"LOCUS  L OW1 K AH0 S\nHOCUS  HH OW1 K AH0 S\n");
    let idx = build_indexes(&dict);
    assert_eq!(pairs_of(&idx.allit_vowel), vec![(b"OW-AH".to_vec(), b"HOCUS".to_vec())]);
    // The full-phoneme keys differ, so both entries survive there.
    assert_eq!(idx.allit_all.pairs.len(), 2);
}

#[test]
fn index_key_respects_filter_and_orientation() {
    let dict = parse_dictionary(b"CIRCUS  S ER1 K AH0 S\n");
    let t = &dict.entries[0].transcription;
    assert_eq!(index_key(t, PhonemeFilter::All, false), b"S-ER-K-AH-S".to_vec());
    assert_eq!(index_key(t, PhonemeFilter::All, true), b"S-AH-K-ER-S".to_vec());
    assert_eq!(index_key(t, PhonemeFilter::VowelsOnly, false), b"ER-AH".to_vec());
    assert_eq!(index_key(t, PhonemeFilter::ConsonantsOnly, true), b"S-K-S".to_vec());
}

#[test]
fn subtrie_respects_the_delimiter_boundary() {
    let mut idx = PhoneticIndex::new();
    idx.insert(b"AA".to_vec(), b"ODD".to_vec());
    idx.insert(b"AA-T".to_vec(), b"OTTO".to_vec());
    idx.insert(b"AAT".to_vec(), b"FAKECODE".to_vec());
    idx.insert(b"AH-T".to_vec(), b"HUT".to_vec());
    let hits = idx.subtrie(&b"AA".to_vec());
    let words: Vec<Vec<u8>> = hits.iter().map(|p| p.word.clone()).collect();
    assert_eq!(words, vec![b"ODD".to_vec(), b"OTTO".to_vec()]);
}

#[test]
fn save_load_round_trips_every_variant() {
    let dict = parse_dictionary(
        b"FOCUS  F OW1 K AH0 S\nCROCUS  K R OW1 K AH0 S\nFOG  F AO1 G\nCAT  K AE1 T\n",
    );
    let idx = build_indexes(&dict);
    for variant in [
        &idx.allit_all,
        &idx.allit_vowel,
        &idx.allit_conso,
        &idx.rhyme_all,
        &idx.rhyme_vowel,
        &idx.rhyme_conso,
    ] {
        let bytes = save(variant);
        let back = load(&bytes).unwrap();
        assert_eq!(pairs_of(&back), pairs_of(variant));
    }
}

#[test]
fn load_rejects_malformed_bytes() {
    assert!(load(b"").is_none());
    assert!(load(b"short").is_none());
    // A count of one pair but no pair data behind it.
    let mut bytes = vec![1u8, 0, 0, 0, 0, 0, 0, 0];
    assert!(load(&bytes).is_none());
    // Trailing garbage after a valid artifact.
    let idx = PhoneticIndex::new();
    bytes = save(&idx);
    bytes.push(0);
    assert!(load(&bytes).is_none());
}

#[test]
fn score_is_the_count_difference() {
    assert_eq!(score(5, 3), 2);
    assert_eq!(score(3, 5), 2);
    assert_eq!(score(5, 5), 0);
    assert_eq!(score(0, 7), 7);
}

#[test]
fn insert_overwrites_in_place() {
    let mut idx = PhoneticIndex::new();
    idx.insert(b"K".to_vec(), b"FIRST".to_vec());
    idx.insert(b"L".to_vec(), b"OTHER".to_vec());
    idx.insert(b"K".to_vec(), b"SECOND".to_vec());
    assert_eq!(
        pairs_of(&idx),
        vec![
            (b"K".to_vec(), b"SECOND".to_vec()),
            (b"L".to_vec(), b"OTHER".to_vec()),
        ]
    );
}
