use rhymomatic::dictionary::{lookup, parse_dictionary, RhymeError};

#[test]
fn parse_skips_comments_blanks_and_malformed_lines() {
    let mut text = Vec::new();
    text.extend_from_slice(b";;; header comment\n");
    text.extend_from_slice(b"\n");
    text.extend_from_slice(b"FOG  F AO1 G\n");
    text.extend_from_slice(b"NOSEPARATOR\n");
    text.extend_from_slice(b"ONESPACE ONLY\n");
    text.extend_from_slice(b"  LEADINGSPACES  X Y\n");
    text.extend_from_slice(b"CAT  K AE1 T\n");
    let dict = parse_dictionary(&text);
    assert_eq!(dict.entries.len(), 2);
    assert_eq!(dict.entries[0].word, b"FOG".to_vec());
    assert_eq!(dict.entries[1].word, b"CAT".to_vec());
}

#[test]
fn parse_splits_word_and_phonemes() {
    let dict = parse_dictionary(b"FOG  F AO1 G\n");
    assert_eq!(dict.entries.len(), 1);
    let e = &dict.entries[0];
    assert_eq!(e.word, b"FOG".to_vec());
    assert_eq!(e.transcription.len(), 3);
    assert_eq!(e.transcription[0].code, b"F".to_vec());
    assert_eq!(e.transcription[0].stress, None);
    assert_eq!(e.transcription[1].code, b"AO".to_vec());
    assert_eq!(e.transcription[1].stress, Some(1));
    assert_eq!(e.transcription[2].code, b"G".to_vec());
}

#[test]
fn variant_suffix_becomes_an_entry_under_the_base_word() {
    let dict = parse_dictionary(b"LEAD  L IY1 D\nLEAD(1)  L EH1 D\n");
    assert_eq!(dict.entries.len(), 2);
    assert_eq!(dict.entries[0].word, b"LEAD".to_vec());
    assert_eq!(dict.entries[1].word, b"LEAD".to_vec());
}

#[test]
fn lookup_returns_the_first_listed_pronunciation() {
    let dict = parse_dictionary(b"LEAD  L IY1 D\nLEAD(1)  L EH1 D\n");
    let t = lookup(&dict, b"LEAD").unwrap();
    assert_eq!(t.len(), 3);
    assert_eq!(t[1].code, b"IY".to_vec());
    assert_eq!(t[1].stress, Some(1));
}

#[test]
fn lookup_uppercases_its_input() {
    let dict = parse_dictionary(b"FOG  F AO1 G\n");
    assert!(lookup(&dict, b"fog").is_ok());
    assert!(lookup(&dict, b"Fog").is_ok());
    assert_eq!(lookup(&dict, b"bog"), Err(RhymeError::WordNotFound));
}

#[test]
fn last_line_without_newline_still_parses() {
    let dict = parse_dictionary(b"FOG  F AO1 G\nCAT  K AE1 T");
    assert_eq!(dict.entries.len(), 2);
    assert_eq!(dict.entries[1].word, b"CAT".to_vec());
}

#[test]
fn repeated_spaces_between_phonemes_are_tolerated() {
    let dict = parse_dictionary(b"FOG  F  AO1   G\n");
    assert_eq!(dict.entries.len(), 1);
    assert_eq!(dict.entries[0].transcription.len(), 3);
}
