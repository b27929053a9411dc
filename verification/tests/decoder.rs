use ctc_asr::collapse::remove_duplicates_and_blanks;
use ctc_asr::decoder::{decode, transcript, DecodeError};
use ctc_asr::scores::ScoreMatrix;
use ctc_asr::vocabulary::{label, BLANK, VOCABULARY_SIZE};

fn one_hot_rows(picks: &[usize], classes: usize) -> ScoreMatrix {
    let mut bits: Vec<u32> = Vec::new();
    for &pick in picks {
        for class in 0..classes {
            let score: f32 = if class == pick { 0.9 } else { 0.1 / classes as f32 };
            bits.push(score.to_bits());
        }
    }
    ScoreMatrix::from_bits(picks.len(), classes, &bits).unwrap()
}

#[test]
fn vocabulary_holds_its_symbols_in_class_order() {
    let expected = [
        "-", "|", "E", "T", "A", "O", "N", "I", "H", "S", "R", "D", "L", "U", "M", "W", "C", "F",
        "G", "Y", "P", "B", "V", "K", "'", "X", "J", "Q", "Z",
    ];
    assert_eq!(expected.len(), VOCABULARY_SIZE);
    for (class, symbol) in expected.iter().enumerate() {
        assert_eq!(label(class), Some(*symbol));
    }
    assert_eq!(BLANK, 0);
}

#[test]
fn classes_beyond_the_vocabulary_have_no_symbol() {
    assert_eq!(label(VOCABULARY_SIZE), None);
    assert_eq!(label(30), None);
    assert_eq!(label(usize::MAX), None);
}

#[test]
fn tokens_read_as_their_symbols() {
    assert_eq!(transcript(&[2, 5]), Ok(String::from("EO")));
    assert_eq!(transcript(&[1]), Ok(String::from("|")));
    assert_eq!(transcript(&[8, 2, 12, 12, 5, 1, 15, 5, 10, 12, 11]), Ok(String::from("HELLO|WORLD")));
    assert_eq!(transcript(&[7, 24, 14]), Ok(String::from("I'M")));
}

#[test]
fn no_tokens_read_as_nothing() {
    assert_eq!(transcript(&[]), Ok(String::new()));
}

#[test]
fn blank_token_reads_as_its_own_symbol() {
    assert_eq!(transcript(&[0, 28]), Ok(String::from("-Z")));
}

#[test]
fn first_unknown_token_is_reported() {
    assert_eq!(
        transcript(&[2, 29, 40]),
        Err(DecodeError::UnknownClass { position: 1, class: 29 })
    );
    assert_eq!(
        transcript(&[usize::MAX]),
        Err(DecodeError::UnknownClass { position: 0, class: usize::MAX })
    );
}

#[test]
fn picks_collapse_to_a_transcript() {
    let frames = [0, 0, 2, 2, 0, 5, 5, 5, 0];
    let tokens = remove_duplicates_and_blanks(&frames, 0);
    assert_eq!(tokens, vec![2, 5]);
    assert_eq!(transcript(&tokens), Ok(String::from("EO")));
    assert_eq!(decode(&one_hot_rows(&frames, VOCABULARY_SIZE), BLANK), Ok(String::from("EO")));
}

#[test]
fn separator_run_decodes_to_one_separator() {
    let tokens = remove_duplicates_and_blanks(&[1, 1, 1], 0);
    assert_eq!(tokens, vec![1]);
    assert_eq!(transcript(&tokens), Ok(String::from("|")));
    assert_eq!(decode(&one_hot_rows(&[1, 1, 1], VOCABULARY_SIZE), BLANK), Ok(String::from("|")));
}

#[test]
fn all_blank_frames_decode_to_nothing() {
    let matrix = one_hot_rows(&[0, 0, 0, 0, 0], VOCABULARY_SIZE);
    assert_eq!(matrix.frame_predictions(), vec![0, 0, 0, 0, 0]);
    assert_eq!(decode(&matrix, BLANK), Ok(String::new()));
}

#[test]
fn no_frames_decode_to_nothing() {
    let matrix = ScoreMatrix::from_keys(0, VOCABULARY_SIZE, vec![]).unwrap();
    assert_eq!(decode(&matrix, BLANK), Ok(String::new()));
}

#[test]
fn frames_without_classes_decode_to_nothing() {
    let matrix = ScoreMatrix::from_keys(4, 0, vec![]).unwrap();
    assert_eq!(decode(&matrix, BLANK), Ok(String::new()));
}

#[test]
fn doubled_letter_needs_a_blank_between() {
    let with_blank = one_hot_rows(&[8, 2, 12, 12, 0, 12, 5, 5], VOCABULARY_SIZE);
    assert_eq!(decode(&with_blank, BLANK), Ok(String::from("HELLO")));
    let without_blank = one_hot_rows(&[8, 2, 12, 12, 12, 5, 5], VOCABULARY_SIZE);
    assert_eq!(decode(&without_blank, BLANK), Ok(String::from("HELO")));
}

#[test]
fn decoding_follows_the_scores() {
    let scores: [f32; 9] = [0.1, 0.9, 0.05, 0.7, 0.2, 0.1, 0.3, 0.3, 0.4];
    let bits: Vec<u32> = scores.iter().map(|score| score.to_bits()).collect();
    let matrix = ScoreMatrix::from_bits(3, 3, &bits).unwrap();
    assert_eq!(matrix.frame_predictions(), vec![1, 0, 2]);
    assert_eq!(decode(&matrix, BLANK), Ok(String::from("|E")));
    assert_eq!(decode(&matrix, 1), Ok(String::from("-E")));
}

#[test]
fn equal_scores_decode_to_the_first_class() {
    let matrix = ScoreMatrix::from_keys(2, 4, vec![0, 5, 5, 5, 3, 3, 9, 9]).unwrap();
    assert_eq!(matrix.frame_predictions(), vec![1, 2]);
    assert_eq!(decode(&matrix, BLANK), Ok(String::from("|E")));
}

#[test]
fn model_wider_than_the_vocabulary_is_a_decode_error() {
    let matrix = one_hot_rows(&[2, 2, 29, 30], 31);
    assert_eq!(matrix.frame_predictions(), vec![2, 2, 29, 30]);
    assert_eq!(decode(&matrix, BLANK), Err(DecodeError::UnknownClass { position: 1, class: 29 }));
}

#[test]
fn unknown_class_as_blank_is_dropped_before_reading() {
    let matrix = one_hot_rows(&[2, 29, 5], 30);
    assert_eq!(decode(&matrix, 29), Ok(String::from("EO")));
}

#[test]
fn decoding_twice_gives_the_same_transcript() {
    let matrix = one_hot_rows(&[0, 3, 3, 0, 8, 2, 2, 0, 1, 0], VOCABULARY_SIZE);
    let first = decode(&matrix, BLANK);
    let second = decode(&matrix, BLANK);
    assert_eq!(first, second);
    assert_eq!(first, Ok(String::from("THE|")));
    assert_eq!(matrix.frame_predictions(), matrix.frame_predictions());
}
