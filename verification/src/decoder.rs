//! Greedy CTC decoding: from a score matrix to a transcript.

use crate::collapse::{lemma_all_blank_leaves_no_token, remove_duplicates_and_blanks, token_sequence};
use crate::scores::{predictions_of, ScoreMatrix};
use crate::vocabulary::{label, symbols, VOCABULARY_SIZE};
use vstd::prelude::*;
use vstd::string::StringExecFns;

verus! {

/// Why a token sequence has no transcript.
#[derive(Clone, Copy, Debug, PartialEq, Eq)]
pub enum DecodeError {
    /// The token at `position` is `class`, which the vocabulary does not hold:
    /// the model scores more classes than there are symbols.
    UnknownClass { position: usize, class: usize },
}

/// The symbols of the tokens, in order.
pub open spec fn transcript_of(tokens: Seq<usize>) -> Seq<char> {
    Seq::new(tokens.len(), |k: int| symbols()[tokens[k] as int])
}

/// Whether `position` is where the first token beyond the vocabulary stands.
pub open spec fn is_first_unknown(tokens: Seq<usize>, position: int) -> bool {
    &&& 0 <= position < tokens.len()
    &&& tokens[position] >= VOCABULARY_SIZE
    &&& forall|k: int| 0 <= k < position ==> tokens[k] < VOCABULARY_SIZE
}

/// Whether `outcome` is what the tokens read as: their transcript where every
/// token has a symbol, and else the first token that has none.
pub open spec fn reads_as(tokens: Seq<usize>, outcome: Result<Seq<char>, DecodeError>) -> bool {
    match outcome {
        Ok(text) => {
            &&& forall|k: int| 0 <= k < tokens.len() ==> tokens[k] < VOCABULARY_SIZE
            &&& text == transcript_of(tokens)
        },
        Err(DecodeError::UnknownClass { position, class }) => {
            &&& is_first_unknown(tokens, position as int)
            &&& class == tokens[position as int]
        },
    }
}

/// Whether `outcome` is what the score matrix `rows` decodes to: each frame
/// picks a class, the picks collapse to tokens, and the tokens are read.
pub open spec fn decodes_to(
    rows: Seq<Seq<i32>>,
    blank: usize,
    outcome: Result<Seq<char>, DecodeError>,
) -> bool {
    reads_as(token_sequence(predictions_of(rows), blank), outcome)
}

/// What a decoding outcome says, without the string that carries it.
pub open spec fn outcome_view(outcome: Result<String, DecodeError>) -> Result<
    Seq<char>,
    DecodeError,
> {
    match outcome {
        Ok(text) => Ok(text@),
        Err(error) => Err(error),
    }
}

/// Tokens read in one way only.
pub proof fn lemma_reading_is_unique(
    tokens: Seq<usize>,
    first: Result<Seq<char>, DecodeError>,
    second: Result<Seq<char>, DecodeError>,
)
    requires
        reads_as(tokens, first),
        reads_as(tokens, second),
    ensures
        first == second,
{
    match (first, second) {
        (Err(DecodeError::UnknownClass { position: p, .. }), Err(DecodeError::UnknownClass { position: q, .. })) => {
            if p < q {
                assert(tokens[p as int] < VOCABULARY_SIZE);
            } else if q < p {
                assert(tokens[q as int] < VOCABULARY_SIZE);
            }
        },
        (Ok(_), Err(DecodeError::UnknownClass { position: q, .. })) => {
            assert(tokens[q as int] < VOCABULARY_SIZE);
        },
        (Err(DecodeError::UnknownClass { position: p, .. }), Ok(_)) => {
            assert(tokens[p as int] < VOCABULARY_SIZE);
        },
        (Ok(_), Ok(_)) => {},
    }
}

/// Decoding is a function of the scores and the blank class: whatever two runs
/// on the same matrix return, they return the same.
pub proof fn lemma_decoding_is_deterministic(
    rows: Seq<Seq<i32>>,
    blank: usize,
    first: Result<Seq<char>, DecodeError>,
    second: Result<Seq<char>, DecodeError>,
)
    requires
        decodes_to(rows, blank, first),
        decodes_to(rows, blank, second),
    ensures
        first == second,
{
    lemma_reading_is_unique(token_sequence(predictions_of(rows), blank), first, second);
}

/// Frames that are all blank read as the empty transcript.
pub proof fn lemma_all_blank_reads_as_nothing(frames: Seq<usize>, blank: usize)
    requires
        forall|i: int| 0 <= i < frames.len() ==> frames[i] == blank,
    ensures
        reads_as(token_sequence(frames, blank), Ok(Seq::<char>::empty())),
{
    lemma_all_blank_leaves_no_token(frames, blank);
    assert(transcript_of(Seq::<usize>::empty()) =~= Seq::<char>::empty());
}

/// Maps each token to its symbol and joins the symbols.
///
/// Fails at the first token that the vocabulary does not hold.
pub fn transcript(tokens: &[usize]) -> (outcome: Result<String, DecodeError>)
    ensures
        reads_as(tokens@, outcome_view(outcome)),
{
    let mut text = String::new();
    let mut k: usize = 0;
    while k < tokens.len()
        invariant
            k <= tokens@.len(),
            forall|j: int| 0 <= j < k ==> tokens@[j] < VOCABULARY_SIZE,
            text@ == transcript_of(tokens@.take(k as int)),
        decreases tokens.len() - k,
    {
        let class = tokens[k];
        match label(class) {
            Some(symbol) => {
                text.append(symbol);
            },
            None => {
                return Err(DecodeError::UnknownClass { position: k, class });
            },
        }
        assert(text@ =~= transcript_of(tokens@.take(k + 1)));
        k += 1;
    }
    assert(tokens@.take(k as int) =~= tokens@);
    Ok(text)
}

/// Decodes a score matrix greedily: every frame picks the class it scores
/// highest, runs of equal picks merge, `blank` drops out, and the classes that
/// are left are read as symbols.
pub fn decode(matrix: &ScoreMatrix, blank: usize) -> (outcome: Result<String, DecodeError>)
    ensures
        decodes_to(matrix@, blank, outcome_view(outcome)),
{
    let predictions = matrix.frame_predictions();
    let tokens = remove_duplicates_and_blanks(predictions.as_slice(), blank);
    transcript(tokens.as_slice())
}

} // verus!
