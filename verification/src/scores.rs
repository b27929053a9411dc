//! The score matrix of an utterance and the class that each frame picks.
//!
//! Only the order of the scores within a frame matters to greedy decoding, so a
//! score is held as an integer key that orders as the score does.

use crate::binary32::{is_nan_bits, key_of_bits, order_key};
use vstd::prelude::*;
use vstd::slice::slice_subrange;

verus! {

/// The keys of a sequence of bit patterns, one for one.
pub open spec fn keys_of_bits(bits: Seq<u32>) -> Seq<i32> {
    Seq::new(bits.len(), |i: int| key_of_bits(bits[i]))
}

/// Whether `index` is where the largest score of `row` stands first.
pub open spec fn is_first_max(row: Seq<i32>, index: int) -> bool {
    &&& 0 <= index < row.len()
    &&& forall|j: int| 0 <= j < row.len() ==> row[j] <= row[index]
    &&& forall|j: int| 0 <= j < index ==> row[j] < row[index]
}

/// The class a frame picks: the first position of its largest score, and 0 for
/// a frame without classes.
pub open spec fn argmax_of(row: Seq<i32>) -> int {
    if row.len() == 0 {
        0
    } else {
        choose|index: int| is_first_max(row, index)
    }
}

/// The largest score stands first at one position only, so ties never leave
/// the pick open.
pub proof fn lemma_first_max_unique(row: Seq<i32>, a: int, b: int)
    requires
        is_first_max(row, a),
        is_first_max(row, b),
    ensures
        a == b,
{
    if a < b {
        assert(row[a] < row[b]);
    } else if b < a {
        assert(row[b] < row[a]);
    }
}

/// A position where the largest score stands first is the frame's pick.
pub proof fn lemma_first_max_is_argmax(row: Seq<i32>, index: int)
    requires
        is_first_max(row, index),
    ensures
        argmax_of(row) == index,
{
    lemma_first_max_unique(row, argmax_of(row), index);
}

/// Every frame with at least one class has a pick, and it is one of its classes.
pub proof fn lemma_argmax_in_range(row: Seq<i32>)
    requires
        row.len() > 0,
    ensures
        is_first_max(row, argmax_of(row)),
        0 <= argmax_of(row) < row.len(),
    decreases row.len(),
{
    if row.len() == 1 {
        assert(is_first_max(row, 0));
    } else {
        let front = row.drop_last();
        lemma_argmax_in_range(front);
        let best = argmax_of(front);
        let last = row.len() - 1;
        assert(forall|j: int| 0 <= j < front.len() ==> front[j] == row[j]);
        if row[last] > row[best] {
            assert(is_first_max(row, last));
        } else {
            assert(is_first_max(row, best));
        }
    }
}

/// The position of the largest score, the first one where several are equal;
/// 0 for an empty slice.
pub fn argmax(scores: &[i32]) -> (best: usize)
    ensures
        best == argmax_of(scores@),
        scores@.len() > 0 ==> is_first_max(scores@, best as int),
        scores@.len() == 0 ==> best == 0,
{
    if scores.len() == 0 {
        return 0;
    }
    let mut best: usize = 0;
    let mut i: usize = 1;
    while i < scores.len()
        invariant
            1 <= i <= scores@.len(),
            is_first_max(scores@.take(i as int), best as int),
        decreases scores.len() - i,
    {
        let ghost seen = scores@.take(i as int);
        let ghost longer = scores@.take(i + 1);
        assert(forall|j: int| 0 <= j < i ==> seen[j] == longer[j]);
        if scores[i] > scores[best] {
            best = i;
        }
        i += 1;
    }
    proof {
        assert(scores@.take(i as int) =~= scores@);
        lemma_first_max_is_argmax(scores@, best as int);
    }
    best
}

/// Why scores cannot be laid out as a matrix.
#[derive(Clone, Copy, Debug, PartialEq, Eq)]
pub enum ScoreError {
    /// The tensor has `axes` axes, not the two of a matrix: time and class.
    NotAMatrix { axes: usize },
    /// There are not `frames * classes` scores.
    ShapeMismatch { frames: usize, classes: usize, scores: usize },
    /// The score at `position` is not a number.
    NotANumber { position: usize },
}

/// The rows of a matrix stored row by row: row `t` is the `classes` scores
/// that start at `t * classes`.
pub open spec fn rows_of(flat: Seq<i32>, frames: nat, classes: nat) -> Seq<Seq<i32>> {
    Seq::new(frames, |t: int| flat.subrange(t * classes, t * classes + classes))
}

/// The class that each frame picks, frame by frame.
pub open spec fn predictions_of(rows: Seq<Seq<i32>>) -> Seq<usize> {
    Seq::new(rows.len(), |t: int| argmax_of(rows[t]) as usize)
}

proof fn lemma_row_bounds(t: int, frames: int, classes: int)
    requires
        0 <= t < frames,
        0 <= classes,
    ensures
        0 <= t * classes,
        t * classes + classes <= frames * classes,
{
    assert(0 <= t * classes && t * classes + classes <= frames * classes) by (nonlinear_arith)
        requires
            0 <= t < frames,
            0 <= classes,
    ;
}

/// Whether `outcome` is what laying out the scores `bits` as `frames` rows of
/// `classes` gives: the matrix of their keys where there are exactly
/// `frames * classes` patterns and all are numbers, else the count that is
/// wrong, else the first pattern that is no number.
pub open spec fn is_layout(
    frames: usize,
    classes: usize,
    bits: Seq<u32>,
    outcome: Result<ScoreMatrix, ScoreError>,
) -> bool {
    match outcome {
        Ok(matrix) => {
            &&& bits.len() == frames * classes
            &&& forall|i: int| 0 <= i < bits.len() ==> !is_nan_bits(bits[i])
            &&& matrix@ == rows_of(keys_of_bits(bits), frames as nat, classes as nat)
            &&& matrix@.len() == frames
            &&& matrix.class_count() == classes
        },
        Err(ScoreError::ShapeMismatch { frames: rows, classes: columns, scores }) => {
            &&& bits.len() != frames * classes
            &&& rows == frames
            &&& columns == classes
            &&& scores == bits.len()
        },
        Err(ScoreError::NotANumber { position }) => {
            &&& bits.len() == frames * classes
            &&& position < bits.len()
            &&& is_nan_bits(bits[position as int])
            &&& forall|i: int| 0 <= i < position ==> !is_nan_bits(bits[i])
        },
        Err(ScoreError::NotAMatrix { .. }) => false,
    }
}

/// One score key per frame and class: `frames` rows of `classes` keys each.
#[derive(Debug, PartialEq, Eq)]
pub struct ScoreMatrix {
    frames: usize,
    classes: usize,
    keys: Vec<i32>,
}

impl View for ScoreMatrix {
    type V = Seq<Seq<i32>>;

    /// The rows in time order, each with one key per class.
    closed spec fn view(&self) -> Seq<Seq<i32>> {
        rows_of(self.keys@, self.frames as nat, self.classes as nat)
    }
}

impl ScoreMatrix {
    #[verifier::type_invariant]
    spec fn filled(&self) -> bool {
        self.keys@.len() == self.frames * self.classes
    }

    /// The number of classes that every frame scores.
    pub closed spec fn class_count(&self) -> nat {
        self.classes as nat
    }

    /// Lays `keys` out as `frames` rows of `classes` keys; fails unless there
    /// are exactly `frames * classes` of them.
    pub fn from_keys(frames: usize, classes: usize, keys: Vec<i32>) -> (outcome: Result<
        ScoreMatrix,
        ScoreError,
    >)
        ensures
            match outcome {
                Ok(matrix) => {
                    &&& keys@.len() == frames * classes
                    &&& matrix@ == rows_of(keys@, frames as nat, classes as nat)
                    &&& matrix@.len() == frames
                    &&& matrix.class_count() == classes
                },
                Err(error) => {
                    &&& keys@.len() != frames * classes
                    &&& error == (ScoreError::ShapeMismatch { frames, classes, scores: keys@.len() as usize })
                },
            },
    {
        let fits = match frames.checked_mul(classes) {
            Some(expected) => expected == keys.len(),
            None => false,
        };
        if fits {
            Ok(ScoreMatrix { frames, classes, keys })
        } else {
            Err(ScoreError::ShapeMismatch { frames, classes, scores: keys.len() })
        }
    }

    /// Lays scores out as `frames` rows of `classes` keys, each score given by
    /// its IEEE 754 single-precision bit pattern.
    ///
    /// Fails unless there are exactly `frames * classes` patterns, and then at
    /// the first pattern that is not a number.
    pub fn from_bits(frames: usize, classes: usize, bits: &[u32]) -> (outcome: Result<
        ScoreMatrix,
        ScoreError,
    >)
        ensures
            is_layout(frames, classes, bits@, outcome),
    {
        let fits = match frames.checked_mul(classes) {
            Some(expected) => expected == bits.len(),
            None => false,
        };
        if !fits {
            return Err(ScoreError::ShapeMismatch { frames, classes, scores: bits.len() });
        }
        let mut keys: Vec<i32> = Vec::new();
        let mut i: usize = 0;
        while i < bits.len()
            invariant
                i <= bits@.len(),
                bits@.len() == frames * classes,
                keys@.len() == i,
                forall|j: int| 0 <= j < i ==> !is_nan_bits(bits@[j]),
                forall|j: int| 0 <= j < i ==> keys@[j] == key_of_bits(bits@[j]),
            decreases bits.len() - i,
        {
            match order_key(bits[i]) {
                Some(key) => keys.push(key),
                None => {
                    return Err(ScoreError::NotANumber { position: i });
                },
            }
            i += 1;
        }
        assert(keys@ =~= keys_of_bits(bits@));
        Ok(ScoreMatrix { frames, classes, keys })
    }

    /// Lays the scores of a tensor out as a matrix. The tensor has the axes
    /// that `shape` lists and holds its scores row by row.
    ///
    /// Fails on any tensor that has not two axes, time and class, and then as
    /// [`ScoreMatrix::from_bits`] does.
    pub fn from_tensor(shape: &[usize], bits: &[u32]) -> (outcome: Result<ScoreMatrix, ScoreError>)
        ensures
            shape@.len() == 2 ==> is_layout(shape@[0], shape@[1], bits@, outcome),
            shape@.len() != 2 ==> outcome == Err::<ScoreMatrix, ScoreError>(
                ScoreError::NotAMatrix { axes: shape@.len() as usize },
            ),
    {
        if shape.len() != 2 {
            return Err(ScoreError::NotAMatrix { axes: shape.len() });
        }
        ScoreMatrix::from_bits(shape[0], shape[1], bits)
    }

    /// The number of frames.
    pub fn frames(&self) -> (count: usize)
        ensures
            count == self@.len(),
    {
        self.frames
    }

    /// The number of classes that every frame scores: the length of each row.
    pub fn classes(&self) -> (count: usize)
        ensures
            count == self.class_count(),
            forall|t: int| 0 <= t < self@.len() ==> (#[trigger] self@[t]).len() == count,
    {
        proof {
            use_type_invariant(self);
            assert forall|t: int| 0 <= t < self@.len() implies (#[trigger] self@[t]).len()
                == self.classes by {
                lemma_row_bounds(t, self.frames as int, self.classes as int);
            }
        }
        self.classes
    }

    /// The keys of frame `t`, one per class.
    pub fn row(&self, t: usize) -> (keys: &[i32])
        requires
            t < self@.len(),
        ensures
            keys@ == self@[t as int],
            keys@.len() == self.class_count(),
    {
        proof {
            use_type_invariant(self);
            lemma_row_bounds(t as int, self.frames as int, self.classes as int);
            assert(self.frames * self.classes == self.keys.len());
        }
        let start = t * self.classes;
        slice_subrange(self.keys.as_slice(), start, start + self.classes)
    }

    /// The frame prediction sequence: for each frame the class it picks.
    pub fn frame_predictions(&self) -> (predictions: Vec<usize>)
        ensures
            predictions@ == predictions_of(self@),
            predictions@.len() == self@.len(),
            forall|t: int|
                0 <= t < predictions@.len() && self.class_count() > 0 ==> #[trigger] predictions@[t]
                    < self.class_count(),
    {
        let mut predictions: Vec<usize> = Vec::new();
        let mut t: usize = 0;
        while t < self.frames
            invariant
                t <= self.frames,
                self.frames == self@.len(),
                predictions@.len() == t,
                forall|u: int| 0 <= u < t ==> predictions@[u] == argmax_of(self@[u]) as usize,
                forall|u: int|
                    0 <= u < t && self.class_count() > 0 ==> #[trigger] predictions@[u]
                        < self.class_count(),
            decreases self.frames - t,
        {
            let pick = argmax(self.row(t));
            predictions.push(pick);
            t += 1;
        }
        assert(predictions@ =~= predictions_of(self@));
        predictions
    }
}

} // verus!
