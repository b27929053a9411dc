//! Collapsing per-frame class predictions into a token sequence.
//!
//! A frame prediction sequence holds one class index per time step. Its token
//! sequence is what is left after every run of equal neighbours has been merged
//! into one entry and the blank class has then been taken out.

use vstd::prelude::*;

verus! {

/// The frames with every run of equal neighbours merged into its first entry.
pub open spec fn merge_repeats(frames: Seq<usize>) -> Seq<usize>
    decreases frames.len(),
{
    if frames.len() == 0 {
        Seq::empty()
    } else if frames.len() >= 2 && frames[frames.len() - 2] == frames.last() {
        merge_repeats(frames.drop_last())
    } else {
        merge_repeats(frames.drop_last()).push(frames.last())
    }
}

/// The classes in order, without any occurrence of the blank class.
pub open spec fn strip_blank(classes: Seq<usize>, blank: usize) -> Seq<usize> {
    classes.filter(|class: usize| class != blank)
}

/// The token sequence of a frame prediction sequence: runs are merged first,
/// blanks included, and the blank class is removed afterwards.
pub open spec fn token_sequence(frames: Seq<usize>, blank: usize) -> Seq<usize> {
    strip_blank(merge_repeats(frames), blank)
}

/// The one unit of memory a single pass over the frames needs: the class of the
/// frame seen last, if any.
#[derive(Clone, Copy, Debug, PartialEq, Eq)]
pub enum Tracker {
    NoPrevious,
    Previous(usize),
}

impl Tracker {
    /// The state reached once all of `frames` have been seen.
    pub open spec fn after(frames: Seq<usize>) -> Tracker {
        if frames.len() == 0 {
            Tracker::NoPrevious
        } else {
            Tracker::Previous(frames.last())
        }
    }

    /// Whether a frame of class `class` seen in this state adds a token.
    pub open spec fn emits(self, class: usize, blank: usize) -> bool {
        self != Tracker::Previous(class) && class != blank
    }

    /// Takes one frame: returns the next state, which remembers `class` whether
    /// or not a token comes out, and the token that the frame adds, if it adds one.
    pub fn advance(self, class: usize, blank: usize) -> (step: (Tracker, Option<usize>))
        ensures
            step.0 == Tracker::Previous(class),
            step.1 == if self.emits(class, blank) {
                Some(class)
            } else {
                None
            },
    {
        let repeated = match self {
            Tracker::NoPrevious => false,
            Tracker::Previous(previous) => previous == class,
        };
        let emitted = if !repeated && class != blank {
            Some(class)
        } else {
            None
        };
        (Tracker::Previous(class), emitted)
    }
}

/// One more frame changes the merged sequence only at its end.
pub proof fn lemma_merge_repeats_push(frames: Seq<usize>, class: usize)
    ensures
        merge_repeats(frames.push(class)) == if Tracker::after(frames) == Tracker::Previous(class) {
            merge_repeats(frames)
        } else {
            merge_repeats(frames).push(class)
        },
{
    let longer = frames.push(class);
    assert(longer.drop_last() =~= frames);
}

/// The single pass and the two-phase definition agree: the token sequence of
/// `frames` followed by `class` is that of `frames`, with `class` appended
/// exactly when the state after `frames` emits on it.
pub proof fn lemma_token_sequence_push(frames: Seq<usize>, class: usize, blank: usize)
    ensures
        token_sequence(frames.push(class), blank) == if Tracker::after(frames).emits(class, blank) {
            token_sequence(frames, blank).push(class)
        } else {
            token_sequence(frames, blank)
        },
{
    lemma_merge_repeats_push(frames, class);
    let merged = merge_repeats(frames);
    assert(merged.push(class).drop_last() =~= merged);
    reveal(Seq::filter);
}

/// Merges runs of equal neighbours and drops the blank class, in one pass.
pub fn remove_duplicates_and_blanks(indices: &[usize], blank: usize) -> (tokens: Vec<usize>)
    ensures
        tokens@ == token_sequence(indices@, blank),
{
    let mut tokens: Vec<usize> = Vec::new();
    let mut state = Tracker::NoPrevious;
    let mut i: usize = 0;
    while i < indices.len()
        invariant
            i <= indices.len(),
            tokens@ == token_sequence(indices@.take(i as int), blank),
            state == Tracker::after(indices@.take(i as int)),
        decreases indices.len() - i,
    {
        let class = indices[i];
        proof {
            lemma_token_sequence_push(indices@.take(i as int), class, blank);
            assert(indices@.take(i + 1) =~= indices@.take(i as int).push(class));
        }
        let (next, emitted) = state.advance(class, blank);
        match emitted {
            Some(token) => tokens.push(token),
            None => {},
        }
        state = next;
        i += 1;
    }
    assert(indices@.take(i as int) =~= indices@);
    tokens
}

/// Whether no entry of `classes` equals the entry after it.
pub open spec fn no_adjacent_repeat(classes: Seq<usize>) -> bool {
    forall|k: int| 0 <= k < classes.len() - 1 ==> #[trigger] classes[k] != classes[k + 1]
}

/// Whether frames `i` and `j` hold the same class, not the blank, with one or
/// more frames between them, all of them blank.
pub open spec fn is_split_repeat(frames: Seq<usize>, blank: usize, i: int, j: int) -> bool {
    &&& 0 <= i
    &&& i + 1 < j < frames.len()
    &&& frames[i] == frames[j]
    &&& frames[i] != blank
    &&& forall|k: int| i < k < j ==> frames[k] == blank
}

/// Whether the frames hold a class twice with nothing but blanks in between:
/// the way a sequence spells a doubled symbol.
pub open spec fn has_split_repeat(frames: Seq<usize>, blank: usize) -> bool {
    exists|i: int, j: int| is_split_repeat(frames, blank, i, j)
}

/// The position of the last frame that is not blank, or -1 if every frame is.
pub open spec fn last_sounding(frames: Seq<usize>, blank: usize) -> int
    decreases frames.len(),
{
    if frames.len() == 0 {
        -1
    } else if frames.last() != blank {
        frames.len() - 1
    } else {
        last_sounding(frames.drop_last(), blank)
    }
}

/// The position that `last_sounding` gives holds a class other than the
/// blank, and every frame after it is blank.
pub proof fn lemma_last_sounding(frames: Seq<usize>, blank: usize)
    ensures
        -1 <= last_sounding(frames, blank) < frames.len(),
        last_sounding(frames, blank) >= 0 ==> frames[last_sounding(frames, blank)] != blank,
        forall|k: int| last_sounding(frames, blank) < k < frames.len() ==> frames[k] == blank,
    decreases frames.len(),
{
    if frames.len() > 0 && frames.last() == blank {
        let front = frames.drop_last();
        lemma_last_sounding(front, blank);
        assert forall|k: int| last_sounding(frames, blank) < k < frames.len() implies frames[k]
            == blank by {
            if k < front.len() {
                assert(front[k] == blank);
            }
        }
    }
}

/// The token sequence is empty exactly when every frame is blank, and else
/// ends with the class of the last frame that is not.
pub proof fn lemma_last_token(frames: Seq<usize>, blank: usize)
    ensures
        token_sequence(frames, blank).len() == 0 <==> last_sounding(frames, blank) == -1,
        last_sounding(frames, blank) >= 0 ==> token_sequence(frames, blank).last()
            == frames[last_sounding(frames, blank)],
    decreases frames.len(),
{
    if frames.len() == 0 {
        reveal(Seq::filter);
    } else {
        let front = frames.drop_last();
        assert(front.push(frames.last()) =~= frames);
        lemma_last_token(front, blank);
        lemma_last_sounding(front, blank);
        lemma_token_sequence_push(front, frames.last(), blank);
    }
}

/// Merging runs leaves no entry equal to the one after it, and leaves the
/// class of the last frame at the end.
pub proof fn lemma_merged_has_no_adjacent_repeat(frames: Seq<usize>)
    ensures
        no_adjacent_repeat(merge_repeats(frames)),
        frames.len() > 0 ==> merge_repeats(frames).len() > 0 && merge_repeats(frames).last()
            == frames.last(),
    decreases frames.len(),
{
    if frames.len() > 0 {
        let front = frames.drop_last();
        assert(front.push(frames.last()) =~= frames);
        lemma_merged_has_no_adjacent_repeat(front);
        lemma_merge_repeats_push(front, frames.last());
    }
}

/// A token is never the blank class, and every token is the class of some frame.
pub proof fn lemma_tokens_are_sounding_frames(frames: Seq<usize>, blank: usize)
    ensures
        forall|k: int|
            0 <= k < token_sequence(frames, blank).len() ==> {
                &&& #[trigger] token_sequence(frames, blank)[k] != blank
                &&& frames.contains(token_sequence(frames, blank)[k])
            },
    decreases frames.len(),
{
    if frames.len() == 0 {
        reveal(Seq::filter);
    } else {
        let front = frames.drop_last();
        let class = frames.last();
        assert(front.push(class) =~= frames);
        lemma_tokens_are_sounding_frames(front, blank);
        lemma_token_sequence_push(front, class, blank);
        let tokens = token_sequence(frames, blank);
        assert forall|k: int| 0 <= k < tokens.len() implies {
            &&& #[trigger] tokens[k] != blank
            &&& frames.contains(tokens[k])
        } by {
            if k < token_sequence(front, blank).len() {
                let token = token_sequence(front, blank)[k];
                assert(front.contains(token));
                let at = choose|at: int| 0 <= at < front.len() && front[at] == token;
                assert(frames[at] == token);
            } else {
                assert(frames[frames.len() - 1] == class);
            }
        }
    }
}

/// Frames that are all blank leave no token.
pub proof fn lemma_all_blank_leaves_no_token(frames: Seq<usize>, blank: usize)
    requires
        forall|i: int| 0 <= i < frames.len() ==> frames[i] == blank,
    ensures
        token_sequence(frames, blank) == Seq::<usize>::empty(),
{
    lemma_tokens_are_sounding_frames(frames, blank);
    let tokens = token_sequence(frames, blank);
    if tokens.len() > 0 {
        assert(frames.contains(tokens[0]));
    }
    assert(tokens =~= Seq::<usize>::empty());
}

proof fn lemma_split_repeat_push(frames: Seq<usize>, class: usize, blank: usize)
    ensures
        has_split_repeat(frames.push(class), blank) <==> {
            ||| has_split_repeat(frames, blank)
            ||| {
                &&& class != blank
                &&& 0 <= last_sounding(frames, blank) < frames.len() - 1
                &&& frames[last_sounding(frames, blank)] == class
            }
        },
{
    let longer = frames.push(class);
    let end = frames.len() as int;
    let source = last_sounding(frames, blank);
    lemma_last_sounding(frames, blank);
    if has_split_repeat(longer, blank) {
        let (i, j) = choose|i: int, j: int| is_split_repeat(longer, blank, i, j);
        if j < end {
            assert forall|k: int| i < k < j implies frames[k] == blank by {
                assert(longer[k] == blank);
            }
            assert(is_split_repeat(frames, blank, i, j));
        } else {
            if i < source {
                assert(longer[source] == blank);
            }
        }
    }
    if has_split_repeat(frames, blank) {
        let (i, j) = choose|i: int, j: int| is_split_repeat(frames, blank, i, j);
        assert forall|k: int| i < k < j implies longer[k] == blank by {
            assert(frames[k] == blank);
        }
        assert(is_split_repeat(longer, blank, i, j));
    }
    if class != blank && 0 <= source < end - 1 && frames[source] == class {
        assert forall|k: int| source < k < end implies longer[k] == blank by {
            assert(frames[k] == blank);
        }
        assert(is_split_repeat(longer, blank, source, end));
    }
}

/// The collapse law: no token is blank, and two equal tokens stand side by
/// side exactly where the frames hold their class twice with only blanks in
/// between. Without such a pair of frames no token equals the one after it.
pub proof fn lemma_collapse_law(frames: Seq<usize>, blank: usize)
    ensures
        !token_sequence(frames, blank).contains(blank),
        no_adjacent_repeat(token_sequence(frames, blank)) <==> !has_split_repeat(frames, blank),
    decreases frames.len(),
{
    let tokens = token_sequence(frames, blank);
    lemma_tokens_are_sounding_frames(frames, blank);
    if tokens.contains(blank) {
        let at = choose|at: int| 0 <= at < tokens.len() && tokens[at] == blank;
        assert(tokens[at] != blank);
    }
    if frames.len() == 0 {
        reveal(Seq::filter);
    } else {
        let front = frames.drop_last();
        let class = frames.last();
        let shorter = token_sequence(front, blank);
        assert(front.push(class) =~= frames);
        lemma_collapse_law(front, blank);
        lemma_token_sequence_push(front, class, blank);
        lemma_split_repeat_push(front, class, blank);
        lemma_last_token(front, blank);
        lemma_last_sounding(front, blank);
        if Tracker::after(front).emits(class, blank) {
            assert(tokens == shorter.push(class));
            if no_adjacent_repeat(tokens) {
                assert forall|k: int| 0 <= k < shorter.len() - 1 implies #[trigger] shorter[k]
                    != shorter[k + 1] by {
                    assert(tokens[k] != tokens[k + 1]);
                }
                if shorter.len() > 0 {
                    assert(tokens[shorter.len() - 1] != tokens[shorter.len() - 1 + 1]);
                }
            }
        }
    }
}

} // verus!
