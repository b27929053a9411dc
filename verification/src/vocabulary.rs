//! The label vocabulary: which symbol each class index stands for.

use vstd::prelude::*;
use vstd::string::StrSliceExecFns;

verus! {

/// The number of classes that have a symbol.
pub const VOCABULARY_SIZE: usize = 29;

/// The class reserved for the CTC blank. It has a symbol of its own, which a
/// transcript never shows because decoding removes the class first.
pub const BLANK: usize = 0;

/// The symbols in class order: the blank, the word separator, the letters by
/// falling frequency with the apostrophe among them.
pub open spec fn symbols() -> Seq<char> {
    seq![
        '-', '|', 'E', 'T', 'A', 'O', 'N', 'I', 'H', 'S',
        'R', 'D', 'L', 'U', 'M', 'W', 'C', 'F', 'G', 'Y',
        'P', 'B', 'V', 'K', '\'', 'X', 'J', 'Q', 'Z',
    ]
}

/// The symbol of `class`, or `None` for a class beyond the vocabulary.
pub fn label(class: usize) -> (symbol: Option<&'static str>)
    ensures
        match symbol {
            Some(text) => class < VOCABULARY_SIZE && text@ == seq![symbols()[class as int]],
            None => class >= VOCABULARY_SIZE,
        },
{
    if class >= VOCABULARY_SIZE {
        return None;
    }
    let alphabet: &'static str = "-|ETAONIHSRDLUMWCFGYPBVK'XJQZ";
    proof {
        reveal_strlit("-|ETAONIHSRDLUMWCFGYPBVK'XJQZ");
        assert(alphabet@ =~= symbols());
        assert(alphabet.is_ascii());
    }
    let text = alphabet.substring_ascii(class, class + 1);
    assert(text@ =~= seq![symbols()[class as int]]);
    Some(text)
}

} // verus!
