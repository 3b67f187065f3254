use vstd::prelude::*;

pub mod bag;
pub mod entry;
pub mod load;
pub mod output;
pub mod preview;
pub mod selection;

verus! {

/// Number of character columns a romanized form is padded to in the
/// two-column display.
pub const WORD_WIDTH: usize = 15;

/// Padding inserted after a romanized form of character length `l`:
/// spaces bringing it up to `WORD_WIDTH` columns, and none at all once
/// the form is already that wide.
pub open spec fn pad_of(l: nat) -> nat {
    if l >= WORD_WIDTH {
        0
    } else {
        (WORD_WIDTH - l) as nat
    }
}

/// The padding never makes a line narrower: a form shorter than the
/// target width is brought exactly to it.
pub proof fn lemma_pad_fills_width(l: nat)
    ensures
        l < WORD_WIDTH ==> l + pad_of(l) == WORD_WIDTH,
        l >= WORD_WIDTH ==> pad_of(l) == 0,
{
}

} // verus!
