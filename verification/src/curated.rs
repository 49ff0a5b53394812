//! The common short words that stand in for the dictionary's own two- and
//! three-letter entries, which are mostly noise.
use vstd::prelude::*;

verus! {

pub const A: u8 = 0x61;

pub const B: u8 = 0x62;

pub const C: u8 = 0x63;

pub const D: u8 = 0x64;

pub const E: u8 = 0x65;

pub const F: u8 = 0x66;

pub const G: u8 = 0x67;

pub const H: u8 = 0x68;

pub const I: u8 = 0x69;

pub const L: u8 = 0x6c;

pub const M: u8 = 0x6d;

pub const N: u8 = 0x6e;

pub const O: u8 = 0x6f;

pub const P: u8 = 0x70;

pub const R: u8 = 0x72;

pub const S: u8 = 0x73;

pub const T: u8 = 0x74;

pub const U: u8 = 0x75;

pub const W: u8 = 0x77;

pub const Y: u8 = 0x79;

/// The two-letter words of the dictionary.
pub const TWO_LETTER_WORDS: [[u8; 2]; 24] = [
    [A, M], [A, N], [A, S], [A, T], [B, E], [B, Y], [D, O], [G, O],
    [H, E], [I, F], [I, N], [I, S], [I, T], [M, E], [M, Y], [N, O],
    [O, F], [O, N], [O, R], [S, O], [T, O], [U, P], [U, S], [W, E],
];

/// The three-letter words of the dictionary.
pub const THREE_LETTER_WORDS: [[u8; 3]; 39] = [
    [A, L, L], [A, N, D], [A, N, Y], [A, R, E], [B, O, Y], [B, U, T], [C, A, N], [D, A, Y],
    [D, I, D], [F, O, R], [G, E, T], [H, A, D], [H, A, S], [H, E, R], [H, I, M], [H, I, S],
    [H, O, W], [I, T, S], [L, E, T], [M, A, N], [N, E, W], [N, O, T], [N, O, W], [O, L, D],
    [O, N, E], [O, U, R], [O, U, T], [P, U, T], [S, A, Y], [S, E, E], [S, H, E], [T, H, E],
    [T, O, O], [T, W, O], [U, S, E], [W, A, S], [W, A, Y], [W, H, O], [Y, O, U],
];

/// The words of a fixed list, as a set.
pub open spec fn listed<const LEN: usize, const COUNT: usize>(words: [[u8; LEN]; COUNT]) -> Set<
    Seq<u8>,
> {
    Set::new(|w: Seq<u8>| exists|i: int| 0 <= i < COUNT && (#[trigger] words@[i])@ == w)
}

} // verus!
