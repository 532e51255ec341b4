//! The source of randomness, and the random player.
//!
//! Random choices come from a generator that the caller hands in, so that a
//! caller who seeds it gets a repeatable game. Nothing here is claimed about
//! which value is drawn, only where it lies.

use vstd::prelude::*;
use rand::rngs::StdRng;
use rand::seq::SliceRandom;
use rand::Rng;
use crate::board::{cells, empty_cells, find_empty_fields, is_full, lemma_empty_cells, Board};

verus! {

/// `rand::rngs::StdRng`, the generator that random choices are drawn from.
///
/// The type is declared so that a generator can be handed through verified
/// code. The verifier sees nothing of its state, and nothing is claimed
/// about it.
#[verifier::external_type_specification]
#[verifier::external_body]
pub struct ExStdRng(rand::rngs::StdRng);

/// Draws an index below `bound` with `rand::Rng::gen_range` on the range
/// `0..bound`.
///
/// Trusted: the value returned lies in the range. `gen_range` panics on an
/// empty range, so `bound` must be positive.
#[verifier::external_body]
pub(crate) fn random_below(rng: &mut StdRng, bound: usize) -> (drawn: usize)
    requires
        bound > 0,
    ensures
        drawn < bound,
{
    rng.gen_range(0..bound)
}

/// Picks one of `items` with `rand::seq::SliceRandom::choose`.
///
/// Trusted: the result is `None` exactly for an empty list, and otherwise one
/// of the items of the list.
#[verifier::external_body]
pub(crate) fn choose_one(items: &Vec<usize>, rng: &mut StdRng) -> (picked: Option<usize>)
    ensures
        picked is None <==> items@.len() == 0,
        picked matches Some(item) ==> items@.contains(item),
{
    items.choose(rng).copied()
}

/// A random empty cell of the board, each with the same chance.
pub fn random_bot_move(board: &Board, rng: &mut StdRng) -> (field_num: usize)
    requires
        !is_full(cells(*board)),
    ensures
        field_num < 9,
        cells(*board)[field_num as int] is Empty,
        empty_cells(cells(*board)).contains(field_num),
{
    let available_fields = find_empty_fields(board);
    proof {
        lemma_empty_cells(cells(*board));
    }
    let drawn = random_below(rng, available_fields.len());
    available_fields[drawn]
}

} // verus!
