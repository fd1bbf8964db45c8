//! The squares of the atlas that nodes stand for: a node's square lies
//! inside its parent's, and nodes that are not related have squares with no
//! pixel in common.

use vstd::prelude::*;
use crate::codec::{
    ancestor, lemma_ancestor_level, lemma_parent_is_quarter,
    lemma_position_round_trip, parent, position_level, relative,
};
use crate::occupancy::unrelated;
use crate::placement::{
    block_edge, block_x, block_y, floor_log2, is_pow2, lemma_pow2_is_two_pow,
    lemma_two_pow_adds, lemma_two_pow_monotone, lemma_two_pow_positive, two_pow,
};

verus! {

/// Leftmost pixel column of a node's square.
pub open spec fn pixel_x(position: nat, atlas_size: nat) -> nat {
    block_x(relative(position)) * block_edge(position_level(position), atlas_size)
}

/// Topmost pixel row of a node's square.
pub open spec fn pixel_y(position: nat, atlas_size: nat) -> nat {
    block_y(relative(position)) * block_edge(position_level(position), atlas_size)
}

/// Edge, in pixels, of a node's square.
pub open spec fn pixel_edge(position: nat, atlas_size: nat) -> nat {
    block_edge(position_level(position), atlas_size)
}

/// The square of `inner` lies within the square of `outer`.
pub open spec fn square_inside(inner: nat, outer: nat, atlas_size: nat) -> bool {
    &&& pixel_x(outer, atlas_size) <= pixel_x(inner, atlas_size)
    &&& pixel_x(inner, atlas_size) + pixel_edge(inner, atlas_size) <= pixel_x(outer, atlas_size)
        + pixel_edge(outer, atlas_size)
    &&& pixel_y(outer, atlas_size) <= pixel_y(inner, atlas_size)
    &&& pixel_y(inner, atlas_size) + pixel_edge(inner, atlas_size) <= pixel_y(outer, atlas_size)
        + pixel_edge(outer, atlas_size)
}

/// The squares of the two nodes have no pixel in common: one ends where the
/// other begins, or before, along some axis.
pub open spec fn squares_disjoint(first: nat, second: nat, atlas_size: nat) -> bool {
    ||| pixel_x(first, atlas_size) + pixel_edge(first, atlas_size) <= pixel_x(second, atlas_size)
    ||| pixel_x(second, atlas_size) + pixel_edge(second, atlas_size) <= pixel_x(first, atlas_size)
    ||| pixel_y(first, atlas_size) + pixel_edge(first, atlas_size) <= pixel_y(second, atlas_size)
    ||| pixel_y(second, atlas_size) + pixel_edge(second, atlas_size) <= pixel_y(first, atlas_size)
}

/// In an atlas whose edge is `2^m`, a block of a level no deeper than `m`
/// has the edge `2^(m - level)`.
pub proof fn lemma_block_edge_is_two_pow(level: nat, m: nat)
    requires
        level <= m,
    ensures
        block_edge(level, two_pow(m)) == two_pow((m - level) as nat),
{
    let a = two_pow((m - level) as nat);
    let d = two_pow(level);
    lemma_two_pow_adds((m - level) as nat, level);
    lemma_two_pow_positive(level);
    assert((a * d) / d == a) by (nonlinear_arith)
        requires
            d > 0,
            a >= 0,
    ;
}

/// Where a level's grid is no finer than the pixels of a power-of-two atlas,
/// its blocks are at least a pixel wide, and half as wide as those of the
/// level above.
pub proof fn lemma_block_edge_halves(level: nat, atlas_size: nat)
    requires
        is_pow2(atlas_size),
        two_pow(level) <= atlas_size,
    ensures
        block_edge(level, atlas_size) >= 1,
        level > 0 ==> block_edge((level - 1) as nat, atlas_size) == 2 * block_edge(
            level,
            atlas_size,
        ),
{
    let m = floor_log2(atlas_size);
    lemma_pow2_is_two_pow(atlas_size);
    if level > m {
        lemma_two_pow_monotone(m + 1, level);
        lemma_two_pow_positive(m);
    }
    lemma_block_edge_is_two_pow(level, m);
    lemma_two_pow_positive((m - level) as nat);
    if level > 0 {
        lemma_block_edge_is_two_pow((level - 1) as nat, m);
    }
}

/// The block of a node below the root is one of the four quarters of its
/// parent's block: twice the parent's column and row, plus the two bits of
/// the node's last base-4 digit.
pub proof fn lemma_block_of_child(position: nat)
    requires
        position > 0,
    ensures
        relative(parent(position)) == relative(position) / 4,
        block_x(relative(position)) == 2 * block_x(relative(parent(position))) + relative(
            position,
        ) % 2,
        block_y(relative(position)) == 2 * block_y(relative(parent(position))) + (relative(
            position,
        ) / 2) % 2,
{
    lemma_parent_is_quarter(position);
    lemma_position_round_trip(position);
    lemma_position_round_trip(parent(position));
}

/// A node's square lies within its parent's.
pub proof fn lemma_square_inside_parent(position: nat, atlas_size: nat)
    requires
        position > 0,
        is_pow2(atlas_size),
        two_pow(position_level(position)) <= atlas_size,
    ensures
        square_inside(position, parent(position), atlas_size),
{
    let level = position_level(position);
    lemma_parent_is_quarter(position);
    lemma_block_of_child(position);
    lemma_block_edge_halves(level, atlas_size);
    let e = block_edge(level, atlas_size);
    let up = parent(position);
    let bx = block_x(relative(up));
    let by = block_y(relative(up));
    let dx = relative(position) % 2;
    let dy = (relative(position) / 2) % 2;
    assert(bx * (2 * e) <= (2 * bx + dx) * e && (2 * bx + dx) * e + e <= bx * (2 * e) + 2 * e)
        by (nonlinear_arith)
        requires
            0 <= dx <= 1,
            bx >= 0,
            e >= 0,
    ;
    assert(by * (2 * e) <= (2 * by + dy) * e && (2 * by + dy) * e + e <= by * (2 * e) + 2 * e)
        by (nonlinear_arith)
        requires
            0 <= dy <= 1,
            by >= 0,
            e >= 0,
    ;
}

/// A node's square lies within the square of each node above it.
pub proof fn lemma_square_inside_ancestor(position: nat, steps: nat, atlas_size: nat)
    requires
        steps <= position_level(position),
        is_pow2(atlas_size),
        two_pow(position_level(position)) <= atlas_size,
    ensures
        square_inside(position, ancestor(position, steps), atlas_size),
    decreases steps,
{
    if steps > 0 {
        let below = ancestor(position, (steps - 1) as nat);
        lemma_square_inside_ancestor(position, (steps - 1) as nat, atlas_size);
        lemma_ancestor_level(position, (steps - 1) as nat);
        lemma_two_pow_monotone(position_level(below), position_level(position));
        lemma_square_inside_parent(below, atlas_size);
    }
}

/// Two relative indices with the same block are the same index.
pub proof fn lemma_block_names_one_index(first: nat, second: nat)
    requires
        block_x(first) == block_x(second),
        block_y(first) == block_y(second),
    ensures
        first == second,
    decreases first + second,
{
    if first > 0 || second > 0 {
        lemma_block_names_one_index(first / 4, second / 4);
    }
}

/// Two different nodes of one level have squares with no pixel in common.
pub proof fn lemma_level_squares_are_disjoint(first: nat, second: nat, atlas_size: nat)
    requires
        first != second,
        position_level(first) == position_level(second),
    ensures
        squares_disjoint(first, second, atlas_size),
{
    lemma_position_round_trip(first);
    lemma_position_round_trip(second);
    if block_x(relative(first)) == block_x(relative(second)) && block_y(relative(first))
        == block_y(relative(second)) {
        lemma_block_names_one_index(relative(first), relative(second));
    }
    let e = block_edge(position_level(first), atlas_size);
    let ax = block_x(relative(first));
    let bx = block_x(relative(second));
    let ay = block_y(relative(first));
    let by = block_y(relative(second));
    assert(ax < bx ==> ax * e + e <= bx * e) by (nonlinear_arith)
        requires
            e >= 0,
    ;
    assert(bx < ax ==> bx * e + e <= ax * e) by (nonlinear_arith)
        requires
            e >= 0,
    ;
    assert(ay < by ==> ay * e + e <= by * e) by (nonlinear_arith)
        requires
            e >= 0,
    ;
    assert(by < ay ==> by * e + e <= ay * e) by (nonlinear_arith)
        requires
            e >= 0,
    ;
}

/// Nodes that are not related have squares with no pixel in common.
pub proof fn lemma_unrelated_squares_are_disjoint(first: nat, second: nat, atlas_size: nat)
    requires
        unrelated(first, second),
        is_pow2(atlas_size),
        two_pow(position_level(first)) <= atlas_size,
        two_pow(position_level(second)) <= atlas_size,
    ensures
        squares_disjoint(first, second, atlas_size),
{
    let upper = position_level(first);
    let lower = position_level(second);
    if upper <= lower {
        let above = ancestor(second, (lower - upper) as nat);
        lemma_ancestor_level(second, (lower - upper) as nat);
        lemma_square_inside_ancestor(second, (lower - upper) as nat, atlas_size);
        lemma_level_squares_are_disjoint(first, above, atlas_size);
    } else {
        let above = ancestor(first, (upper - lower) as nat);
        lemma_ancestor_level(first, (upper - lower) as nat);
        lemma_square_inside_ancestor(first, (upper - lower) as nat, atlas_size);
        lemma_level_squares_are_disjoint(above, second, atlas_size);
    }
}

} // verus!
