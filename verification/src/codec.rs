//! Position codec: arithmetic between a tree position (the index of a node of
//! an implicit complete quadtree laid out level by level) and its level, the
//! start of that level's segment, and its place inside the segment.

use vstd::prelude::*;

verus! {

/// `4^n`: the number of nodes on level `n`.
pub open spec fn pow4(n: nat) -> nat
    decreases n,
{
    if n == 0 {
        1
    } else {
        4 * pow4((n - 1) as nat)
    }
}

/// Index of the first node of `level`: `(4^level - 1) / 3`.
pub open spec fn level_offset(level: nat) -> nat {
    ((pow4(level) - 1) / 3) as nat
}

/// `4^0 + 4^1 + ... + 4^max_level`.
pub open spec fn levels_sum(max_level: nat) -> nat
    decreases max_level,
{
    if max_level == 0 {
        1
    } else {
        levels_sum((max_level - 1) as nat) + pow4(max_level)
    }
}

/// Depth of the node at `position`: the root is at depth 0 and the parent of
/// any other node `p` is `(p - 1) / 4`.
pub open spec fn position_level(position: nat) -> nat
    decreases position,
{
    if position == 0 {
        0
    } else {
        1 + position_level(((position - 1) / 4) as nat)
    }
}

/// Index of `position` inside its own level's segment.
pub open spec fn relative(position: nat) -> nat {
    (position - level_offset(position_level(position))) as nat
}

/// The parent of a node below the root: a quarter of its relative index,
/// placed in the segment one level up.
pub open spec fn parent(position: nat) -> nat {
    relative(position) / 4 + level_offset((position_level(position) - 1) as nat)
}

/// Every level has at least one node.
pub proof fn lemma_pow4_positive(n: nat)
    ensures
        pow4(n) >= 1,
    decreases n,
{
    if n > 0 {
        lemma_pow4_positive((n - 1) as nat);
    }
}

/// A segment starts where the one before it ends, and at four times the
/// previous start plus one.
pub proof fn lemma_level_offset_step(level: nat)
    ensures
        3 * level_offset(level) + 1 == pow4(level),
        level_offset(level + 1) == 4 * level_offset(level) + 1,
        level_offset(level + 1) == level_offset(level) + pow4(level),
    decreases level,
{
    if level > 0 {
        lemma_level_offset_step((level - 1) as nat);
    }
    assert(pow4(level + 1) == 4 * pow4(level));
}

/// Deeper levels start later and hold at least as many nodes.
pub proof fn lemma_level_offset_monotone(a: nat, b: nat)
    requires
        a <= b,
    ensures
        level_offset(a) <= level_offset(b),
        pow4(a) <= pow4(b),
    decreases b - a,
{
    if a < b {
        lemma_level_offset_monotone(a, (b - 1) as nat);
        lemma_level_offset_step((b - 1) as nat);
        lemma_pow4_positive((b - 1) as nat);
    }
}

/// No segment start past level 32 fits in 64 bits.
pub proof fn lemma_offset_fits_level(level: nat)
    requires
        level_offset(level) <= usize::MAX,
    ensures
        level <= 32,
{
    if level > 32 {
        lemma_level_offset_monotone(33, level);
        lemma_pow4_33();
        lemma_level_offset_step(33);
    }
}

/// The size of level 33, which no 64-bit index holds.
proof fn lemma_pow4_33()
    ensures
        pow4(33) == 0x4_0000_0000_0000_0000,
{
    assert(pow4(8) == 0x1_0000) by {
        reveal_with_fuel(pow4, 9);
    }
    assert(pow4(16) == 0x1_0000_0000) by {
        lemma_pow4_adds(8, 8);
    }
    assert(pow4(32) == 0x1_0000_0000_0000_0000) by {
        lemma_pow4_adds(16, 16);
    }
}

/// `4^(a + b) == 4^a * 4^b`.
pub proof fn lemma_pow4_adds(a: nat, b: nat)
    ensures
        pow4(a + b) == pow4(a) * pow4(b),
    decreases b,
{
    if b == 0 {
        assert(pow4(a) * 1 == pow4(a)) by (nonlinear_arith);
    } else {
        let x = pow4(a);
        let y = pow4((b - 1) as nat);
        lemma_pow4_adds(a, (b - 1) as nat);
        assert(pow4(a + b) == 4 * pow4((a + b - 1) as nat));
        assert(4 * (x * y) == x * (4 * y)) by (nonlinear_arith);
    }
}

/// The level of a position is the one whose segment holds it.
pub proof fn lemma_position_level_bounds(position: nat)
    ensures
        level_offset(position_level(position)) <= position,
        position < level_offset(position_level(position) + 1),
    decreases position,
{
    if position == 0 {
        lemma_level_offset_step(0);
    } else {
        let up = ((position - 1) / 4) as nat;
        lemma_position_level_bounds(up);
        lemma_level_offset_step(position_level(up));
        lemma_level_offset_step(position_level(up) + 1);
    }
}

/// Only one level's segment holds a given position.
pub proof fn lemma_position_level_unique(position: nat, level: nat)
    requires
        level_offset(level) <= position < level_offset(level + 1),
    ensures
        position_level(position) == level,
{
    let l = position_level(position);
    lemma_position_level_bounds(position);
    if level < l {
        lemma_level_offset_monotone(level + 1, l);
    } else if l < level {
        lemma_level_offset_monotone(l + 1, level);
    }
}

/// The parent, stated through segments, is the node `(position - 1) / 4`.
pub proof fn lemma_parent_is_quarter(position: nat)
    requires
        position > 0,
    ensures
        parent(position) == (position - 1) / 4,
        position_level(parent(position)) + 1 == position_level(position),
{
    let up = ((position - 1) / 4) as nat;
    lemma_position_level_bounds(position);
    lemma_level_offset_step(position_level(up));
}

/// Index of the first node of `level`.
pub fn level_to_offset(level: u32) -> (offset: usize)
    requires
        level_offset(level as nat) <= usize::MAX,
    ensures
        offset == level_offset(level as nat),
{
    let mut offset: usize = 0;
    let mut done: u32 = 0;
    while done < level
        invariant
            done <= level,
            offset == level_offset(done as nat),
            level_offset(level as nat) <= usize::MAX,
        decreases level - done,
    {
        proof {
            lemma_level_offset_step(done as nat);
            lemma_level_offset_monotone((done + 1) as nat, level as nat);
        }
        offset = offset * 4 + 1;
        done += 1;
    }
    offset
}

/// Number of nodes on levels `0..=level` together.
pub fn full_level_space(level: u32) -> (space: usize)
    requires
        level_offset(level as nat + 1) <= usize::MAX,
    ensures
        space == level_offset(level as nat + 1),
        space == levels_sum(level as nat),
{
    proof {
        lemma_offset_fits_level(level as nat + 1);
        lemma_full_space_is_sum(level as nat);
    }
    level_to_offset(level + 1)
}

/// Number of nodes on levels `0..=level` together, or `None` where that
/// number does not fit in a `usize`.
pub fn checked_full_level_space(level: u32) -> (space: Option<usize>)
    ensures
        space is Some <==> level_offset(level as nat + 1) <= usize::MAX,
        space matches Some(s) ==> s == level_offset(level as nat + 1),
{
    let mut offset: usize = 0;
    let mut done: u32 = 0;
    let mut fits = true;
    while fits && done <= level
        invariant
            done <= level + 1,
            done <= 33,
            fits ==> offset == level_offset(done as nat),
            !fits ==> level_offset(level as nat + 1) > usize::MAX,
        decreases (if fits { 1int } else { 0int }), level + 1 - done,
    {
        proof {
            lemma_level_offset_step(done as nat);
            lemma_level_offset_monotone(done as nat + 1, level as nat + 1);
        }
        if offset > (usize::MAX - 1) / 4 {
            fits = false;
        } else {
            offset = offset * 4 + 1;
            done += 1;
            proof {
                lemma_offset_fits_level(done as nat);
            }
        }
    }
    if fits {
        Some(offset)
    } else {
        None
    }
}

/// Number of nodes on one level.
pub fn one_level_space(level: u32) -> (space: usize)
    requires
        pow4(level as nat) <= usize::MAX,
    ensures
        space == pow4(level as nat),
{
    let mut space: usize = 1;
    let mut done: u32 = 0;
    while done < level
        invariant
            done <= level,
            space == pow4(done as nat),
            pow4(level as nat) <= usize::MAX,
        decreases level - done,
    {
        proof {
            lemma_level_offset_monotone((done + 1) as nat, level as nat);
        }
        space = space * 4;
        done += 1;
    }
    space
}

/// The nodes of levels `0..=max_level` number `4^0 + ... + 4^max_level`, and
/// that is where the next level would start.
pub proof fn lemma_full_space_is_sum(max_level: nat)
    ensures
        level_offset(max_level + 1) == levels_sum(max_level),
    decreases max_level,
{
    lemma_level_offset_step(max_level);
    if max_level == 0 {
        lemma_level_offset_step(0);
    } else {
        lemma_full_space_is_sum((max_level - 1) as nat);
    }
}

/// Level of `position` and the start of that level's segment.
pub fn position_to_lo(position: usize) -> (lo: (u32, usize))
    ensures
        lo.0 == position_level(position as nat),
        lo.1 == level_offset(lo.0 as nat),
        lo.1 <= position,
        position < level_offset(lo.0 as nat + 1),
        lo.0 <= 32,
{
    let mut level: u32 = 0;
    let mut offset: usize = 0;
    loop
        invariant_except_break
            offset == level_offset(level as nat),
            offset <= position,
            level <= 32,
        ensures
            offset == level_offset(level as nat),
            offset <= position,
            position < level_offset(level as nat + 1),
            level <= 32,
        decreases position - offset,
    {
        proof {
            lemma_level_offset_step(level as nat);
        }
        if offset > (usize::MAX - 1) / 4 {
            break ;
        }
        let next: usize = offset * 4 + 1;
        if position < next {
            break ;
        }
        proof {
            lemma_offset_fits_level(level as nat + 1);
        }
        offset = next;
        level += 1;
    }
    proof {
        lemma_position_level_unique(position as nat, level as nat);
    }
    (level, offset)
}

/// Level of `position`.
pub fn position_to_level(position: usize) -> (level: u32)
    ensures
        level == position_level(position as nat),
        level <= 32,
{
    position_to_lo(position).0
}

/// Start of the segment that holds `position`.
pub fn position_to_offset(position: usize) -> (offset: usize)
    ensures
        offset == level_offset(position_level(position as nat)),
        offset <= position,
{
    position_to_lo(position).1
}

/// Index of `position` inside its level's segment.
pub fn relative_position(position: usize) -> (rel: usize)
    ensures
        rel == relative(position as nat),
        rel < pow4(position_level(position as nat)),
{
    let offset = position_to_offset(position);
    proof {
        lemma_position_level_bounds(position as nat);
        lemma_level_offset_step(position_level(position as nat));
    }
    position - offset
}

/// Position of the parent of a node below the root.
pub fn upper_level_position(position: usize) -> (up: usize)
    requires
        position_level(position as nat) > 0,
    ensures
        up == parent(position as nat),
        up == (position - 1) / 4,
        position_level(up as nat) == position_level(position as nat) - 1,
{
    let rel = relative_position(position);
    let level = position_to_level(position);
    let brel = rel / 4;
    proof {
        lemma_parent_is_quarter(position as nat);
    }
    let boffset = level_to_offset(level - 1);
    brel + boffset
}

/// One node of the tree (`Dot`), or a run of neighbouring nodes of one level
/// (`Span`, from its first index up to, not including, its second).
#[derive(Clone, Copy, Debug, PartialEq, Eq, Structural)]
pub enum TexurePosition {
    Dot(usize),
    Span(usize, usize),
}

/// First of the four children of a node: four times its relative index,
/// placed in the segment one level down.
pub open spec fn first_child(position: nat) -> nat {
    4 * relative(position) + level_offset(position_level(position) + 1)
}

/// The node `steps` levels above `position` (the root once the root is reached).
pub open spec fn ancestor(position: nat, steps: nat) -> nat
    decreases steps,
{
    if steps == 0 {
        position
    } else {
        let below = ancestor(position, (steps - 1) as nat);
        if below == 0 {
            0
        } else {
            parent(below)
        }
    }
}

/// First of the descendants of `position` that lie `depth` levels below it.
pub open spec fn first_descendant(position: nat, depth: nat) -> nat
    decreases depth,
{
    if depth == 0 {
        position
    } else {
        first_child(first_descendant(position, (depth - 1) as nat))
    }
}

/// One past the last descendant of `position` that lies `depth` levels below it.
pub open spec fn end_descendant(position: nat, depth: nat) -> nat
    decreases depth,
{
    if depth == 0 {
        position + 1
    } else {
        first_child((end_descendant(position, (depth - 1) as nat) - 1) as nat) + 4
    }
}

/// `node` is `of`, or lies on the path from the root to `of`.
pub open spec fn is_ancestor_or_self(node: nat, of: nat) -> bool {
    &&& position_level(node) <= position_level(of)
    &&& ancestor(of, (position_level(of) - position_level(node)) as nat) == node
}

/// Everything that shares atlas area with `position`: the path from the root
/// down to it, then its descendants level by level down to `max_level`.
#[verifier::opaque]
pub open spec fn related_positions(position: nat, max_level: nat) -> Seq<TexurePosition> {
    let level = position_level(position);
    let depth = if max_level > level {
        (max_level - level) as nat
    } else {
        0
    };
    Seq::new(level + 1, |j: int| TexurePosition::Dot(ancestor(position, (level - j) as nat) as usize))
        + Seq::new(
        depth,
        |k: int|
            TexurePosition::Span(
                first_descendant(position, (k + 1) as nat) as usize,
                end_descendant(position, (k + 1) as nat) as usize,
            ),
    )
}

/// The children of node `p` are the nodes `4p + 1 ..= 4p + 4`, one level down.
pub proof fn lemma_first_child(position: nat)
    ensures
        first_child(position) == 4 * position + 1,
        position_level(first_child(position)) == position_level(position) + 1,
        position_level(first_child(position) + 3) == position_level(position) + 1,
{
    lemma_position_level_bounds(position);
    lemma_level_offset_step(position_level(position));
    let c = 4 * position + 1;
    assert(((c - 1) / 4) as nat == position);
    assert(((c + 3 - 1) / 4) as nat == position);
}

/// Splitting a position into its level's start and its relative index loses
/// nothing.
pub proof fn lemma_position_round_trip(position: nat)
    ensures
        level_offset(position_level(position)) + relative(position) == position,
        relative(position) < pow4(position_level(position)),
{
    lemma_position_level_bounds(position);
    lemma_level_offset_step(position_level(position));
}

/// The parent of a node below the root lies one level up, and the span of
/// the parent's children holds the node.
pub proof fn lemma_parent_child(position: nat)
    requires
        position_level(position) > 0,
    ensures
        position_level(parent(position)) == position_level(position) - 1,
        first_child(parent(position)) <= position < first_child(parent(position)) + 4,
{
    lemma_parent_is_quarter(position);
    lemma_first_child(parent(position));
}

/// Going up `steps` levels from a node at least that deep lands `steps`
/// levels higher.
pub proof fn lemma_ancestor_level(position: nat, steps: nat)
    requires
        steps <= position_level(position),
    ensures
        position_level(ancestor(position, steps)) == position_level(position) - steps,
        ancestor(position, steps) <= position,
    decreases steps,
{
    if steps > 0 {
        lemma_ancestor_level(position, (steps - 1) as nat);
        let below = ancestor(position, (steps - 1) as nat);
        lemma_parent_is_quarter(below);
    }
}

/// The descendants `depth` levels below a node form a non-empty run inside
/// the level `depth` below the node's own.
pub proof fn lemma_descendant_span(position: nat, depth: nat)
    ensures
        first_descendant(position, depth) < end_descendant(position, depth),
        position_level(first_descendant(position, depth)) == position_level(position) + depth,
        position_level((end_descendant(position, depth) - 1) as nat) == position_level(position)
            + depth,
        end_descendant(position, depth) <= level_offset(position_level(position) + depth + 1),
        depth > 0 ==> first_descendant(position, depth) == 4 * first_descendant(
            position,
            (depth - 1) as nat,
        ) + 1,
        depth > 0 ==> end_descendant(position, depth) == 4 * end_descendant(
            position,
            (depth - 1) as nat,
        ) + 1,
    decreases depth,
{
    if depth > 0 {
        lemma_descendant_span(position, (depth - 1) as nat);
        lemma_first_child(first_descendant(position, (depth - 1) as nat));
        lemma_first_child((end_descendant(position, (depth - 1) as nat) - 1) as nat);
    }
    lemma_position_level_bounds((end_descendant(position, depth) - 1) as nat);
}

/// What the list of related positions holds at each index: the node's
/// ancestors from the root down to the node itself, then one span for each
/// level below it.
pub proof fn lemma_related_positions(position: nat, max_level: nat)
    requires
        position <= usize::MAX,
        position_level(position) < max_level ==> level_offset(max_level + 1) <= usize::MAX,
    ensures
        related_positions(position, max_level).len() == position_level(position) + 1 + (if max_level
            > position_level(position) {
            max_level - position_level(position)
        } else {
            0
        }),
        forall|j: int|
            0 <= j <= position_level(position) ==> {
                &&& #[trigger] related_positions(position, max_level)[j] == TexurePosition::Dot(
                    ancestor(position, (position_level(position) - j) as nat) as usize,
                )
                &&& ancestor(position, (position_level(position) - j) as nat) <= position
                &&& position_level(ancestor(position, (position_level(position) - j) as nat)) == j
            },
        forall|j: int|
            position_level(position) < j <= max_level ==> {
                &&& #[trigger] related_positions(position, max_level)[j] == TexurePosition::Span(
                    first_descendant(position, (j - position_level(position)) as nat) as usize,
                    end_descendant(position, (j - position_level(position)) as nat) as usize,
                )
                &&& end_descendant(position, (j - position_level(position)) as nat) <= usize::MAX
                &&& first_descendant(position, (j - position_level(position)) as nat)
                    < end_descendant(position, (j - position_level(position)) as nat)
            },
{
    reveal(related_positions);
    let level = position_level(position);
    let places = related_positions(position, max_level);
    assert forall|j: int| 0 <= j <= level implies {
        &&& #[trigger] places[j] == TexurePosition::Dot(
            ancestor(position, (level - j) as nat) as usize,
        )
        &&& ancestor(position, (level - j) as nat) <= position
        &&& position_level(ancestor(position, (level - j) as nat)) == j
    } by {
        lemma_ancestor_level(position, (level - j) as nat);
    }
    assert forall|j: int| level < j <= max_level implies {
        &&& #[trigger] places[j] == TexurePosition::Span(
            first_descendant(position, (j - level) as nat) as usize,
            end_descendant(position, (j - level) as nat) as usize,
        )
        &&& end_descendant(position, (j - level) as nat) <= usize::MAX
        &&& first_descendant(position, (j - level) as nat) < end_descendant(
            position,
            (j - level) as nat,
        )
    } by {
        lemma_descendant_span(position, (j - level) as nat);
        lemma_level_offset_monotone(j as nat + 1, max_level + 1);
    }
}

/// Span of the children of a node, or of all the nodes of a span.
pub fn lower_level_span(position_or_span: TexurePosition) -> (span: TexurePosition)
    requires
        match position_or_span {
            TexurePosition::Dot(p) => first_child(p as nat) + 4 <= usize::MAX,
            TexurePosition::Span(a, b) => {
                &&& a < b
                &&& position_level(a as nat) == position_level((b - 1) as nat)
                &&& first_child((b - 1) as nat) + 4 <= usize::MAX
            },
        },
    ensures
        match position_or_span {
            TexurePosition::Dot(p) => span == TexurePosition::Span(
                first_child(p as nat) as usize,
                (first_child(p as nat) + 4) as usize,
            ),
            TexurePosition::Span(a, b) => span == TexurePosition::Span(
                first_child(a as nat) as usize,
                (first_child((b - 1) as nat) + 4) as usize,
            ),
        },
{
    match position_or_span {
        TexurePosition::Dot(position) => {
            let level = position_to_level(position);
            let rel = relative_position(position);
            proof {
                lemma_first_child(position as nat);
                lemma_position_round_trip(position as nat);
                lemma_level_offset_step(level as nat);
            }
            let nrel0 = rel * 4;
            let nrel1 = nrel0 + 4;
            let noffset = level_to_offset(level + 1);
            TexurePosition::Span(nrel0 + noffset, nrel1 + noffset)
        },
        TexurePosition::Span(a, b) => {
            let level = position_to_level(a);
            let rel0 = relative_position(a);
            let rel1 = relative_position(b - 1);
            proof {
                lemma_first_child(a as nat);
                lemma_first_child((b - 1) as nat);
                lemma_position_round_trip(a as nat);
                lemma_position_round_trip((b - 1) as nat);
                lemma_level_offset_step(level as nat);
            }
            let nrel0 = rel0 * 4;
            let nrel1 = rel1 * 4 + 4;
            let noffset = level_to_offset(level + 1);
            TexurePosition::Span(nrel0 + noffset, nrel1 + noffset)
        },
    }
}

/// The nodes related to `position`, root first, and the level of `position`.
pub fn leveled_position(position: usize, max_level: u32) -> (res: (Vec<TexurePosition>, u32))
    requires
        position_level(position as nat) < max_level ==> level_offset(max_level as nat + 1)
            <= usize::MAX,
    ensures
        res.0@ == related_positions(position as nat, max_level as nat),
        res.1 == position_level(position as nat),
{
    let level = position_to_level(position);
    let mut path: Vec<usize> = Vec::new();
    let mut current = position;
    let mut steps: u32 = 0;
    while steps <= level
        invariant
            level == position_level(position as nat),
            level <= 32,
            steps <= level + 1,
            path@.len() == steps,
            forall|t: int|
                0 <= t < steps ==> #[trigger] path@[t] == ancestor(position as nat, t as nat),
            steps <= level ==> current == ancestor(position as nat, steps as nat),
        decreases level + 1 - steps,
    {
        path.push(current);
        proof {
            lemma_ancestor_level(position as nat, steps as nat);
        }
        if steps < level {
            current = upper_level_position(current);
        }
        steps += 1;
    }
    let mut res: Vec<TexurePosition> = Vec::new();
    let mut j: u32 = 0;
    while j <= level
        invariant
            level == position_level(position as nat),
            level <= 32,
            j <= level + 1,
            path@.len() == level + 1,
            forall|t: int|
                0 <= t <= level ==> #[trigger] path@[t] == ancestor(position as nat, t as nat),
            res@.len() == j,
            forall|t: int|
                0 <= t < j ==> #[trigger] res@[t] == TexurePosition::Dot(
                    ancestor(position as nat, (level - t) as nat) as usize,
                ),
        decreases level + 1 - j,
    {
        res.push(TexurePosition::Dot(path[(level - j) as usize]));
        j += 1;
    }
    let mut below = TexurePosition::Dot(position);
    let mut depth: u32 = 0;
    while level + depth < max_level
        invariant
            level == position_level(position as nat),
            level <= 32,
            level < max_level ==> level_offset(max_level as nat + 1) <= usize::MAX,
            level + depth <= max_level || depth == 0,
            depth == 0 ==> below == TexurePosition::Dot(position),
            depth > 0 ==> below == TexurePosition::Span(
                first_descendant(position as nat, depth as nat) as usize,
                end_descendant(position as nat, depth as nat) as usize,
            ),
            res@.len() == level + 1 + depth,
            forall|t: int|
                0 <= t <= level ==> #[trigger] res@[t] == TexurePosition::Dot(
                    ancestor(position as nat, (level - t) as nat) as usize,
                ),
            forall|t: int|
                level < t <= level + depth ==> #[trigger] res@[t] == TexurePosition::Span(
                    first_descendant(position as nat, (t - level) as nat) as usize,
                    end_descendant(position as nat, (t - level) as nat) as usize,
                ),
        decreases max_level - level - depth,
    {
        proof {
            lemma_descendant_span(position as nat, depth as nat);
            lemma_descendant_span(position as nat, depth as nat + 1);
            lemma_level_offset_monotone(level as nat + depth as nat + 2, max_level as nat + 1);
        }
        let lower = lower_level_span(below);
        below = lower;
        res.push(lower);
        depth += 1;
    }
    proof {
        reveal(related_positions);
        assert(res@ =~= related_positions(position as nat, max_level as nat));
    }
    (res, level)
}

} // verus!
