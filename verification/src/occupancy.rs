//! Occupancy index: one flag per tree position, the first-fit search over one
//! level of it, and the marking that keeps a node's whole family in step.

use vstd::prelude::*;
use crate::codec::{
    ancestor, end_descendant, first_descendant, is_ancestor_or_self, lemma_ancestor_level,
    lemma_descendant_span, lemma_level_offset_monotone, lemma_level_offset_step,
    lemma_position_level_unique, lemma_related_positions,
    lemma_offset_fits_level, lemma_parent_is_quarter, level_offset, level_to_offset, leveled_position,
    one_level_space, parent, position_level, pow4, related_positions, TexurePosition,
};

verus! {

/// `node` is the dot, or lies inside the span.
pub open spec fn covers(place: TexurePosition, node: nat) -> bool {
    match place {
        TexurePosition::Dot(a) => node == a,
        TexurePosition::Span(a, b) => a <= node < b,
    }
}

/// `node` shares atlas area with `position`: it lies on the path from the
/// root to `position`, or below `position` and no deeper than `max_level`.
pub open spec fn in_family(position: nat, node: nat, max_level: nat) -> bool {
    ||| is_ancestor_or_self(node, position)
    ||| (is_ancestor_or_self(position, node) && position_level(node) <= max_level)
}

/// The index after `position` is taken: its family is occupied, and whatever
/// was occupied stays so.
pub open spec fn marked(occupied: Seq<bool>, position: nat, max_level: nat) -> Seq<bool> {
    Seq::new(occupied.len(), |i: int| occupied[i] || in_family(position, i as nat, max_level))
}

/// The index after each of `positions` is taken in turn.
pub open spec fn marked_all(occupied: Seq<bool>, positions: Seq<nat>, max_level: nat) -> Seq<bool>
    decreases positions.len(),
{
    if positions.len() == 0 {
        occupied
    } else {
        marked(marked_all(occupied, positions.drop_last(), max_level), positions.last(), max_level)
    }
}

/// An index of `len` nodes, none of them occupied.
pub open spec fn empty_index(len: nat) -> Seq<bool> {
    Seq::new(len, |i: int| false)
}

/// The whole family of `position` that the index holds is occupied.
pub open spec fn family_occupied(occupied: Seq<bool>, position: nat, max_level: nat) -> bool {
    forall|node: int|
        0 <= node < occupied.len() && in_family(position, node as nat, max_level)
            ==> #[trigger] occupied[node]
}

/// Neither position lies on the path from the root to the other: the two
/// nodes share no area of the atlas.
pub open spec fn unrelated(first: nat, second: nat) -> bool {
    !is_ancestor_or_self(first, second) && !is_ancestor_or_self(second, first)
}

/// Every occupied node has all the nodes above it occupied.
pub open spec fn ancestors_occupied(occupied: Seq<bool>) -> bool {
    forall|node: int, steps: nat|
        0 <= node < occupied.len() && #[trigger] occupied[node] ==> occupied[#[trigger] ancestor(
            node as nat,
            steps,
        ) as int]
}

/// Where the search for a node of `level` starts: at that level's segment,
/// or, for a level deeper than the index holds, right behind the last level.
pub open spec fn search_start(level: nat, max_level: nat) -> nat {
    if level <= max_level {
        level_offset(level)
    } else {
        level_offset(max_level + 1)
    }
}

/// One past the last index searched: a level's worth of nodes from the
/// start, as far as the index reaches.
pub open spec fn search_end(level: nat, max_level: nat, len: nat) -> nat {
    let end = search_start(level, max_level) + pow4(level);
    if end <= len {
        end
    } else {
        len
    }
}

/// The least index in `from..to` whose flag is not set.
pub open spec fn first_unoccupied(occupied: Seq<bool>, from: nat, to: nat) -> Option<nat>
    decreases to - from,
{
    if from >= to {
        None
    } else if !occupied[from as int] {
        Some(from)
    } else {
        first_unoccupied(occupied, from + 1, to)
    }
}

/// What the first-fit search answers for `level`.
pub open spec fn first_free(occupied: Seq<bool>, level: nat, max_level: nat) -> Option<nat> {
    first_unoccupied(
        occupied,
        search_start(level, max_level),
        search_end(level, max_level, occupied.len()),
    )
}

/// `first_unoccupied` finds a free index with only occupied ones before it,
/// and finds none only where the whole range is occupied.
pub proof fn lemma_first_unoccupied(occupied: Seq<bool>, from: nat, to: nat)
    requires
        to <= occupied.len(),
    ensures
        match first_unoccupied(occupied, from, to) {
            Some(i) => {
                &&& from <= i < to
                &&& !occupied[i as int]
                &&& forall|j: int| from <= j < i ==> occupied[j]
            },
            None => forall|j: int| from <= j < to ==> occupied[j],
        },
    decreases to - from,
{
    if from < to && occupied[from as int] {
        lemma_first_unoccupied(occupied, from + 1, to);
    }
}

/// An index that holds exactly the levels `0..=max_level` has no free node
/// for a deeper level.
pub proof fn lemma_no_room_below_max_level(occupied: Seq<bool>, level: nat, max_level: nat)
    requires
        occupied.len() == level_offset(max_level + 1),
        level > max_level,
    ensures
        first_free(occupied, level, max_level) is None,
{
}

/// First free node of `level`, in ascending index order.
pub fn first_free_position(level: u32, occupied: &[bool], max_level: u32) -> (free: Option<usize>)
    requires
        level_offset(max_level as nat + 1) <= usize::MAX,
        pow4(level as nat) <= usize::MAX,
    ensures
        match free {
            Some(i) => {
                &&& first_free(occupied@, level as nat, max_level as nat) == Some(i as nat)
                &&& search_start(level as nat, max_level as nat) <= i < search_end(
                    level as nat,
                    max_level as nat,
                    occupied@.len(),
                )
                &&& !occupied@[i as int]
                &&& forall|j: int|
                    search_start(level as nat, max_level as nat) <= j < i ==> occupied@[j]
            },
            None => {
                &&& first_free(occupied@, level as nat, max_level as nat) is None
                &&& forall|j: int|
                    search_start(level as nat, max_level as nat) <= j < search_end(
                        level as nat,
                        max_level as nat,
                        occupied@.len(),
                    ) ==> occupied@[j]
            },
        },
{
    proof {
        lemma_offset_fits_level(max_level as nat + 1);
        if level <= max_level {
            lemma_level_offset_monotone(level as nat, max_level as nat + 1);
        }
    }
    let offset = if level <= max_level {
        level_to_offset(level)
    } else {
        level_to_offset(max_level + 1)
    };
    let space = one_level_space(level);
    let len = occupied.len();
    if offset >= len {
        return None;
    }
    let end = if space <= len - offset {
        offset + space
    } else {
        len
    };
    let mut i = offset;
    while i < end
        invariant
            offset <= i <= end <= occupied@.len(),
            offset == search_start(level as nat, max_level as nat),
            end == search_end(level as nat, max_level as nat, occupied@.len() as nat),
            first_unoccupied(occupied@, offset as nat, end as nat) == first_unoccupied(
                occupied@,
                i as nat,
                end as nat,
            ),
        decreases end - i,
    {
        if !occupied[i] {
            proof {
                lemma_first_unoccupied(occupied@, offset as nat, end as nat);
            }
            return Some(i);
        }
        i += 1;
    }
    proof {
        lemma_first_unoccupied(occupied@, offset as nat, end as nat);
    }
    None
}

/// Some place among the first `n` of `places` holds `node`.
pub open spec fn covered(places: Seq<TexurePosition>, n: nat, node: nat) -> bool
    decreases n,
{
    n > 0 && (covers(places[n - 1], node) || covered(places, (n - 1) as nat, node))
}

/// `covered` holds exactly if one of the first `n` places holds the node.
proof fn lemma_covered_exists(places: Seq<TexurePosition>, n: nat, node: nat)
    ensures
        covered(places, n, node) <==> exists|j: int| 0 <= j < n && covers(#[trigger] places[j], node),
    decreases n,
{
    if n > 0 {
        lemma_covered_exists(places, (n - 1) as nat, node);
        if covered(places, n, node) {
            if covers(places[n - 1], node) {
                assert(0 <= n - 1 < n && covers(places[n - 1], node));
            } else {
                let j = choose|j: int| 0 <= j < n - 1 && covers(#[trigger] places[j], node);
                assert(0 <= j < n && covers(places[j], node));
            }
        }
    }
}

/// Going up from a node below the root is going up from its parent, one
/// step less.
pub proof fn lemma_ancestor_of_parent(node: nat, steps: nat)
    requires
        node > 0,
        steps > 0,
    ensures
        ancestor(node, steps) == ancestor(parent(node), (steps - 1) as nat),
    decreases steps,
{
    if steps > 1 {
        lemma_ancestor_of_parent(node, (steps - 1) as nat);
    } else {
        assert(ancestor(node, 0) == node);
        assert(ancestor(parent(node), 0) == parent(node));
    }
}

/// Going up in two stages is going up by their sum.
pub proof fn lemma_ancestor_adds(node: nat, first: nat, second: nat)
    ensures
        ancestor(ancestor(node, first), second) == ancestor(node, first + second),
    decreases second,
{
    if second > 0 {
        lemma_ancestor_adds(node, first, (second - 1) as nat);
        assert(ancestor(node, first + second) == {
            let below = ancestor(node, (first + second - 1) as nat);
            if below == 0 {
                0
            } else {
                parent(below)
            }
        });
    }
}

/// The span `depth` levels below a position holds exactly the nodes of that
/// level from which `depth` steps up lead to the position.
pub proof fn lemma_descendant_iff(position: nat, depth: nat, node: nat)
    ensures
        first_descendant(position, depth) <= node < end_descendant(position, depth) <==> {
            &&& position_level(node) == position_level(position) + depth
            &&& ancestor(node, depth) == position
        },
    decreases depth,
{
    if depth > 0 {
        lemma_descendant_span(position, depth);
        if node > 0 {
            let up = parent(node);
            lemma_parent_is_quarter(node);
            lemma_descendant_iff(position, (depth - 1) as nat, up);
            lemma_ancestor_of_parent(node, depth);
        }
    }
}

/// A node of the position's family is held by the list of related positions.
proof fn lemma_family_covered(position: nat, node: nat, max_level: nat)
    requires
        position <= usize::MAX,
        position_level(position) < max_level ==> level_offset(max_level + 1) <= usize::MAX,
        in_family(position, node, max_level),
    ensures
        covered(
            related_positions(position, max_level),
            related_positions(position, max_level).len(),
            node,
        ),
{
    let places = related_positions(position, max_level);
    let level = position_level(position);
    lemma_covered_exists(places, places.len(), node);
    lemma_related_positions(position, max_level);
    if is_ancestor_or_self(node, position) {
        let j = position_level(node) as int;
        assert(covers(places[j], node));
    } else {
        let d = (position_level(node) - level) as nat;
        lemma_descendant_iff(position, d, node);
        let j = (level + d) as int;
        assert(d > 0);
        assert(covers(places[j], node));
    }
}

/// A node held by the list of related positions is in the position's family.
proof fn lemma_covered_family(position: nat, node: nat, max_level: nat)
    requires
        position <= usize::MAX,
        position_level(position) < max_level ==> level_offset(max_level + 1) <= usize::MAX,
        covered(
            related_positions(position, max_level),
            related_positions(position, max_level).len(),
            node,
        ),
    ensures
        in_family(position, node, max_level),
{
    let places = related_positions(position, max_level);
    let level = position_level(position);
    lemma_covered_exists(places, places.len(), node);
    lemma_related_positions(position, max_level);
    let j = choose|j: int| 0 <= j < places.len() && covers(#[trigger] places[j], node);
    if j <= level {
        let a = ancestor(position, (level - j) as nat);
        assert(places[j] == TexurePosition::Dot(a as usize));
        assert(node == a);
        assert(is_ancestor_or_self(node, position));
    } else {
        let d = (j - level) as nat;
        assert(places[j] == TexurePosition::Span(
            first_descendant(position, d) as usize,
            end_descendant(position, d) as usize,
        ));
        lemma_descendant_iff(position, d, node);
        assert(position_level(node) == level + d);
        assert(ancestor(node, d) == position);
        assert(is_ancestor_or_self(position, node));
    }
}

/// The dots in the list of related positions are the position or above it.
proof fn lemma_related_dots(position: nat, max_level: nat, j: int)
    requires
        position <= usize::MAX,
        position_level(position) < max_level ==> level_offset(max_level + 1) <= usize::MAX,
        0 <= j < related_positions(position, max_level).len(),
    ensures
        related_positions(position, max_level)[j] matches TexurePosition::Dot(a) ==> a
            <= position,
{
    lemma_related_positions(position, max_level);
    if j <= position_level(position) {
        assert(related_positions(position, max_level)[j] == TexurePosition::Dot(
            ancestor(position, (position_level(position) - j) as nat) as usize,
        ));
    } else {
        assert(related_positions(position, max_level)[j] is Span);
    }
}

/// Marks `position` and every node related to it as occupied.
pub fn occupy(position: usize, occupied: &mut [bool], max_level: u32)
    requires
        position < old(occupied)@.len(),
        position_level(position as nat) < max_level ==> level_offset(max_level as nat + 1)
            <= usize::MAX,
    ensures
        final(occupied)@ == marked(old(occupied)@, position as nat, max_level as nat),
{
    let places = leveled_position(position, max_level).0;
    let len = occupied.len();
    let ghost before = occupied@;
    let mut n: usize = 0;
    while n < places.len()
        invariant
            n <= places@.len(),
            len == before.len(),
            occupied@.len() == before.len(),
            position < before.len(),
            position_level(position as nat) < max_level ==> level_offset(max_level as nat + 1)
                <= usize::MAX,
            places@ == related_positions(position as nat, max_level as nat),
            forall|i: int|
                0 <= i < before.len() ==> #[trigger] occupied@[i] == (before[i] || covered(
                    places@,
                    n as nat,
                    i as nat,
                )),
        decreases places@.len() - n,
    {
        let ghost entering = occupied@;
        let place = places[n];
        proof {
            lemma_related_dots(position as nat, max_level as nat, n as int);
        }
        match place {
            TexurePosition::Dot(a) => {
                occupied[a] = true;
            },
            TexurePosition::Span(a, b) => {
                let end = if b <= len {
                    b
                } else {
                    len
                };
                let mut i = a;
                while i < end
                    invariant
                        len == entering.len(),
                        b <= len ==> end == b,
                        b > len ==> end == len,
                        occupied@.len() == entering.len(),
                        a <= i,
                        a <= end ==> i <= end,
                        a > end ==> i == a,
                        forall|t: int|
                            0 <= t < entering.len() ==> #[trigger] occupied@[t] == (entering[t]
                                || (a <= t < i)),
                    decreases end - i,
                {
                    occupied[i] = true;
                    i += 1;
                }
            },
        }
        proof {
            assert forall|i: int| 0 <= i < before.len() implies #[trigger] occupied@[i] == (
            before[i] || covered(places@, (n + 1) as nat, i as nat)) by {
                assert(entering[i] == (before[i] || covered(places@, n as nat, i as nat)));
                assert(occupied@[i] == (entering[i] || covers(place, i as nat)));
                assert(covered(places@, (n + 1) as nat, i as nat) == (covers(place, i as nat)
                    || covered(places@, n as nat, i as nat)));
            }
        }
        n += 1;
    }
    proof {
        assert forall|i: int| 0 <= i < before.len() implies occupied@[i] == marked(
            before,
            position as nat,
            max_level as nat,
        )[i] by {
            if in_family(position as nat, i as nat, max_level as nat) {
                lemma_family_covered(position as nat, i as nat, max_level as nat);
            }
            if covered(places@, places@.len(), i as nat) {
                lemma_covered_family(position as nat, i as nat, max_level as nat);
            }
        }
        assert(occupied@ =~= marked(before, position as nat, max_level as nat));
    }
}

/// Taking a position twice leaves the index as taking it once does.
pub proof fn lemma_occupy_idempotent(occupied: Seq<bool>, position: nat, max_level: nat)
    ensures
        marked(marked(occupied, position, max_level), position, max_level) == marked(
            occupied,
            position,
            max_level,
        ),
{
    assert(marked(marked(occupied, position, max_level), position, max_level) =~= marked(
        occupied,
        position,
        max_level,
    ));
}

/// Every node of a family has its own ancestors in the family.
pub proof fn lemma_family_holds_ancestors(position: nat, node: nat, max_level: nat, steps: nat)
    requires
        in_family(position, node, max_level),
    ensures
        in_family(position, ancestor(node, steps), max_level),
{
    let level = position_level(position);
    let depth = position_level(node);
    if steps > depth {
        lemma_ancestor_adds(node, depth, (steps - depth) as nat);
        lemma_ancestor_level(node, depth);
        lemma_root_stays(( steps - depth) as nat);
        lemma_ancestor_level(position, level);
        assert(ancestor(node, steps) == 0);
        assert(ancestor(position, level) == 0);
    } else {
        lemma_ancestor_level(node, steps);
        if is_ancestor_or_self(node, position) {
            lemma_ancestor_adds(position, (level - depth) as nat, steps);
        } else if depth - steps >= level {
            lemma_ancestor_adds(node, steps, (depth - steps - level) as nat);
        } else {
            lemma_ancestor_adds(node, (depth - level) as nat, (steps - (depth - level)) as nat);
        }
    }
}

/// Going up from the root stays at the root.
proof fn lemma_root_stays(steps: nat)
    ensures
        ancestor(0, steps) == 0,
    decreases steps,
{
    if steps > 0 {
        lemma_root_stays((steps - 1) as nat);
    }
}

/// Taking a position keeps the index closed under going up.
pub proof fn lemma_occupy_keeps_ancestors(occupied: Seq<bool>, position: nat, max_level: nat)
    requires
        ancestors_occupied(occupied),
        position < occupied.len(),
    ensures
        ancestors_occupied(marked(occupied, position, max_level)),
{
    let after = marked(occupied, position, max_level);
    assert forall|node: int, steps: nat|
        0 <= node < after.len() && #[trigger] after[node] implies after[#[trigger] ancestor(
        node as nat,
        steps,
    ) as int] by {
        if steps <= position_level(node as nat) {
            lemma_ancestor_level(node as nat, steps);
        } else {
            lemma_ancestor_adds(node as nat, position_level(node as nat), (steps - position_level(node as nat)) as nat);
            lemma_ancestor_level(node as nat, position_level(node as nat));
            lemma_root_stays((steps - position_level(node as nat)) as nat);
        }
        if occupied[node] {
            assert(occupied[ancestor(node as nat, steps) as int]);
        } else {
            lemma_family_holds_ancestors(position, node as nat, max_level, steps);
        }
    }
}

/// After any run of takings on an empty index, every occupied node has all
/// the nodes above it occupied, and every position that was taken has all
/// the nodes below it, down to `max_level`, occupied.
pub proof fn lemma_occupancy_invariant(len: nat, positions: Seq<nat>, max_level: nat)
    requires
        forall|k: int| 0 <= k < positions.len() ==> #[trigger] positions[k] < len,
    ensures
        marked_all(empty_index(len), positions, max_level).len() == len,
        ancestors_occupied(marked_all(empty_index(len), positions, max_level)),
        forall|k: int, node: int|
            0 <= k < positions.len() && 0 <= node < len && in_family(
                #[trigger] positions[k],
                node as nat,
                max_level,
            ) ==> #[trigger] marked_all(empty_index(len), positions, max_level)[node],
    decreases positions.len(),
{
    let empty = empty_index(len);
    if positions.len() > 0 {
        let earlier = positions.drop_last();
        lemma_occupancy_invariant(len, earlier, max_level);
        lemma_occupy_keeps_ancestors(marked_all(empty, earlier, max_level), positions.last(), max_level);
        let before = marked_all(empty, earlier, max_level);
        let after = marked_all(empty, positions, max_level);
        assert forall|k: int, node: int|
            0 <= k < positions.len() && 0 <= node < len && in_family(
                #[trigger] positions[k],
                node as nat,
                max_level,
            ) implies #[trigger] after[node] by {
            if k < earlier.len() {
                assert(earlier[k] == positions[k]);
                assert(before[node]);
            }
        }
    }
}

/// In an index that holds exactly the levels `0..=max_level`, the node found
/// for a level is a node of that level, and no node is found for a deeper
/// level.
pub proof fn lemma_first_free_level(occupied: Seq<bool>, level: nat, max_level: nat)
    requires
        occupied.len() == level_offset(max_level + 1),
        first_free(occupied, level, max_level) is Some,
    ensures
        level <= max_level,
        position_level(first_free(occupied, level, max_level)->Some_0) == level,
        first_free(occupied, level, max_level)->Some_0 < occupied.len(),
        !occupied[first_free(occupied, level, max_level)->Some_0 as int],
{
    lemma_first_unoccupied(
        occupied,
        search_start(level, max_level),
        search_end(level, max_level, occupied.len()),
    );
    lemma_level_offset_step(level);
    lemma_position_level_unique(first_free(occupied, level, max_level)->Some_0, level);
}

/// A node that is still free after a run of takings on an empty index, and
/// no deeper than `max_level`, shares no area with any position taken: it is
/// neither above nor below one of them.
pub proof fn lemma_free_node_is_unrelated(
    len: nat,
    positions: Seq<nat>,
    max_level: nat,
    node: nat,
)
    requires
        forall|k: int| 0 <= k < positions.len() ==> #[trigger] positions[k] < len,
        node < len,
        position_level(node) <= max_level,
        !marked_all(empty_index(len), positions, max_level)[node as int],
    ensures
        forall|k: int| 0 <= k < positions.len() ==> unrelated(node, #[trigger] positions[k]),
{
    lemma_occupancy_invariant(len, positions, max_level);
    assert forall|k: int| 0 <= k < positions.len() implies unrelated(
        node,
        #[trigger] positions[k],
    ) by {
        if in_family(positions[k], node, max_level) {
            assert(marked_all(empty_index(len), positions, max_level)[node as int]);
        }
    }
}

} // verus!
