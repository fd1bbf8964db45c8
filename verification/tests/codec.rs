use texture_atlas::codec::{
    checked_full_level_space, full_level_space, level_to_offset, leveled_position,
    lower_level_span, one_level_space, position_to_level, position_to_lo, position_to_offset,
    relative_position, upper_level_position, TexurePosition,
};

#[test]
fn level_offsets_are_base_four_repunits() {
    assert_eq!(level_to_offset(0), 0);
    assert_eq!(level_to_offset(1), 1);
    assert_eq!(level_to_offset(2), 5);
    assert_eq!(level_to_offset(3), 21);
    assert_eq!(level_to_offset(4), 85);
    assert_eq!(level_to_offset(5), 341);
}

#[test]
fn one_level_space_is_power_of_four() {
    let mut expected: usize = 1;
    for level in 0..12u32 {
        assert_eq!(one_level_space(level), expected);
        expected *= 4;
    }
}

#[test]
fn full_level_space_is_sum_of_levels() {
    let mut sum: usize = 0;
    for level in 0..12u32 {
        sum += one_level_space(level);
        assert_eq!(full_level_space(level), sum);
        assert_eq!(full_level_space(level), level_to_offset(level + 1));
    }
    assert_eq!(full_level_space(0), 1);
    assert_eq!(full_level_space(2), 21);
    assert_eq!(full_level_space(3), 85);
}

#[test]
fn checked_full_level_space_reports_overflow() {
    assert_eq!(checked_full_level_space(0), Some(1));
    assert_eq!(checked_full_level_space(2), Some(21));
    assert_eq!(checked_full_level_space(3), Some(85));
    assert_eq!(checked_full_level_space(40), None);
    assert_eq!(checked_full_level_space(u32::MAX), None);
}

#[test]
fn position_to_lo_finds_the_segment() {
    assert_eq!(position_to_lo(0), (0, 0));
    assert_eq!(position_to_lo(1), (1, 1));
    assert_eq!(position_to_lo(4), (1, 1));
    assert_eq!(position_to_lo(5), (2, 5));
    assert_eq!(position_to_lo(20), (2, 5));
    assert_eq!(position_to_lo(21), (3, 21));
    assert_eq!(position_to_lo(84), (3, 21));
    assert_eq!(position_to_lo(85), (4, 85));
    assert_eq!(position_to_level(20), 2);
    assert_eq!(position_to_offset(20), 5);
}

#[test]
fn position_to_lo_handles_the_largest_position() {
    let (level, offset) = position_to_lo(usize::MAX);
    assert!(offset <= usize::MAX);
    assert_eq!(level_to_offset(level), offset);
    assert_eq!(relative_position(usize::MAX), usize::MAX - offset);
}

#[test]
fn relative_position_counts_from_the_segment_start() {
    assert_eq!(relative_position(0), 0);
    assert_eq!(relative_position(1), 0);
    assert_eq!(relative_position(4), 3);
    assert_eq!(relative_position(5), 0);
    assert_eq!(relative_position(20), 15);
    assert_eq!(relative_position(22), 1);
}

#[test]
fn position_round_trip() {
    for position in 0..2000usize {
        let (level, offset) = position_to_lo(position);
        assert_eq!(level_to_offset(level) + relative_position(position), position);
        assert_eq!(offset, level_to_offset(level));
        assert!(relative_position(position) < one_level_space(level));
    }
}

#[test]
fn upper_level_position_gives_the_parent() {
    assert_eq!(upper_level_position(1), 0);
    assert_eq!(upper_level_position(4), 0);
    assert_eq!(upper_level_position(5), 1);
    assert_eq!(upper_level_position(8), 1);
    assert_eq!(upper_level_position(9), 2);
    assert_eq!(upper_level_position(20), 4);
    assert_eq!(upper_level_position(21), 5);
    assert_eq!(upper_level_position(84), 20);
}

#[test]
fn parent_is_one_level_up_and_its_children_hold_the_node() {
    for position in 1..2000usize {
        let up = upper_level_position(position);
        assert_eq!(position_to_level(up) + 1, position_to_level(position));
        match lower_level_span(TexurePosition::Dot(up)) {
            TexurePosition::Span(a, b) => {
                assert!(a <= position && position < b);
                assert_eq!(b - a, 4);
            }
            TexurePosition::Dot(_) => panic!("a span was expected"),
        }
    }
}

#[test]
fn lower_level_span_of_a_node() {
    assert_eq!(lower_level_span(TexurePosition::Dot(0)), TexurePosition::Span(1, 5));
    assert_eq!(lower_level_span(TexurePosition::Dot(1)), TexurePosition::Span(5, 9));
    assert_eq!(lower_level_span(TexurePosition::Dot(4)), TexurePosition::Span(17, 21));
    assert_eq!(lower_level_span(TexurePosition::Dot(6)), TexurePosition::Span(25, 29));
}

#[test]
fn lower_level_span_of_a_span() {
    assert_eq!(lower_level_span(TexurePosition::Span(1, 5)), TexurePosition::Span(5, 21));
    assert_eq!(lower_level_span(TexurePosition::Span(5, 9)), TexurePosition::Span(21, 37));
    assert_eq!(lower_level_span(TexurePosition::Span(2, 3)), TexurePosition::Span(9, 13));
}

#[test]
fn leveled_position_of_the_root() {
    let (places, level) = leveled_position(0, 2);
    assert_eq!(level, 0);
    assert_eq!(
        places,
        vec![
            TexurePosition::Dot(0),
            TexurePosition::Span(1, 5),
            TexurePosition::Span(5, 21),
        ]
    );
}

#[test]
fn leveled_position_of_an_inner_node() {
    let (places, level) = leveled_position(6, 3);
    assert_eq!(level, 2);
    assert_eq!(
        places,
        vec![
            TexurePosition::Dot(0),
            TexurePosition::Dot(1),
            TexurePosition::Dot(6),
            TexurePosition::Span(25, 29),
        ]
    );
    let (places, level) = leveled_position(1, 3);
    assert_eq!(level, 1);
    assert_eq!(
        places,
        vec![
            TexurePosition::Dot(0),
            TexurePosition::Dot(1),
            TexurePosition::Span(5, 9),
            TexurePosition::Span(21, 37),
        ]
    );
}

#[test]
fn leveled_position_of_a_leaf_has_no_spans() {
    let (places, level) = leveled_position(20, 2);
    assert_eq!(level, 2);
    assert_eq!(
        places,
        vec![TexurePosition::Dot(0), TexurePosition::Dot(4), TexurePosition::Dot(20)]
    );
    let (places, level) = leveled_position(20, 1);
    assert_eq!(level, 2);
    assert_eq!(places.len(), 3);
}
