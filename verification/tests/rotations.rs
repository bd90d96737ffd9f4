use tetris_block::block_definition::{build_rotations, BlockDefinition, LRKicks};
use tetris_block::grid_vec::GridVec;
use tetris_block::tuple_util::conv_tuples;

fn conv_tuples_2(list: &[&[(i32, i32)]]) -> Vec<Vec<GridVec>> {
    list.iter().map(|&l| conv_tuples(l)).collect()
}

#[test]
fn block_shape_test_build_rotations() {
    let rots = build_rotations(1, false, &[(0, 0), (1, 0), (2, 0)]);
    assert_eq!(rots, conv_tuples_2(&[&[(0, 0), (1, 0), (2, 0)]]));

    let rots = build_rotations(2, false, &[(0, 0), (1, 0), (2, 0)]);
    assert_eq!(
        rots,
        conv_tuples_2(&[&[(0, 0), (1, 0), (2, 0)], &[(0, 0), (0, -1), (0, -2)]])
    );

    let rots = build_rotations(2, false, &[(0, 0)]);
    assert_eq!(rots, conv_tuples_2(&[&[(0, 0)], &[(0, 0)]]));

    let rots = build_rotations(4, true, &[(0, 0)]);
    assert_eq!(
        rots,
        conv_tuples_2(&[&[(0, 0)], &[(0, -1)], &[(-1, -1)], &[(-1, 0)]])
    );
}

#[test]
fn movable_block_test_build_rotations() {
    let rots = build_rotations(1, false, &[(0, 0), (1, 0), (2, 0)]);
    assert_eq!(rots, conv_tuples_2(&[&[(0, 0), (1, 0), (2, 0)]]));

    let rots = build_rotations(2, false, &[(0, 0), (1, 0), (2, 0)]);
    assert_eq!(
        rots,
        conv_tuples_2(&[&[(0, 0), (1, 0), (2, 0)], &[(0, 0), (0, -1), (0, -2)]])
    );

    let rots = build_rotations(2, true, &[(0, 0), (1, 0), (2, 0)]);
    assert_eq!(
        rots,
        conv_tuples_2(&[&[(0, 0), (1, 0), (2, 0)], &[(0, -1), (0, -2), (0, -3)]])
    );

    let rots = build_rotations(2, false, &[(0, 0)]);
    assert_eq!(rots, conv_tuples_2(&[&[(0, 0)], &[(0, 0)]]));

    let rots = build_rotations(4, true, &[(0, 0)]);
    assert_eq!(
        rots,
        conv_tuples_2(&[&[(0, 0)], &[(0, -1)], &[(-1, -1)], &[(-1, 0)]])
    );
}

#[test]
fn conv_tuples_keeps_order_and_components() {
    let v = conv_tuples(&[(3, -4), (0, 7)]);
    assert_eq!(v, vec![GridVec::new(3, -4), GridVec::new(0, 7)]);
    assert!(conv_tuples(&[]).is_empty());
}

#[test]
fn grid_vec_from_tuple_and_sums() {
    let v: GridVec = (3, -4).into();
    assert_eq!(v, GridVec::new(3, -4));
    assert_eq!(v.plus(GridVec::new(-1, 10)), GridVec::new(2, 6));
    assert_eq!(v.checked_plus(GridVec::new(1, 1)), Some(GridVec::new(4, -3)));
    assert_eq!(GridVec::new(i32::MAX, 0).checked_plus(GridVec::new(1, 0)), None);
    assert_eq!(GridVec::new(0, i32::MIN).checked_plus(GridVec::new(0, -1)), None);
}

#[test]
fn bar_turns_about_its_corner() {
    let rots = build_rotations(4, true, &[(-2, 0), (-1, 0), (0, 0), (1, 0)]);
    assert_eq!(rots.len(), 4);
    assert_eq!(rots[0], conv_tuples(&[(-2, 0), (-1, 0), (0, 0), (1, 0)]));
    assert_eq!(rots[1], conv_tuples(&[(0, 1), (0, 0), (0, -1), (0, -2)]));
    assert_eq!(rots[2], conv_tuples(&[(1, -1), (0, -1), (-1, -1), (-2, -1)]));
    assert_eq!(rots[3], conv_tuples(&[(-1, -2), (-1, -1), (-1, 0), (-1, 1)]));
}

#[test]
fn centre_turn_maps_x_y_to_y_minus_x() {
    let rots = build_rotations(4, false, &[(1, 1), (-1, 0), (0, 0), (1, 0)]);
    assert_eq!(rots[1], conv_tuples(&[(1, -1), (0, 1), (0, 0), (0, -1)]));
    assert_eq!(rots[2], conv_tuples(&[(-1, -1), (1, 0), (0, 0), (-1, 0)]));
    assert_eq!(rots[3], conv_tuples(&[(-1, 1), (0, -1), (0, 0), (0, 1)]));
}

#[test]
fn four_turns_close_the_cycle() {
    for around_corner in [false, true] {
        let base = [(1, 1), (-1, 0), (0, 0), (1, 0), (-7, 12)];
        let rots = build_rotations(9, around_corner, &base);
        assert_eq!(rots.len(), 9);
        assert_eq!(rots[4], rots[0]);
        assert_eq!(rots[5], rots[1]);
        assert_eq!(rots[8], rots[0]);
        assert_ne!(rots[1], rots[0]);
    }
}

#[test]
fn a_single_state_is_the_base_unturned() {
    let rots = build_rotations(1, true, &[(0, 1), (1, 1), (0, 0), (1, 0)]);
    assert_eq!(rots, conv_tuples_2(&[&[(0, 1), (1, 1), (0, 0), (1, 0)]]));
}

#[test]
fn turns_near_the_limits_of_the_range() {
    let rots = build_rotations(2, false, &[(i32::MAX, i32::MIN)]);
    assert_eq!(rots[1], conv_tuples(&[(i32::MIN, -i32::MAX)]));
    let rots = build_rotations(2, true, &[(0x3fff_ffff, -0x4000_0000)]);
    assert_eq!(rots[1], conv_tuples(&[(-0x4000_0000, -0x4000_0000)]));
}

#[test]
fn kick_tables_begin_with_the_zero_offset() {
    let kicks = LRKicks::new(&[&[(-1, 0), (-1, 1)], &[(1, 0), (1, -1)]], &[&[(2, 0)], &[(3, 0)]]);
    assert_eq!(
        kicks.right,
        conv_tuples_2(&[&[(0, 0), (-1, 0), (-1, 1)], &[(0, 0), (1, 0), (1, -1)]])
    );
    assert_eq!(kicks.left, conv_tuples_2(&[&[(0, 0), (2, 0)], &[(0, 0), (3, 0)]]));
    let none = LRKicks::new(&[&[]], &[&[]]);
    assert_eq!(none.right, conv_tuples_2(&[&[(0, 0)]]));
    assert_eq!(none.left, conv_tuples_2(&[&[(0, 0)]]));
}

#[test]
fn definition_from_base_holds_states_and_kicks() {
    let kicks = LRKicks::new(&[&[(1, 0)], &[(2, 0)]], &[&[(-1, 0)], &[(-2, 0)]]);
    let def = BlockDefinition::from_base(2, false, &[(0, 0), (1, 0)], kicks);
    assert_eq!(def.rotations, conv_tuples_2(&[&[(0, 0), (1, 0)], &[(0, 0), (0, -1)]]));
    assert_eq!(def.kicks.right, conv_tuples_2(&[&[(0, 0), (1, 0)], &[(0, 0), (2, 0)]]));
    assert_eq!(def.kicks.left, conv_tuples_2(&[&[(0, 0), (-1, 0)], &[(0, 0), (-2, 0)]]));
    assert!(!def.around_corner);
    let same = BlockDefinition::new(
        conv_tuples_2(&[&[(0, 0), (1, 0)], &[(0, 0), (0, -1)]]),
        LRKicks::new(&[&[(1, 0)], &[(2, 0)]], &[&[(-1, 0)], &[(-2, 0)]]),
        true,
    );
    assert_eq!(same.rotations, def.rotations);
    assert!(same.around_corner);
}
