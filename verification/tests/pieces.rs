use tetris_block::catalog::ShapeCatalog;
use tetris_block::grid_vec::GridVec;
use tetris_block::movable_block::{BlockName, MovableBlock, RotDir};
use tetris_block::tuple_util::conv_tuples;

#[test]
fn new_piece_starts_unturned_at_its_anchor() {
    let catalog = ShapeCatalog::new();
    let block = BlockName::T.create_movable((4, 9).into(), &catalog);
    assert_eq!(block.root_position(), GridVec::new(4, 9));
    assert_eq!(block.rotation_state(), 0);
    assert_eq!(block.rot(), 0);
    assert!(!block.around_corner());
    assert_eq!(block.positions(), conv_tuples(&[(4, 10), (3, 9), (4, 9), (5, 9)]));
    assert_eq!(block.relative_positions(), conv_tuples(&[(0, 1), (-1, 0), (0, 0), (1, 0)]));
    let direct = MovableBlock::new(GridVec::new(4, 9), catalog.definition(BlockName::T));
    assert_eq!(direct.positions(), block.positions());
}

#[test]
fn catalog_holds_the_base_state_of_every_shape() {
    let catalog = ShapeCatalog::new();
    let expect: [(BlockName, &[(i32, i32)], usize, bool); 8] = [
        (BlockName::L, &[(1, 1), (-1, 0), (0, 0), (1, 0)], 4, false),
        (BlockName::J, &[(-1, 1), (-1, 0), (0, 0), (1, 0)], 4, false),
        (BlockName::O, &[(0, 1), (1, 1), (0, 0), (1, 0)], 1, false),
        (BlockName::I, &[(-2, 0), (-1, 0), (0, 0), (1, 0)], 4, true),
        (BlockName::T, &[(0, 1), (-1, 0), (0, 0), (1, 0)], 4, false),
        (BlockName::S, &[(0, 1), (1, 1), (-1, 0), (0, 0)], 4, false),
        (BlockName::Z, &[(-1, 1), (0, 1), (0, 0), (1, 0)], 4, false),
        (BlockName::Test, &[(0, 0)], 1, false),
    ];
    for (name, base, count, corner) in expect {
        let def = catalog.definition(name);
        assert_eq!(def.rotations.len(), count);
        assert_eq!(def.rotations[0], conv_tuples(base));
        assert_eq!(def.kicks.right.len(), count);
        assert_eq!(def.kicks.left.len(), count);
        assert_eq!(def.around_corner, corner);
        for list in def.kicks.right.iter().chain(def.kicks.left.iter()) {
            assert_eq!(list[0], GridVec::new(0, 0));
        }
        for state in def.rotations.iter() {
            assert_eq!(state.len(), base.len());
        }
    }
}

#[test]
fn catalog_kick_tables() {
    let catalog = ShapeCatalog::new();
    let t = catalog.definition(BlockName::T);
    assert_eq!(t.kicks.right[0], conv_tuples(&[(0, 0), (-1, 0), (-1, 1), (0, -2), (-1, -2)]));
    assert_eq!(t.kicks.right[3], conv_tuples(&[(0, 0), (-1, 0), (-1, -1), (0, 2), (-1, 2)]));
    assert_eq!(t.kicks.left[0], conv_tuples(&[(0, 0), (1, 0), (1, 1), (0, -2), (1, -2)]));
    assert_eq!(t.kicks.left[2], conv_tuples(&[(0, 0), (-1, 0), (-1, 1), (0, -2), (-1, -2)]));
    let i = catalog.definition(BlockName::I);
    assert_eq!(i.kicks.right[0], conv_tuples(&[(0, 0), (-2, 0), (1, 0), (-2, -1), (1, 2)]));
    assert_eq!(i.kicks.left[3], conv_tuples(&[(0, 0), (-2, 0), (1, 0), (-2, -1), (1, 2)]));
    let o = catalog.definition(BlockName::O);
    assert_eq!(o.kicks.right, vec![conv_tuples(&[(0, 0)])]);
    assert_eq!(o.kicks.left, vec![conv_tuples(&[(0, 0)])]);
}

#[test]
fn move_relative_shifts_the_anchor_only() {
    let catalog = ShapeCatalog::new();
    let block = BlockName::L.create_movable((2, 3).into(), &catalog);
    let moved = block.move_relative((-1, 4).into());
    assert_eq!(moved.root_position(), GridVec::new(1, 7));
    assert_eq!(moved.rotation_state(), 0);
    assert_eq!(moved.rot(), 0);
    assert_eq!(moved.relative_positions(), block.relative_positions());
    assert_eq!(block.root_position(), GridVec::new(2, 3));
    assert_eq!(moved.positions(), conv_tuples(&[(2, 8), (0, 7), (1, 7), (2, 7)]));
}

#[test]
fn checked_move_relative_refuses_an_anchor_out_of_range() {
    let catalog = ShapeCatalog::new();
    let block = BlockName::Test.create_movable((i32::MAX, 0).into(), &catalog);
    assert!(block.checked_move_relative((1, 0).into()).is_none());
    let moved = block.checked_move_relative((-1, 2).into()).unwrap();
    assert_eq!(moved.root_position(), GridVec::new(i32::MAX - 1, 2));
}

#[test]
fn rotate_steps_the_state_and_hands_out_the_kicks() {
    let catalog = ShapeCatalog::new();
    let block = BlockName::T.create_movable((4, 4).into(), &catalog);
    let (right, kicks) = block.rotate(RotDir::Right);
    assert_eq!(right.rotation_state(), 1);
    assert_eq!(right.rot(), 1);
    assert_eq!(right.root_position(), GridVec::new(4, 4));
    assert_eq!(kicks.to_vec(), conv_tuples(&[(0, 0), (-1, 0), (-1, 1), (0, -2), (-1, -2)]));
    assert_eq!(right.positions(), conv_tuples(&[(5, 4), (4, 5), (4, 4), (4, 3)]));
    let (left, kicks) = block.rotate(RotDir::Left);
    assert_eq!(left.rotation_state(), 3);
    assert_eq!(left.rot(), -1);
    assert_eq!(kicks.to_vec(), conv_tuples(&[(0, 0), (1, 0), (1, 1), (0, -2), (1, -2)]));
    assert_eq!(block.rotation_state(), 0);
    assert_eq!(block.rot(), 0);
    let (from_one, kicks) = right.rotate(RotDir::Right);
    assert_eq!(from_one.rotation_state(), 2);
    assert_eq!(kicks.to_vec(), conv_tuples(&[(0, 0), (1, 0), (1, -1), (0, 2), (1, 2)]));
}

#[test]
fn rotate_wraps_around_the_last_state() {
    let catalog = ShapeCatalog::new();
    let mut block = BlockName::J.create_movable((0, 0).into(), &catalog);
    for expected in [1usize, 2, 3, 0, 1] {
        block = block.rotate(RotDir::Right).0;
        assert_eq!(block.rotation_state(), expected);
    }
    assert_eq!(block.rot(), 5);
    let square = BlockName::O.create_movable((0, 0).into(), &catalog);
    let (turned, kicks) = square.rotate(RotDir::Left);
    assert_eq!(turned.rotation_state(), 0);
    assert_eq!(turned.rot(), -1);
    assert_eq!(kicks.to_vec(), conv_tuples(&[(0, 0)]));
    assert_eq!(turned.positions(), square.positions());
}

#[test]
fn a_turn_and_the_turn_back_restore_the_rotation_state() {
    let catalog = ShapeCatalog::new();
    for name in [BlockName::L, BlockName::I, BlockName::O, BlockName::Z, BlockName::Test] {
        let mut block = name.create_movable((3, 3).into(), &catalog);
        for _ in 0..6 {
            for dir in [RotDir::Left, RotDir::Right] {
                let back = match dir {
                    RotDir::Left => RotDir::Right,
                    RotDir::Right => RotDir::Left,
                };
                let there = block.rotate(dir).0;
                let again = there.rotate(back).0;
                assert_eq!(again.rotation_state(), block.rotation_state());
                assert_eq!(again.rot(), block.rot());
                assert_eq!(again.positions(), block.positions());
            }
            block = block.rotate(RotDir::Right).0;
        }
    }
}

#[test]
fn bar_piece_after_one_turn_to_the_right() {
    let catalog = ShapeCatalog::new();
    let bar = BlockName::I.create_movable((0, 0).into(), &catalog);
    assert!(bar.around_corner());
    assert_eq!(bar.relative_positions(), conv_tuples(&[(-2, 0), (-1, 0), (0, 0), (1, 0)]));
    let turned = bar.rotate(RotDir::Right).0;
    assert_eq!(turned.relative_positions(), conv_tuples(&[(0, 1), (0, 0), (0, -1), (0, -2)]));
}
