use std::collections::{HashMap, HashSet};
use tetris_block::block_definition::{BlockDefinition, LRKicks};
use tetris_block::board::Board;
use tetris_block::catalog::ShapeCatalog;
use tetris_block::grid_vec::GridVec;
use tetris_block::movable_block::{BlockName, MovableBlock};

fn row_piece(width: usize) -> BlockDefinition {
    let base: Vec<(i32, i32)> = (0..width as i32).map(|x| (x, 0)).collect();
    BlockDefinition::from_base(1, false, &base, LRKicks::new(&[&[]], &[&[]]))
}

fn fill_row(board: &mut Board, def: &BlockDefinition, y: i32, first: u64) {
    let piece = MovableBlock::new(GridVec::new(0, y), def);
    assert!(board.can_place(&piece));
    let ents: Vec<u64> = (0..def.rotations[0].len() as u64).map(|k| first + k).collect();
    board.place_block(&piece, &ents);
}

#[test]
fn board_test() {
    let catalog = ShapeCatalog::new();
    let board = Board::new(3, 3);
    assert!(!board.is_occupied((0, 0).into()));
    assert!(board.is_occupied((-1, 0).into()));

    let block = BlockName::Test.create_movable((0, 0).into(), &catalog);
    assert!(board.can_place(&block));
    assert!(board.can_place(&block.move_relative((1, 1).into())));
    assert!(!board.can_place(&block.move_relative((-1, 0).into())));
    assert!(!board.can_place(&block.move_relative((3, 0).into())));
}

#[test]
fn new_board_is_empty() {
    let board = Board::new(4, 2);
    assert_eq!(board.width(), 4);
    assert_eq!(board.height(), 2);
    for y in 0..2 {
        for x in 0..4 {
            assert_eq!(board.cell(GridVec::new(x, y)), None);
            assert!(!board.is_occupied(GridVec::new(x, y)));
        }
        assert!(!board.is_row_full(y as usize));
    }
    assert!(board.iter_ents().is_empty());
}

#[test]
fn off_board_is_always_occupied() {
    let catalog = ShapeCatalog::new();
    let board = Board::new(3, 4);
    for loc in [(-1, 0), (3, 0), (0, -1), (0, 4), (i32::MIN, 0), (0, i32::MAX)] {
        assert!(board.is_occupied(loc.into()));
        let dot = BlockName::Test.create_movable(loc.into(), &catalog);
        assert!(!board.can_place(&dot));
    }
    let t = BlockName::T.create_movable((0, 0).into(), &catalog);
    assert!(!board.can_place(&t));
    let t = BlockName::T.create_movable((1, 3).into(), &catalog);
    assert!(!board.can_place(&t));
    let t = BlockName::T.create_movable((1, 2).into(), &catalog);
    assert!(board.can_place(&t));
    let far = BlockName::T.create_movable((i32::MAX, i32::MAX).into(), &catalog);
    assert!(!board.can_place(&far));
}

#[test]
fn placed_piece_occupies_its_cells() {
    let catalog = ShapeCatalog::new();
    let mut board = Board::new(4, 4);
    let t = BlockName::T.create_movable((1, 0).into(), &catalog);
    assert!(board.can_place(&t));
    board.place_block(&t, &[10, 11, 12, 13]);
    assert!(!board.can_place(&t));
    assert_eq!(board.cell(GridVec::new(1, 1)), Some(10));
    assert_eq!(board.cell(GridVec::new(0, 0)), Some(11));
    assert_eq!(board.cell(GridVec::new(1, 0)), Some(12));
    assert_eq!(board.cell(GridVec::new(2, 0)), Some(13));
    assert_eq!(board.cell(GridVec::new(3, 0)), None);
    assert_eq!(board.cell(GridVec::new(0, 1)), None);
    assert_eq!(
        board.iter_ents(),
        vec![
            (GridVec::new(0, 0), 11),
            (GridVec::new(1, 0), 12),
            (GridVec::new(2, 0), 13),
            (GridVec::new(1, 1), 10),
        ]
    );
    let dot = BlockName::Test.create_movable((3, 0).into(), &catalog);
    assert!(board.can_place(&dot));
    let dot = BlockName::Test.create_movable((2, 0).into(), &catalog);
    assert!(!board.can_place(&dot));
    assert!(!board.is_row_full(0));
    board.place_block(&BlockName::Test.create_movable((3, 0).into(), &catalog), &[14]);
    assert!(board.is_row_full(0));
    assert!(!board.is_row_full(1));
}

#[test]
fn cell_mut_reads_and_writes_one_cell() {
    let mut board = Board::new(2, 2);
    assert_eq!(*board.cell_mut(GridVec::new(1, 1)), None);
    *board.cell_mut(GridVec::new(1, 1)) = Some(9);
    assert_eq!(board.cell(GridVec::new(1, 1)), Some(9));
    assert_eq!(board.cell(GridVec::new(0, 1)), None);
    assert_eq!(board.cell(GridVec::new(1, 0)), None);
    assert_eq!(board.cell_mut(GridVec::new(1, 1)).take(), Some(9));
    assert!(board.iter_ents().is_empty());
}

#[test]
fn clearing_an_empty_board_reports_nothing() {
    for (w, h) in [(3usize, 3usize), (1, 1), (8, 12), (0, 3), (3, 0)] {
        let mut board = Board::new(w, h);
        let (cleared, moved) = board.clear_filled_lines();
        assert!(cleared.is_empty());
        assert!(moved.is_empty());
        assert!(board.iter_ents().is_empty());
    }
}

#[test]
fn clearing_the_bottom_row_with_nothing_above() {
    let mut board = Board::new(3, 3);
    let row = row_piece(3);
    fill_row(&mut board, &row, 0, 1);
    assert!(board.is_row_full(0));
    let (cleared, moved) = board.clear_filled_lines();
    assert_eq!(cleared, HashSet::from([1, 2, 3]));
    assert!(moved.is_empty());
    assert!(board.iter_ents().is_empty());
}

#[test]
fn clearing_the_bottom_row_moves_the_cell_above_down() {
    let catalog = ShapeCatalog::new();
    let mut board = Board::new(3, 3);
    let row = row_piece(3);
    fill_row(&mut board, &row, 0, 1);
    board.place_block(&BlockName::Test.create_movable((0, 1).into(), &catalog), &[7]);
    let (cleared, moved) = board.clear_filled_lines();
    assert_eq!(cleared, HashSet::from([1, 2, 3]));
    assert_eq!(moved, HashMap::from([(7, GridVec::new(0, 0))]));
    assert_eq!(board.iter_ents(), vec![(GridVec::new(0, 0), 7)]);
}

#[test]
fn clearing_several_rows_composes_the_shifts() {
    let catalog = ShapeCatalog::new();
    let mut board = Board::new(2, 6);
    let row = row_piece(2);
    let dot = |x: i32, y: i32| BlockName::Test.create_movable((x, y).into(), &catalog);
    board.place_block(&dot(0, 0), &[100]);
    fill_row(&mut board, &row, 1, 10);
    board.place_block(&dot(1, 2), &[101]);
    fill_row(&mut board, &row, 3, 20);
    fill_row(&mut board, &row, 4, 30);
    board.place_block(&dot(0, 5), &[102]);
    let (cleared, moved) = board.clear_filled_lines();
    assert_eq!(cleared, HashSet::from([10, 11, 20, 21, 30, 31]));
    assert_eq!(
        moved,
        HashMap::from([(101, GridVec::new(1, 1)), (102, GridVec::new(0, 2))])
    );
    assert_eq!(
        board.iter_ents(),
        vec![
            (GridVec::new(0, 0), 100),
            (GridVec::new(1, 1), 101),
            (GridVec::new(0, 2), 102),
        ]
    );
    for y in 0..6 {
        assert!(!board.is_row_full(y));
    }
}

#[test]
fn clearing_the_top_row_moves_nothing() {
    let catalog = ShapeCatalog::new();
    let mut board = Board::new(2, 2);
    let row = row_piece(2);
    board.place_block(&BlockName::Test.create_movable((1, 0).into(), &catalog), &[5]);
    fill_row(&mut board, &row, 1, 1);
    let (cleared, moved) = board.clear_filled_lines();
    assert_eq!(cleared, HashSet::from([1, 2]));
    assert!(moved.is_empty());
    assert_eq!(board.iter_ents(), vec![(GridVec::new(1, 0), 5)]);
}

#[test]
fn clearing_without_a_full_row_changes_nothing() {
    let catalog = ShapeCatalog::new();
    let mut board = Board::new(3, 3);
    board.place_block(&BlockName::T.create_movable((1, 0).into(), &catalog), &[1, 2, 3, 4]);
    board.place_block(&BlockName::Test.create_movable((0, 2).into(), &catalog), &[5]);
    let before = board.iter_ents();
    assert!(board.is_row_full(0));
    *board.cell_mut(GridVec::new(2, 0)) = None;
    let (cleared, moved) = board.clear_filled_lines();
    assert!(cleared.is_empty());
    assert!(moved.is_empty());
    let after = board.iter_ents();
    assert_eq!(after.len() + 1, before.len());
    assert_eq!(board.cell(GridVec::new(0, 2)), Some(5));
}

#[test]
fn an_occupant_in_two_cells_is_reported_where_it_stands_last() {
    let catalog = ShapeCatalog::new();
    let mut board = Board::new(2, 4);
    let row = row_piece(2);
    fill_row(&mut board, &row, 0, 1);
    let dot = |x: i32, y: i32| BlockName::Test.create_movable((x, y).into(), &catalog);
    board.place_block(&dot(1, 1), &[9]);
    board.place_block(&dot(0, 2), &[9]);
    let (cleared, moved) = board.clear_filled_lines();
    assert_eq!(cleared, HashSet::from([1, 2]));
    assert_eq!(moved, HashMap::from([(9, GridVec::new(0, 1))]));
}

#[test]
fn board_state_test() {
    let catalog = ShapeCatalog::new();
    let board = Board::new(3, 3);
    assert!(!board.is_occupied((0, 0).into()));
    assert!(board.is_occupied((-1, 0).into()));

    let test_movable_block = BlockName::Test.create_movable((0, 0).into(), &catalog);
    let block = test_movable_block.move_relative((1, 1).into());
    assert!(board.can_place(&block));
}
