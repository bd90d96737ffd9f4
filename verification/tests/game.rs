use std::collections::{HashMap, HashSet};
use tetris_block::board::Board;
use tetris_block::catalog::ShapeCatalog;
use tetris_block::grid_vec::GridVec;
use tetris_block::movable_block::{BlockName, RotDir};
use tetris_block::skate_timer::{
    skate_timer_absent, skate_timer_present, step_lock_delay, LockDelay, SkateTimer, SKATE_DELAY,
};
use tetris_block::tuple_util::conv_tuples;
use tetris_block::{
    block_at, check_skate_timer, drop_to_rest, handle_block_user_movement, move_active_block_down, nudge,
    place_block, position_ghost_block, rand_block, rand_block_from, rotate_with_kicks,
    spawn_block, spawn_new_block, spawn_position, Intent,
};

#[test]
fn nudge_moves_only_where_the_piece_can_stand() {
    let catalog = ShapeCatalog::new();
    let board = Board::new(4, 4);
    let t = BlockName::T.create_movable((1, 1).into(), &catalog);
    let right = nudge(&board, &t, GridVec::new(1, 0)).unwrap();
    assert_eq!(right.root_position(), GridVec::new(2, 1));
    assert!(nudge(&board, &t, GridVec::new(-1, 0)).is_none());
    assert!(nudge(&board, &right, GridVec::new(1, 0)).is_none());
    assert!(nudge(&board, &t, GridVec::new(0, -1)).is_some());
    assert!(nudge(&board, &t, GridVec::new(0, -2)).is_none());
    let edge = BlockName::Test.create_movable((i32::MIN, 0).into(), &catalog);
    assert!(nudge(&board, &edge, GridVec::new(-1, 0)).is_none());
}

#[test]
fn sideways_intents() {
    let catalog = ShapeCatalog::new();
    let board = Board::new(4, 4);
    let t = BlockName::T.create_movable((1, 1).into(), &catalog);
    let (moved, place) = handle_block_user_movement(&board, &t, Intent::MoveRight);
    assert_eq!(moved.root_position(), GridVec::new(2, 1));
    assert!(!place);
    let (stays, place) = handle_block_user_movement(&board, &t, Intent::MoveLeft);
    assert_eq!(stays.root_position(), GridVec::new(1, 1));
    assert!(!place);
    let (back, _) = handle_block_user_movement(&board, &moved, Intent::MoveLeft);
    assert_eq!(back.root_position(), GridVec::new(1, 1));
}

#[test]
fn drops_go_down_to_the_obstruction() {
    let catalog = ShapeCatalog::new();
    let mut board = Board::new(4, 8);
    let t = BlockName::T.create_movable((1, 6).into(), &catalog);
    let (soft, place) = handle_block_user_movement(&board, &t, Intent::SoftDrop);
    assert_eq!(soft.root_position(), GridVec::new(1, 0));
    assert!(!place);
    let (hard, place) = handle_block_user_movement(&board, &t, Intent::HardDrop);
    assert_eq!(hard.root_position(), GridVec::new(1, 0));
    assert!(place);
    board.place_block(&BlockName::Test.create_movable((2, 2).into(), &catalog), &[1]);
    assert_eq!(drop_to_rest(&board, &t).root_position(), GridVec::new(1, 3));
    assert_eq!(position_ghost_block(&board, &t).root_position(), GridVec::new(1, 3));
    let rested = drop_to_rest(&board, &t);
    assert_eq!(drop_to_rest(&board, &rested).root_position(), GridVec::new(1, 3));
    assert_eq!(rested.rotation_state(), 0);
}

#[test]
fn gravity_pulls_one_cell_unless_paused_or_blocked() {
    let catalog = ShapeCatalog::new();
    let board = Board::new(4, 4);
    let t = BlockName::T.create_movable((1, 1).into(), &catalog);
    let down = move_active_block_down(false, &board, &t);
    assert_eq!(down.root_position(), GridVec::new(1, 0));
    assert_eq!(move_active_block_down(true, &board, &t).root_position(), GridVec::new(1, 1));
    assert_eq!(move_active_block_down(false, &board, &down).root_position(), GridVec::new(1, 0));
}

#[test]
fn plain_rotation_is_taken_where_it_fits() {
    let catalog = ShapeCatalog::new();
    let board = Board::new(5, 5);
    let t = BlockName::T.create_movable((2, 2).into(), &catalog);
    let turned = rotate_with_kicks(&board, &t, RotDir::Right);
    assert_eq!(turned.rotation_state(), 1);
    assert_eq!(turned.root_position(), GridVec::new(2, 2));
    let (by_intent, place) = handle_block_user_movement(&board, &t, Intent::RotateRight);
    assert_eq!(by_intent.positions(), turned.positions());
    assert!(!place);
    let (left, _) = handle_block_user_movement(&board, &t, Intent::RotateLeft);
    assert_eq!(left.rotation_state(), 3);
    assert_eq!(left.rot(), -1);
}

#[test]
fn rotation_takes_the_first_kick_that_fits() {
    let catalog = ShapeCatalog::new();
    let board = Board::new(5, 5);
    let t = BlockName::T.create_movable((1, 0).into(), &catalog);
    assert!(board.can_place(&t));
    let turned = rotate_with_kicks(&board, &t, RotDir::Right);
    assert_eq!(turned.rotation_state(), 1);
    assert_eq!(turned.root_position(), GridVec::new(0, 1));
    assert_eq!(turned.positions(), conv_tuples(&[(1, 1), (0, 2), (0, 1), (0, 0)]));
    assert!(board.can_place(&turned));
}

#[test]
fn rotation_is_rejected_where_no_kick_fits() {
    let catalog = ShapeCatalog::new();
    let board = Board::new(3, 2);
    let t = BlockName::T.create_movable((1, 0).into(), &catalog);
    assert!(board.can_place(&t));
    let same = rotate_with_kicks(&board, &t, RotDir::Right);
    assert_eq!(same.rotation_state(), 0);
    assert_eq!(same.rot(), 0);
    assert_eq!(same.root_position(), GridVec::new(1, 0));
    let (same, place) = handle_block_user_movement(&board, &t, Intent::RotateLeft);
    assert_eq!(same.rotation_state(), 0);
    assert_eq!(same.positions(), t.positions());
    assert!(!place);
}

#[test]
fn lock_delay_starts_runs_fires_and_is_absent_again() {
    let t = 100;
    let s = step_lock_delay(LockDelay::Absent, true, 10, t);
    assert_eq!(s, LockDelay::Absent);
    let s = step_lock_delay(s, false, 10, t);
    assert_eq!(s, LockDelay::Running(SkateTimer { elapsed: 0, threshold: 100 }));
    assert!(skate_timer_present(&s));
    assert!(!skate_timer_absent(&s));
    let s = step_lock_delay(s, false, 40, t);
    assert_eq!(s, LockDelay::Running(SkateTimer { elapsed: 40, threshold: 100 }));
    let s = step_lock_delay(s, false, 59, t);
    assert_eq!(s, LockDelay::Running(SkateTimer { elapsed: 99, threshold: 100 }));
    match s {
        LockDelay::Running(timer) => assert_eq!(timer.remaining(), 1),
        _ => panic!("the countdown should run"),
    }
    let s = step_lock_delay(s, false, 1, t);
    assert_eq!(s, LockDelay::Fired);
    assert!(!skate_timer_present(&s));
    assert!(skate_timer_absent(&s));
    let s = step_lock_delay(s, false, 1000, t);
    assert_eq!(s, LockDelay::Absent);
    assert!(skate_timer_absent(&s));
    let s = step_lock_delay(s, false, 1000, t);
    assert_eq!(s, LockDelay::Running(SkateTimer { elapsed: 0, threshold: 100 }));
}

#[test]
fn lock_delay_is_dropped_when_the_piece_can_move_down() {
    let running = LockDelay::Running(SkateTimer::new(100));
    assert_eq!(step_lock_delay(running, true, 1000, 100), LockDelay::Absent);
    assert_eq!(step_lock_delay(LockDelay::Fired, true, 0, 100), LockDelay::Absent);
}

#[test]
fn lock_delay_fires_on_a_tick_far_over_the_threshold() {
    let running = LockDelay::Running(SkateTimer { elapsed: 5, threshold: 10 });
    assert_eq!(step_lock_delay(running, false, u64::MAX, 10), LockDelay::Fired);
    let exact = LockDelay::Running(SkateTimer { elapsed: 5, threshold: 10 });
    assert_eq!(step_lock_delay(exact, false, 5, 10), LockDelay::Fired);
    assert_eq!(
        step_lock_delay(exact, false, 4, 10),
        LockDelay::Running(SkateTimer { elapsed: 9, threshold: 10 })
    );
    assert_eq!(SkateTimer { elapsed: 12, threshold: 10 }.remaining(), 0);
}

#[test]
fn check_skate_timer_goes_by_the_room_below_the_piece() {
    let catalog = ShapeCatalog::new();
    let board = Board::new(4, 4);
    let high = BlockName::T.create_movable((1, 2).into(), &catalog);
    let low = BlockName::T.create_movable((1, 0).into(), &catalog);
    assert_eq!(check_skate_timer(&board, &high, LockDelay::Absent, 5), LockDelay::Absent);
    let s = check_skate_timer(&board, &low, LockDelay::Absent, 5);
    assert_eq!(s, LockDelay::Running(SkateTimer { elapsed: 0, threshold: SKATE_DELAY }));
    let s = check_skate_timer(&board, &low, s, SKATE_DELAY - 1);
    assert_eq!(
        s,
        LockDelay::Running(SkateTimer { elapsed: SKATE_DELAY - 1, threshold: SKATE_DELAY })
    );
    assert_eq!(check_skate_timer(&board, &high, s, 1), LockDelay::Absent);
    assert_eq!(check_skate_timer(&board, &low, s, 1), LockDelay::Fired);
}

#[test]
fn place_block_bails_while_there_is_room_below() {
    let catalog = ShapeCatalog::new();
    let mut board = Board::new(4, 4);
    let high = BlockName::T.create_movable((1, 2).into(), &catalog);
    assert!(place_block(&mut board, &high, &[1, 2, 3, 4]).is_none());
    assert!(board.iter_ents().is_empty());
}

#[test]
fn place_block_writes_the_piece_and_clears_full_rows() {
    let catalog = ShapeCatalog::new();
    let mut board = Board::new(4, 4);
    let dot = BlockName::Test.create_movable((3, 0).into(), &catalog);
    let (cleared, moved) = place_block(&mut board, &dot, &[9]).unwrap();
    assert!(cleared.is_empty());
    assert!(moved.is_empty());
    assert_eq!(board.iter_ents(), vec![(GridVec::new(3, 0), 9)]);
    let t = BlockName::T.create_movable((1, 0).into(), &catalog);
    let (cleared, moved) = place_block(&mut board, &t, &[1, 2, 3, 4]).unwrap();
    assert_eq!(cleared, HashSet::from([2, 3, 4, 9]));
    assert_eq!(moved, HashMap::from([(1, GridVec::new(1, 0))]));
    assert_eq!(board.iter_ents(), vec![(GridVec::new(1, 0), 1)]);
}

#[test]
fn spawning_and_game_over() {
    let catalog = ShapeCatalog::new();
    let mut board = Board::new(8, 12);
    assert_eq!(spawn_position(&board), GridVec::new(4, 9));
    let piece = spawn_block(&board, &catalog, BlockName::L).unwrap();
    assert_eq!(piece.root_position(), GridVec::new(4, 9));
    assert_eq!(piece.rotation_state(), 0);
    assert_eq!(piece.positions(), conv_tuples(&[(5, 10), (3, 9), (4, 9), (5, 9)]));
    board.place_block(&BlockName::Test.create_movable((4, 9).into(), &catalog), &[1]);
    assert!(spawn_block(&board, &catalog, BlockName::L).is_none());
    assert!(spawn_block(&board, &catalog, BlockName::Test).is_none());
    for _ in 0..20 {
        let (name, piece) = spawn_new_block(&board, &catalog);
        assert_ne!(name, BlockName::Test);
        assert!(piece.is_none());
    }
    let small = Board::new(2, 2);
    assert_eq!(spawn_position(&small), GridVec::new(1, -1));
    assert!(spawn_block(&small, &catalog, BlockName::Test).is_none());
}

#[test]
fn spawn_new_block_gives_a_playable_piece_at_the_spawn_position() {
    let catalog = ShapeCatalog::new();
    let board = Board::new(8, 12);
    for _ in 0..50 {
        let (name, piece) = spawn_new_block(&board, &catalog);
        assert_ne!(name, BlockName::Test);
        let piece = piece.unwrap();
        assert_eq!(piece.root_position(), GridVec::new(4, 9));
        assert_eq!(
            piece.relative_positions(),
            catalog.definition(name).rotations[0].clone()
        );
    }
}

#[test]
fn random_choice_stays_within_the_choices() {
    for _ in 0..200 {
        assert_eq!(rand_block_from(&[BlockName::S]), BlockName::S);
        let two = rand_block_from(&[BlockName::O, BlockName::Test]);
        assert!(two == BlockName::O || two == BlockName::Test);
        assert_ne!(rand_block(), BlockName::Test);
    }
    let mut seen = HashSet::new();
    for _ in 0..2000 {
        seen.insert(format!("{:?}", rand_block()));
    }
    assert_eq!(seen.len(), 7);
}

#[test]
fn block_at_picks_by_index() {
    let choices = [BlockName::T, BlockName::O, BlockName::I];
    assert_eq!(block_at(&choices, 0), BlockName::T);
    assert_eq!(block_at(&choices, 1), BlockName::O);
    assert_eq!(block_at(&choices, 2), BlockName::I);
}
