use vstd::prelude::*;
use std::collections::{HashMap, HashSet};
use crate::board::{
    Board, Rows, all_free, cleared_occupants, compacted, first_full_row, placed, relocations,
};
use crate::catalog::ShapeCatalog;
use crate::grid_vec::{GridVec, cells_of, representable, vec_sum};
use crate::movable_block::{BlockName, MovableBlock, RotDir, spawned_cells, turn_step};
use crate::skate_timer::{LockDelay, SKATE_DELAY, next_lock_delay, step_lock_delay};

pub mod block_definition;
pub mod board;
pub mod catalog;
pub mod game;
pub mod grid_vec;
pub mod movable_block;
pub mod skate_timer;
pub mod tuple_util;

verus! {

/// What the player asks of the falling piece.
#[derive(Clone, Copy, Debug, PartialEq, Eq, Structural)]
pub enum Intent {
    MoveLeft,
    MoveRight,
    SoftDrop,
    HardDrop,
    RotateLeft,
    RotateRight,
}

/// Whether the piece, moved by `by`, can stand on the board: its moved anchor
/// can be represented and every cell that it then covers is free.
pub open spec fn can_stand(rows: Rows, piece: MovableBlock, by: (int, int)) -> bool {
    representable(vec_sum(piece.anchor()@, by)) && all_free(rows, piece.shifted(by).cells())
}

/// The piece moved by `by` where it can stand there, and nothing where it
/// cannot.
pub open spec fn nudged<'a>(rows: Rows, piece: MovableBlock<'a>, by: (int, int)) -> Option<
    MovableBlock<'a>,
> {
    if can_stand(rows, piece, by) {
        Some(piece.shifted(by))
    } else {
        None
    }
}

/// Whether the piece can go down `k` cells one after the other and no
/// further.
pub open spec fn rests_after(rows: Rows, piece: MovableBlock, k: nat) -> bool {
    &&& forall|j: int| 1 <= j <= k ==> #[trigger] can_stand(rows, piece, (0, -j))
    &&& !can_stand(rows, piece, (0, -(k + 1)))
}

/// Whether `result` is the piece let down as far as it goes.
pub open spec fn dropped(rows: Rows, piece: MovableBlock, result: MovableBlock) -> bool {
    exists|k: nat| #[trigger] rests_after(rows, piece, k) && result == piece.shifted((0, -(k as int)))
}

/// Whether `result` is what a turn in direction `dir` makes of the piece: the
/// turned piece moved by the first kick candidate with which it can stand, or
/// the piece as it was where it can stand with none.
pub open spec fn kicked(rows: Rows, piece: MovableBlock, dir: RotDir, result: MovableBlock) -> bool {
    let turned = piece.turned(dir);
    let kicks = piece.shape().kicks.candidates(dir, piece.rotation_index());
    ||| exists|i: int|
        {
            &&& 0 <= i < kicks.len()
            &&& #[trigger] can_stand(rows, turned, kicks[i])
            &&& forall|j: int| 0 <= j < i ==> !#[trigger] can_stand(rows, turned, kicks[j])
            &&& result == turned.shifted(kicks[i])
        }
    ||| {
        &&& forall|i: int| 0 <= i < kicks.len() ==> !#[trigger] can_stand(rows, turned, kicks[i])
        &&& result == piece
    }
}

/// Whether `result` and `place` are what `intent` makes of the piece. A move
/// to the side is taken where the piece can stand there. A soft drop lets the
/// piece down as far as it goes; a hard drop does the same and asks for the
/// placement to be made final. A turn resolves its kicks.
pub open spec fn intent_outcome(
    rows: Rows,
    piece: MovableBlock,
    intent: Intent,
    result: MovableBlock,
    place: bool,
) -> bool {
    match intent {
        Intent::MoveLeft => !place && result == (match nudged(rows, piece, (-1, 0)) {
            Some(p) => p,
            None => piece,
        }),
        Intent::MoveRight => !place && result == (match nudged(rows, piece, (1, 0)) {
            Some(p) => p,
            None => piece,
        }),
        Intent::SoftDrop => !place && dropped(rows, piece, result),
        Intent::HardDrop => place && dropped(rows, piece, result),
        Intent::RotateLeft => !place && kicked(rows, piece, RotDir::Left, result),
        Intent::RotateRight => !place && kicked(rows, piece, RotDir::Right, result),
    }
}

/// The turn that an intent asks for, if it asks for one.
pub open spec fn turn_of(intent: Intent) -> Option<RotDir> {
    match intent {
        Intent::RotateLeft => Some(RotDir::Left),
        Intent::RotateRight => Some(RotDir::Right),
        _ => None,
    }
}

/// The piece moved by `by`, where it can stand there.
pub fn nudge<'a>(board: &Board, movable: &MovableBlock<'a>, by: GridVec) -> (ret: Option<
    MovableBlock<'a>,
>)
    requires
        board.wf(),
        movable.wf(),
    ensures
        ret == nudged(board@, *movable, by@),
        ret.is_some() ==> ret.unwrap().wf(),
{
    match movable.checked_move_relative(by) {
        Some(moved) => {
            if board.can_place(&moved) {
                Some(moved)
            } else {
                None
            }
        },
        None => None,
    }
}

/// Lets the piece down, cell by cell, until it cannot go further.
pub fn drop_to_rest<'a>(board: &Board, movable: &MovableBlock<'a>) -> (ret: MovableBlock<'a>)
    requires
        board.wf(),
        movable.wf(),
    ensures
        ret.wf(),
        dropped(board@, *movable, ret),
{
    let mut cur: MovableBlock<'a> = *movable;
    let mut resting = false;
    let ghost k: nat = 0;
    proof {
        movable.lemma_shifted_twice((0, 0), (0, 0));
    }
    while !resting
        invariant
            board.wf(),
            movable.wf(),
            cur.wf(),
            representable(vec_sum(movable.anchor()@, (0, -(k as int)))),
            cur == movable.shifted((0, -(k as int))),
            forall|j: int| 1 <= j <= k ==> #[trigger] can_stand(board@, *movable, (0, -j)),
            resting ==> !can_stand(board@, *movable, (0, -(k + 1))),
        decreases
                (if resting {
                    0int
                } else {
                    1int
                }),
                cur.anchor().y - i32::MIN,
    {
        let ghost below = (0int, -(k + 1));
        proof {
            movable.lemma_shifted((0, -(k as int)));
            if representable(vec_sum(movable.anchor()@, below)) {
                movable.lemma_shifted_twice((0, -(k as int)), (0, -1));
                assert(vec_sum((0, -(k as int)), (0, -1)) == below);
            }
        }
        match nudge(board, &cur, GridVec::new(0, -1)) {
            Some(next) => {
                proof {
                    cur.lemma_shifted((0, -1));
                    assert(can_stand(board@, *movable, below));
                    k = k + 1;
                }
                cur = next;
            },
            None => {
                resting = true;
            },
        }
    }
    proof {
        assert(rests_after(board@, *movable, k));
    }
    cur
}

/// Turns the piece once in direction `dir`, trying the kick candidates of the
/// transition in their order. The first with which the turned piece can stand
/// is taken; where there is none, the piece stays as it was.
pub fn rotate_with_kicks<'a>(board: &Board, movable: &MovableBlock<'a>, dir: RotDir) -> (ret:
    MovableBlock<'a>)
    requires
        board.wf(),
        movable.wf(),
        i32::MIN <= movable.turns() + turn_step(dir) <= i32::MAX,
    ensures
        ret.wf(),
        kicked(board@, *movable, dir, ret),
{
    let (turned, kicks) = movable.rotate(dir);
    let ghost candidates = movable.shape().kicks.candidates(dir, movable.rotation_index());
    let mut i: usize = 0;
    while i < kicks.len()
        invariant
            board.wf(),
            turned.wf(),
            turned == movable.turned(dir),
            cells_of(kicks@) == candidates,
            candidates == movable.shape().kicks.candidates(dir, movable.rotation_index()),
            i <= kicks@.len(),
            forall|j: int| 0 <= j < i ==> !#[trigger] can_stand(board@, turned, candidates[j]),
        decreases kicks@.len() - i,
    {
        proof {
            assert(cells_of(kicks@)[i as int] == kicks@[i as int]@);
        }
        match nudge(board, &turned, kicks[i]) {
            Some(kicked_piece) => {
                proof {
                    assert(can_stand(board@, turned, candidates[i as int]));
                }
                return kicked_piece;
            },
            None => {},
        }
        i += 1;
    }
    proof {
        assert(cells_of(kicks@).len() == kicks@.len());
    }
    *movable
}

/// Applies one intent of the player to the falling piece. Returns the piece
/// as it is afterwards, and whether its placement is to be made final.
pub fn handle_block_user_movement<'a>(
    board: &Board,
    movable: &MovableBlock<'a>,
    intent: Intent,
) -> (ret: (MovableBlock<'a>, bool))
    requires
        board.wf(),
        movable.wf(),
        turn_of(intent) matches Some(dir) ==> i32::MIN <= movable.turns() + turn_step(dir)
            <= i32::MAX,
    ensures
        ret.0.wf(),
        intent_outcome(board@, *movable, intent, ret.0, ret.1),
{
    match intent {
        Intent::MoveLeft => {
            match nudge(board, movable, GridVec::new(-1, 0)) {
                Some(moved) => (moved, false),
                None => (*movable, false),
            }
        },
        Intent::MoveRight => {
            match nudge(board, movable, GridVec::new(1, 0)) {
                Some(moved) => (moved, false),
                None => (*movable, false),
            }
        },
        Intent::SoftDrop => (drop_to_rest(board, movable), false),
        Intent::HardDrop => (drop_to_rest(board, movable), true),
        Intent::RotateLeft => (rotate_with_kicks(board, movable, RotDir::Left), false),
        Intent::RotateRight => (rotate_with_kicks(board, movable, RotDir::Right), false),
    }
}

/// Where the preview of the falling piece stands: the piece let down as far
/// as it goes.
pub fn position_ghost_block<'a>(board: &Board, active: &MovableBlock<'a>) -> (ghost_block:
    MovableBlock<'a>)
    requires
        board.wf(),
        active.wf(),
    ensures
        ghost_block.wf(),
        dropped(board@, *active, ghost_block),
{
    drop_to_rest(board, active)
}

/// The pull of gravity on the falling piece: one cell down where the piece
/// can stand there, unless the game is paused.
pub fn move_active_block_down<'a>(paused: bool, board: &Board, movable: &MovableBlock<'a>) -> (ret:
    MovableBlock<'a>)
    requires
        board.wf(),
        movable.wf(),
    ensures
        ret.wf(),
        ret == (if !paused && can_stand(board@, *movable, (0, -1)) {
            movable.shifted((0, -1))
        } else {
            *movable
        }),
{
    if paused {
        return *movable;
    }
    match nudge(board, movable, GridVec::new(0, -1)) {
        Some(moved) => moved,
        None => *movable,
    }
}

/// Takes the lock delay through one tick of length `delta`, by whether the
/// falling piece can move down now. Where the result is `Fired`, the
/// placement is to be made final in this tick.
pub fn check_skate_timer(board: &Board, movable: &MovableBlock, timer: LockDelay, delta: u64) -> (next:
    LockDelay)
    requires
        board.wf(),
        movable.wf(),
    ensures
        next == next_lock_delay(timer, can_stand(board@, *movable, (0, -1)), delta, SKATE_DELAY),
{
    let can_descend = nudge(board, movable, GridVec::new(0, -1)).is_some();
    step_lock_delay(timer, can_descend, delta, SKATE_DELAY)
}

/// Whether a placement was made final: `after` is `before` with the cells of
/// the piece holding `ents`, one for one, and the full rows then cleared;
/// `removed` holds the occupants of the cleared rows, and `relocated` the new
/// cells of the occupants that moved down.
pub open spec fn finalized(
    before: Rows,
    width: nat,
    cells: Seq<(int, int)>,
    ents: Seq<u64>,
    after: Rows,
    removed: Set<u64>,
    relocated: Map<u64, GridVec>,
) -> bool {
    exists|landed: Rows|
        {
            &&& #[trigger] placed(before, cells, ents, landed)
            &&& after == compacted(landed, width)
            &&& removed == cleared_occupants(landed)
            &&& relocations(after, first_full_row(landed, 0), relocated)
        }
}

/// Makes the placement of the falling piece final, unless the piece still has
/// room below it, in which case nothing happens and `None` is returned.
/// Otherwise the cells of the piece take the occupants `ents`, in the order of
/// the piece's cells, the full rows are cleared, and the removed occupants and
/// the new cells of the moved ones are returned.
pub fn place_block(board: &mut Board, movable: &MovableBlock, ents: &[u64]) -> (ret: Option<
    (HashSet<u64>, HashMap<u64, GridVec>),
>)
    requires
        old(board).wf(),
        movable.wf(),
        all_free(old(board)@, movable.cells()),
        ents@.len() == movable.cells().len(),
    ensures
        final(board).wf(),
        final(board).spec_width() == old(board).spec_width(),
        final(board).spec_height() == old(board).spec_height(),
        can_stand(old(board)@, *movable, (0, -1)) ==> ret.is_none() && final(board)@ == old(
            board,
        )@,
        !can_stand(old(board)@, *movable, (0, -1)) ==> ret.is_some() && finalized(
            old(board)@,
            old(board).spec_width(),
            movable.cells(),
            ents@,
            final(board)@,
            ret.unwrap().0@,
            ret.unwrap().1@,
        ),
{
    if nudge(board, movable, GridVec::new(0, -1)).is_some() {
        return None;
    }
    board.place_block(movable, ents);
    let ghost landed = board@;
    let (cleared, moved) = board.clear_filled_lines();
    Some((cleared, moved))
}

/// Where a new piece appears: the middle column, three rows under the top.
pub fn spawn_position(board: &Board) -> (at: GridVec)
    requires
        board.wf(),
    ensures
        at@ == ((board.spec_width() / 2) as int, board.spec_height() - 3),
{
    GridVec::new((board.width() / 2) as i32, board.height() as i32 - 3)
}

/// A new piece of shape `block` at the spawn position, or `None` where the
/// piece cannot stand there: the game is then over.
pub fn spawn_block<'a>(board: &Board, catalog: &'a ShapeCatalog, block: BlockName) -> (ret: Option<
    MovableBlock<'a>,
>)
    requires
        board.wf(),
        catalog.wf(),
    ensures
        ret.is_some() ==> {
            let piece = ret.unwrap();
            &&& piece.wf()
            &&& piece.shape() == catalog.shape_of(block)
            &&& piece.anchor()@ == ((board.spec_width() / 2) as int, board.spec_height() - 3)
            &&& piece.rotation_index() == 0
            &&& piece.turns() == 0
            &&& all_free(board@, piece.cells())
        },
        ret.is_none() <==> !all_free(
            board@,
            spawned_cells(
                catalog.shape_of(block),
                ((board.spec_width() / 2) as int, board.spec_height() - 3),
            ),
        ),
{
    let spawn_at = spawn_position(board);
    let movable = block.create_movable(spawn_at, catalog);
    if board.can_place(&movable) {
        Some(movable)
    } else {
        None
    }
}

/// The shapes that are given to the player.
pub open spec fn playable_blocks() -> Seq<BlockName> {
    seq![
        BlockName::L,
        BlockName::J,
        BlockName::O,
        BlockName::I,
        BlockName::T,
        BlockName::S,
        BlockName::Z,
    ]
}

/// Draws an index below `len` with `rand::thread_rng().gen_range(0..len)`.
/// Nothing here is proved: it is taken from the `rand` crate that a draw from
/// `0..len` lies in that range. Of the outcome no more is claimed, and two
/// draws may differ. `len` is not zero, since the draw from an empty range
/// panics.
#[verifier::external_body]
fn random_index(len: usize) -> (i: usize)
    requires
        len > 0,
    ensures
        i < len,
{
    rand::Rng::gen_range(&mut rand::thread_rng(), 0..len)
}

/// The choice that a draw of `index` makes among `choices`.
pub fn block_at(choices: &[BlockName], index: usize) -> (block: BlockName)
    requires
        index < choices@.len(),
    ensures
        block == choices@[index as int],
{
    choices[index]
}

/// One of `choices`, drawn at random.
pub fn rand_block_from(choices: &[BlockName]) -> (block: BlockName)
    requires
        choices@.len() > 0,
    ensures
        choices@.contains(block),
{
    let i = random_index(choices.len());
    block_at(choices, i)
}

/// A playable shape drawn at random.
pub fn rand_block() -> (block: BlockName)
    ensures
        playable_blocks().contains(block),
{
    let blocks: [BlockName; 7] = [
        BlockName::L,
        BlockName::J,
        BlockName::O,
        BlockName::I,
        BlockName::T,
        BlockName::S,
        BlockName::Z,
    ];
    proof {
        assert(blocks@ =~= playable_blocks());
    }
    rand_block_from(&blocks)
}

/// Draws a shape at random and makes a new piece of it at the spawn position.
/// Returns the shape with the piece, or with `None` where the piece cannot
/// stand there: the game is then over.
pub fn spawn_new_block<'a>(board: &Board, catalog: &'a ShapeCatalog) -> (ret: (
    BlockName,
    Option<MovableBlock<'a>>,
))
    requires
        board.wf(),
        catalog.wf(),
    ensures
        playable_blocks().contains(ret.0),
        ret.1.is_some() ==> {
            let piece = ret.1.unwrap();
            &&& piece.wf()
            &&& piece.shape() == catalog.shape_of(ret.0)
            &&& piece.anchor()@ == ((board.spec_width() / 2) as int, board.spec_height() - 3)
            &&& piece.rotation_index() == 0
            &&& piece.turns() == 0
            &&& all_free(board@, piece.cells())
        },
        ret.1.is_none() <==> !all_free(
            board@,
            spawned_cells(
                catalog.shape_of(ret.0),
                ((board.spec_width() / 2) as int, board.spec_height() - 3),
            ),
        ),
{
    let block = rand_block();
    (block, spawn_block(board, catalog, block))
}

} // verus!
