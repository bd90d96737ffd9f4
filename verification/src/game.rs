use vstd::prelude::*;
use std::collections::{HashMap, HashSet};
use crate::board::{Board, Rows, all_free, empty_rows, free_at};
use crate::catalog::ShapeCatalog;
use crate::grid_vec::{GridVec, cells_of, representable};
use crate::movable_block::{BlockName, MovableBlock, RotDir, spawned_cells, turn_step};
use crate::skate_timer::{LockDelay, SKATE_DELAY, next_lock_delay};
use crate::{
    Intent, can_stand, check_skate_timer, dropped, finalized, handle_block_user_movement,
    intent_outcome, kicked, move_active_block_down, place_block, position_ghost_block,
    rests_after, spawn_block, turn_of,
};

verus! {

/// The whole state of a game: the board, the falling piece with the occupants
/// that its cells will hold once it has landed, the lock delay, and what the
/// player has asked for. One tick takes the state through the steps of a turn
/// in their fixed order.
#[derive(Debug)]
pub struct Game<'a> {
    board: Board,
    catalog: &'a ShapeCatalog,
    active: Option<MovableBlock<'a>>,
    ents: Vec<u64>,
    timer: LockDelay,
    place_requested: bool,
    paused: bool,
    over: bool,
}

/// The falling piece after the gravity step of a tick.
pub open spec fn after_gravity<'a>(
    rows: Rows,
    piece: MovableBlock<'a>,
    gravity_due: bool,
    paused: bool,
) -> MovableBlock<'a> {
    if gravity_due && !paused && can_stand(rows, piece, (0, -1)) {
        piece.shifted((0, -1))
    } else {
        piece
    }
}

/// What a tick reports, as the set of removed occupants and the map of the
/// moved ones to their new cells.
pub open spec fn report_of(ret: Option<(HashSet<u64>, HashMap<u64, GridVec>)>) -> Option<
    (Set<u64>, Map<u64, GridVec>),
> {
    match ret {
        Some((removed, relocated)) => Some((removed@, relocated@)),
        None => None,
    }
}

impl<'a> Game<'a> {
    /// The rows of the board.
    pub closed spec fn rows(&self) -> Rows {
        self.board@
    }

    pub closed spec fn spec_width(&self) -> nat {
        self.board.spec_width()
    }

    pub closed spec fn spec_height(&self) -> nat {
        self.board.spec_height()
    }

    /// The catalog from which the pieces take their shapes.
    pub closed spec fn shapes(&self) -> ShapeCatalog {
        *self.catalog
    }

    /// The falling piece, if there is one.
    pub closed spec fn piece(&self) -> Option<MovableBlock<'a>> {
        self.active
    }

    /// The occupants that the cells of the falling piece will hold.
    pub closed spec fn occupants(&self) -> Seq<u64> {
        self.ents@
    }

    /// The state of the lock delay.
    pub closed spec fn lock(&self) -> LockDelay {
        self.timer
    }

    /// Whether a hard drop has asked for the placement to be made final.
    pub closed spec fn place_pending(&self) -> bool {
        self.place_requested
    }

    pub closed spec fn spec_paused(&self) -> bool {
        self.paused
    }

    pub closed spec fn spec_over(&self) -> bool {
        self.over
    }

    pub closed spec fn board_wf(&self) -> bool {
        self.board.wf()
    }

    /// Board and catalog are well formed, and a falling piece is well formed,
    /// stands on free cells of the board and has one occupant for each of its
    /// cells.
    pub open spec fn wf(&self) -> bool {
        &&& self.board_wf()
        &&& self.shapes().wf()
        &&& self.piece() matches Some(piece) ==> {
            &&& piece.wf()
            &&& all_free(self.rows(), piece.cells())
            &&& self.occupants().len() == piece.cells().len()
        }
    }

    /// Whether everything but the falling piece and the request for placement
    /// is as in `other`.
    pub open spec fn same_surroundings(&self, other: &Game<'a>) -> bool {
        &&& self.rows() == other.rows()
        &&& self.spec_width() == other.spec_width()
        &&& self.spec_height() == other.spec_height()
        &&& self.shapes() == other.shapes()
        &&& self.occupants() == other.occupants()
        &&& self.lock() == other.lock()
        &&& self.spec_paused() == other.spec_paused()
        &&& self.spec_over() == other.spec_over()
    }

    /// A game on an empty board of the given size, with no piece yet, and
    /// paused.
    pub fn new(width: usize, height: usize, catalog: &'a ShapeCatalog) -> (ret: Game<'a>)
        requires
            width * height <= usize::MAX,
            width <= i32::MAX,
            height <= i32::MAX,
            catalog.wf(),
        ensures
            ret.wf(),
            ret.rows() == empty_rows(width as nat, height as nat),
            ret.spec_width() == width,
            ret.spec_height() == height,
            ret.shapes() == *catalog,
            ret.piece().is_none(),
            ret.lock() == LockDelay::Absent,
            !ret.place_pending(),
            ret.spec_paused(),
            !ret.spec_over(),
    {
        Game {
            board: Board::new(width, height),
            catalog,
            active: None,
            ents: Vec::new(),
            timer: LockDelay::Absent,
            place_requested: false,
            paused: true,
            over: false,
        }
    }

    /// The board.
    pub fn board(&self) -> (b: &Board)
        ensures
            b@ == self.rows(),
            b.wf() == self.board_wf(),
            b.spec_width() == self.spec_width(),
            b.spec_height() == self.spec_height(),
    {
        &self.board
    }

    /// The falling piece, if there is one.
    pub fn active(&self) -> (p: Option<MovableBlock<'a>>)
        ensures
            p == self.piece(),
    {
        self.active
    }

    /// The state of the lock delay.
    pub fn lock_delay(&self) -> (l: LockDelay)
        ensures
            l == self.lock(),
    {
        self.timer
    }

    pub fn is_paused(&self) -> (b: bool)
        ensures
            b == self.spec_paused(),
    {
        self.paused
    }

    /// Whether the game is over: a new piece could not stand where it appears.
    pub fn is_over(&self) -> (b: bool)
        ensures
            b == self.spec_over(),
    {
        self.over
    }

    /// Turns the pause on or off. While the game is paused, gravity rests.
    pub fn update_pause_state(&mut self)
        ensures
            final(self).spec_paused() == !old(self).spec_paused(),
            final(self).piece() == old(self).piece(),
            final(self).place_pending() == old(self).place_pending(),
            final(self).rows() == old(self).rows(),
            final(self).spec_width() == old(self).spec_width(),
            final(self).spec_height() == old(self).spec_height(),
            final(self).shapes() == old(self).shapes(),
            final(self).occupants() == old(self).occupants(),
            final(self).lock() == old(self).lock(),
            final(self).spec_over() == old(self).spec_over(),
            final(self).board_wf() == old(self).board_wf(),
    {
        self.paused = !self.paused;
    }

    /// Whether a new piece is due: there is none and the game is not over.
    pub fn no_active_block_exists(&self) -> (b: bool)
        ensures
            b == (self.piece().is_none() && !self.spec_over()),
    {
        self.active.is_none() && !self.over
    }

    /// Brings a new piece of shape `block` into the game at the spawn
    /// position, with the occupants `ents` that its cells will hold. Nothing
    /// happens where a piece is falling already or the game is over. Where
    /// the new piece cannot stand, the game is over. Returns whether the piece
    /// is now falling.
    pub fn spawn_piece(&mut self, block: BlockName, ents: Vec<u64>) -> (spawned: bool)
        requires
            old(self).wf(),
            ents@.len() == old(self).shapes().shape_of(block).num_cells(),
        ensures
            final(self).wf(),
            final(self).rows() == old(self).rows(),
            final(self).spec_width() == old(self).spec_width(),
            final(self).spec_height() == old(self).spec_height(),
            final(self).shapes() == old(self).shapes(),
            final(self).spec_paused() == old(self).spec_paused(),
            final(self).place_pending() == old(self).place_pending(),
            final(self).lock() == old(self).lock(),
            old(self).piece().is_some() || old(self).spec_over() ==> {
                &&& !spawned
                &&& final(self).piece() == old(self).piece()
                &&& final(self).occupants() == old(self).occupants()
                &&& final(self).spec_over() == old(self).spec_over()
            },
            old(self).piece().is_none() && !old(self).spec_over() ==> {
                let at = (
                    (old(self).spec_width() / 2) as int,
                    old(self).spec_height() - 3,
                );
                let fits = all_free(
                    old(self).rows(),
                    spawned_cells(old(self).shapes().shape_of(block), at),
                );
                &&& spawned == fits
                &&& final(self).spec_over() == !fits
                &&& fits ==> {
                    &&& final(self).piece() matches Some(piece)
                    &&& piece.shape() == old(self).shapes().shape_of(block)
                    &&& piece.anchor()@ == at
                    &&& piece.rotation_index() == 0
                    &&& piece.turns() == 0
                    &&& final(self).occupants() == ents@
                }
                &&& !fits ==> final(self).piece().is_none()
            },
    {
        if self.active.is_some() || self.over {
            return false;
        }
        match spawn_block(&self.board, self.catalog, block) {
            Some(piece) => {
                proof {
                    let shape = self.catalog.shape_of(block);
                    assert(piece.cells().len() == shape.state(0).len());
                    assert(shape.state(0).len() == shape.rotations@[0]@.len());
                }
                self.active = Some(piece);
                self.ents = ents;
                true
            },
            None => {
                self.over = true;
                false
            },
        }
    }

    /// Whether `intent` can be taken up: a piece is falling, the game is not
    /// over, and a turn would not take the count of turns out of `i32`.
    pub open spec fn takes(&self, intent: Intent) -> bool {
        &&& self.piece() matches Some(piece)
        &&& !self.spec_over()
        &&& turn_of(intent) matches Some(dir) ==> i32::MIN <= piece.turns() + turn_step(dir)
            <= i32::MAX
    }

    /// Whether `after` is what `intent` makes of this game. Where the intent is
    /// taken up, the falling piece becomes what the intent makes of it, and a
    /// hard drop asks for the placement to be made final. Where it is not,
    /// nothing changes.
    pub open spec fn applied(&self, intent: Intent, after: &Game<'a>) -> bool {
        &&& after.same_surroundings(self)
        &&& !self.takes(intent) ==> after.piece() == self.piece() && after.place_pending()
            == self.place_pending()
        &&& self.takes(intent) ==> {
            &&& after.piece() matches Some(piece)
            &&& intent_outcome(
                self.rows(),
                self.piece().unwrap(),
                intent,
                piece,
                intent == Intent::HardDrop,
            )
            &&& after.place_pending() == (self.place_pending() || intent == Intent::HardDrop)
        }
    }

    /// Whether `after` and `report` are what a tick of length `delta` makes of
    /// this game. Without a falling piece, or when the game is over, nothing
    /// changes. Otherwise gravity, where it is due, pulls the piece down one
    /// cell if it can stand there; the lock delay is stepped by whether the
    /// piece can then move down; and where the lock delay has fired, or a
    /// hard drop has asked for it, and the piece has no room below, the
    /// placement is made final and reported.
    pub open spec fn advanced(
        &self,
        gravity_due: bool,
        delta: u64,
        after: &Game<'a>,
        report: Option<(Set<u64>, Map<u64, GridVec>)>,
    ) -> bool {
        &&& after.spec_width() == self.spec_width()
        &&& after.spec_height() == self.spec_height()
        &&& after.shapes() == self.shapes()
        &&& after.spec_paused() == self.spec_paused()
        &&& after.spec_over() == self.spec_over()
        &&& after.occupants() == self.occupants()
        &&& self.piece().is_none() || self.spec_over() ==> {
            &&& report.is_none()
            &&& after.rows() == self.rows()
            &&& after.lock() == self.lock()
            &&& after.piece() == self.piece()
            &&& after.place_pending() == self.place_pending()
        }
        &&& self.piece().is_some() && !self.spec_over() ==> {
            let piece = after_gravity(
                self.rows(),
                self.piece().unwrap(),
                gravity_due,
                self.spec_paused(),
            );
            let room = can_stand(self.rows(), piece, (0, -1));
            let lock = next_lock_delay(self.lock(), room, delta, SKATE_DELAY);
            let due = lock == LockDelay::Fired || self.place_pending();
            &&& !after.place_pending()
            &&& !due || room ==> {
                &&& report.is_none()
                &&& after.piece() == Some(piece)
                &&& after.rows() == self.rows()
                &&& after.lock() == lock
            }
            &&& due && !room ==> {
                &&& report.is_some()
                &&& after.piece().is_none()
                &&& after.lock() == LockDelay::Absent
                &&& finalized(
                    self.rows(),
                    self.spec_width(),
                    piece.cells(),
                    self.occupants(),
                    after.rows(),
                    report.unwrap().0,
                    report.unwrap().1,
                )
            }
        }
    }

    /// Applies one intent of the player to the falling piece. A hard drop
    /// also asks for the placement to be made final in the next tick. Where
    /// the intent cannot be taken up, nothing changes.
    pub fn apply_intent(&mut self, intent: Intent)
        requires
            old(self).wf(),
        ensures
            final(self).wf(),
            old(self).applied(intent, final(self)),
    {
        if self.over {
            return ;
        }
        let piece = match self.active {
            Some(piece) => piece,
            None => {
                return ;
            },
        };
        let allowed = match intent {
            Intent::RotateLeft => piece.rot() > i32::MIN,
            Intent::RotateRight => piece.rot() < i32::MAX,
            _ => true,
        };
        if !allowed {
            return ;
        }
        let (moved, place) = handle_block_user_movement(&self.board, &piece, intent);
        proof {
            lemma_outcome_stands(self.board@, piece, intent, moved, place);
            piece.lemma_shifted((0, 0));
        }
        self.active = Some(moved);
        if place {
            self.place_requested = true;
        }
        proof {
            assert(intent_outcome(
                old(self).rows(),
                old(self).piece().unwrap(),
                intent,
                moved,
                place,
            ));
            assert(place == (intent == Intent::HardDrop));
        }
    }

    /// The cells that the falling piece covers, if there is one.
    pub fn active_cells(&self) -> (cells: Option<Vec<GridVec>>)
        requires
            self.wf(),
        ensures
            cells.is_some() == self.piece().is_some(),
            cells matches Some(v) ==> cells_of(v@) == self.piece().unwrap().cells(),
    {
        match &self.active {
            Some(piece) => {
                proof {
                    lemma_free_cells_in_range(self.board, *piece);
                }
                Some(piece.positions())
            },
            None => None,
        }
    }

    /// The cells of the preview: those that the falling piece would cover if
    /// it were let down as far as it goes.
    pub fn ghost_cells(&self) -> (cells: Option<Vec<GridVec>>)
        requires
            self.wf(),
        ensures
            cells.is_some() == self.piece().is_some(),
            cells matches Some(v) ==> exists|resting: MovableBlock<'a>|
                #[trigger] dropped(self.rows(), self.piece().unwrap(), resting) && cells_of(v@)
                    == resting.cells(),
    {
        match &self.active {
            Some(piece) => {
                let resting = position_ghost_block(&self.board, piece);
                proof {
                    lemma_dropped_stands(self.board@, *piece, resting);
                    lemma_free_cells_in_range(self.board, resting);
                }
                Some(resting.positions())
            },
            None => None,
        }
    }

    /// Takes the game through one tick of length `delta`. Where a piece is
    /// falling and the game is not over: gravity pulls the piece down one
    /// cell if `gravity_due` says so; then the lock delay is stepped by
    /// whether the piece can still move down; then, where the lock delay has
    /// fired or a hard drop has asked for it, the placement is made final,
    /// unless the piece has room below. A final placement writes the piece
    /// into the board, takes the piece out of the game, clears the full rows,
    /// and returns the removed occupants and the new cells of the moved ones.
    pub fn advance_tick(&mut self, gravity_due: bool, delta: u64) -> (ret: Option<
        (HashSet<u64>, HashMap<u64, GridVec>),
    >)
        requires
            old(self).wf(),
        ensures
            final(self).wf(),
            old(self).advanced(gravity_due, delta, final(self), report_of(ret)),
    {
        if self.over {
            return None;
        }
        let before = match self.active {
            Some(piece) => piece,
            None => {
                return None;
            },
        };
        let piece = if gravity_due {
            move_active_block_down(self.paused, &self.board, &before)
        } else {
            before
        };
        proof {
            if piece != before {
                before.lemma_shifted((0, -1));
            }
        }
        self.active = Some(piece);
        self.timer = check_skate_timer(&self.board, &piece, self.timer, delta);
        let fired = match self.timer {
            LockDelay::Fired => true,
            _ => false,
        };
        if !(fired || self.place_requested) {
            return None;
        }
        self.place_requested = false;
        let placement = place_block(&mut self.board, &piece, self.ents.as_slice());
        if placement.is_some() {
            self.active = None;
            self.timer = LockDelay::Absent;
        }
        placement
    }

    /// One turn of the game after the spawn, in its fixed order: first the
    /// intent of the player, if there is one, then the tick with gravity, lock
    /// delay and placement.
    pub fn tick(&mut self, intent: Option<Intent>, gravity_due: bool, delta: u64) -> (ret: Option<
        (HashSet<u64>, HashMap<u64, GridVec>),
    >)
        requires
            old(self).wf(),
        ensures
            final(self).wf(),
            match intent {
                Some(intent) => exists|between: Game<'a>|
                    #[trigger] old(self).applied(intent, &between) && between.advanced(
                        gravity_due,
                        delta,
                        final(self),
                        report_of(ret),
                    ),
                None => old(self).advanced(gravity_due, delta, final(self), report_of(ret)),
            },
    {
        if let Some(intent) = intent {
            self.apply_intent(intent);
        }
        let ghost between = *self;
        let ret = self.advance_tick(gravity_due, delta);
        proof {
            if let Some(intent) = intent {
                assert(old(self).applied(intent, &between));
            }
        }
        ret
    }
}

/// The cells of a piece that stands on free cells of the board can be
/// represented.
pub proof fn lemma_free_cells_in_range(board: Board, piece: MovableBlock)
    requires
        board.wf(),
        all_free(board@, piece.cells()),
    ensures
        piece.in_range(),
{
    assert forall|k: int| 0 <= k < piece.cells().len() implies representable(
        #[trigger] piece.cells()[k],
    ) by {
        assert(free_at(board@, piece.cells()[k]));
    }
}

/// A piece let down as far as it goes from a place where it stands, stands,
/// and covers as many cells as before.
pub proof fn lemma_dropped_stands(rows: Rows, piece: MovableBlock, resting: MovableBlock)
    requires
        all_free(rows, piece.cells()),
        dropped(rows, piece, resting),
    ensures
        all_free(rows, resting.cells()),
        resting.cells().len() == piece.cells().len(),
{
    let k = choose|k: nat| #[trigger]
        rests_after(rows, piece, k) && resting == piece.shifted((0, -(k as int)));
    if k == 0 {
        piece.lemma_shifted_twice((0, 0), (0, 0));
    } else {
        assert(can_stand(rows, piece, (0, -(k as int))));
        piece.lemma_shifted((0, -(k as int)));
    }
}

/// What a turn makes of a piece that stands, stands too, and covers as many
/// cells as before.
pub proof fn lemma_kicked_stands(
    rows: Rows,
    piece: MovableBlock,
    dir: RotDir,
    result: MovableBlock,
)
    requires
        piece.wf(),
        i32::MIN <= piece.turns() + turn_step(dir) <= i32::MAX,
        all_free(rows, piece.cells()),
        kicked(rows, piece, dir, result),
    ensures
        all_free(rows, result.cells()),
        result.cells().len() == piece.cells().len(),
{
    let turned = piece.turned(dir);
    let kicks = piece.shape().kicks.candidates(dir, piece.rotation_index());
    piece.lemma_turned(dir);
    assert(turned.cells().len() == piece.cells().len()) by {
        let shape = piece.shape();
        assert(shape.state(turned.rotation_index()).len() == shape.rotations@[turned.rotation_index()]@.len());
        assert(shape.state(piece.rotation_index()).len() == shape.rotations@[piece.rotation_index()]@.len());
    }
    if result != piece {
        let i = choose|i: int|
            {
                &&& 0 <= i < kicks.len()
                &&& #[trigger] can_stand(rows, turned, kicks[i])
                &&& forall|j: int| 0 <= j < i ==> !#[trigger] can_stand(rows, turned, kicks[j])
                &&& result == turned.shifted(kicks[i])
            };
        turned.lemma_shifted(kicks[i]);
    }
}

/// What an intent makes of a piece that stands, stands too.
pub proof fn lemma_outcome_stands(
    rows: Rows,
    piece: MovableBlock,
    intent: Intent,
    result: MovableBlock,
    place: bool,
)
    requires
        piece.wf(),
        turn_of(intent) matches Some(dir) ==> i32::MIN <= piece.turns() + turn_step(dir)
            <= i32::MAX,
        all_free(rows, piece.cells()),
        intent_outcome(rows, piece, intent, result, place),
    ensures
        all_free(rows, result.cells()),
        result.cells().len() == piece.cells().len(),
{
    match intent {
        Intent::MoveLeft => {
            if can_stand(rows, piece, (-1, 0)) {
                piece.lemma_shifted((-1, 0));
            }
        },
        Intent::MoveRight => {
            if can_stand(rows, piece, (1, 0)) {
                piece.lemma_shifted((1, 0));
            }
        },
        Intent::SoftDrop => {
            lemma_dropped_stands(rows, piece, result);
        },
        Intent::HardDrop => {
            lemma_dropped_stands(rows, piece, result);
        },
        Intent::RotateLeft => {
            lemma_kicked_stands(rows, piece, RotDir::Left, result);
        },
        Intent::RotateRight => {
            lemma_kicked_stands(rows, piece, RotDir::Right, result);
        },
    }
}

} // verus!
