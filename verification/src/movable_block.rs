use vstd::prelude::*;
use crate::block_definition::BlockDefinition;
use crate::catalog::ShapeCatalog;
use crate::grid_vec::{GridVec, cells_of, representable, vec_sum};

verus! {

/// The shapes a falling piece can take.
#[derive(Clone, Copy, Debug, PartialEq, Eq, Structural)]
pub enum BlockName {
    L,
    J,
    O,
    I,
    T,
    S,
    Z,
    Test,
}

impl BlockName {
    /// A piece of this shape at `at_pos` in rotation state 0, its definition
    /// taken from `catalog`.
    pub fn create_movable<'a>(&self, at_pos: GridVec, catalog: &'a ShapeCatalog) -> (ret:
        MovableBlock<'a>)
        requires
            catalog.wf(),
        ensures
            ret.wf(),
            ret.shape() == catalog.shape_of(*self),
            ret.anchor() == at_pos,
            ret.rotation_index() == 0,
            ret.turns() == 0,
    {
        MovableBlock::new(at_pos, catalog.definition(*self))
    }
}

/// The direction of a quarter turn.
#[derive(Clone, Copy, Debug, PartialEq, Eq, Structural)]
pub enum RotDir {
    Left,
    Right,
}

/// The kick candidates of one transition, in the order in which to try them.
pub type Kicks<'a> = &'a [GridVec];

/// The rotation state that follows state `from` of `count` states in
/// direction `dir`: one up to the right, one down to the left, around the end.
pub open spec fn next_rotation(from: int, count: int, dir: RotDir) -> int {
    match dir {
        RotDir::Right => if from == count - 1 {
            0
        } else {
            from + 1
        },
        RotDir::Left => if from == 0 {
            count - 1
        } else {
            from - 1
        },
    }
}

/// The cells that a new piece of shape `shape` covers with its anchor at `at`.
pub open spec fn spawned_cells(shape: BlockDefinition, at: (int, int)) -> Seq<(int, int)> {
    Seq::new(shape.state(0).len(), |k: int| vec_sum(at, shape.state(0)[k]))
}

/// The direction against `dir`.
pub open spec fn opposite(dir: RotDir) -> RotDir {
    match dir {
        RotDir::Right => RotDir::Left,
        RotDir::Left => RotDir::Right,
    }
}

/// The change that one turn in direction `dir` makes to the count of turns.
pub open spec fn turn_step(dir: RotDir) -> int {
    match dir {
        RotDir::Right => 1,
        RotDir::Left => -1,
    }
}

/// A falling piece: the shape it has, where its anchor is on the grid, and
/// which of the shape's rotation states it is in. Moving and turning do not
/// change a piece; they give a new one, to be tested against the board before
/// it replaces the old.
#[derive(Clone, Copy, Debug)]
pub struct MovableBlock<'a> {
    definition: &'a BlockDefinition,
    position: GridVec,
    rotation: usize,
    rotation_continuous: i32,
}

impl<'a> MovableBlock<'a> {
    /// The definition of the piece's shape.
    pub closed spec fn shape(&self) -> BlockDefinition {
        *self.definition
    }

    /// The anchor, to which the shape's offsets are relative.
    pub closed spec fn anchor(&self) -> GridVec {
        self.position
    }

    /// The index of the current rotation state.
    pub closed spec fn rotation_index(&self) -> int {
        self.rotation as int
    }

    /// The turns to the right less the turns to the left since the piece was
    /// made.
    pub closed spec fn turns(&self) -> int {
        self.rotation_continuous as int
    }

    /// The shape is well formed and the rotation index names one of its
    /// states.
    pub open spec fn wf(&self) -> bool {
        &&& self.shape().wf()
        &&& 0 <= self.rotation_index() < self.shape().num_rotations()
    }

    /// The offsets of the current rotation state.
    pub open spec fn offsets(&self) -> Seq<(int, int)> {
        self.shape().state(self.rotation_index())
    }

    /// The cells that the piece covers: the offsets of the current rotation
    /// state, each moved by the anchor, in the order of the offsets.
    pub open spec fn cells(&self) -> Seq<(int, int)> {
        Seq::new(self.offsets().len(), |k: int| vec_sum(self.anchor()@, self.offsets()[k]))
    }

    /// Whether every covered cell has coordinates within `i32`.
    pub open spec fn in_range(&self) -> bool {
        forall|k: int| 0 <= k < self.cells().len() ==> representable(#[trigger] self.cells()[k])
    }

    /// The piece with the same shape, rotation state and turn count whose
    /// anchor is moved by `by`.
    pub closed spec fn shifted(self, by: (int, int)) -> MovableBlock<'a> {
        MovableBlock {
            definition: self.definition,
            position: GridVec {
                x: (self.position.x + by.0) as i32,
                y: (self.position.y + by.1) as i32,
            },
            rotation: self.rotation,
            rotation_continuous: self.rotation_continuous,
        }
    }

    /// The piece with the same shape and anchor after one turn in direction
    /// `dir`, without any kick.
    pub closed spec fn turned(self, dir: RotDir) -> MovableBlock<'a> {
        MovableBlock {
            definition: self.definition,
            position: self.position,
            rotation: next_rotation(
                self.rotation as int,
                self.definition.rotations.len() as int,
                dir,
            ) as usize,
            rotation_continuous: (self.rotation_continuous + turn_step(dir)) as i32,
        }
    }

    /// What `shifted` keeps and what it changes, where the moved anchor can be
    /// represented.
    pub proof fn lemma_shifted(self, by: (int, int))
        requires
            representable(vec_sum(self.anchor()@, by)),
        ensures
            self.shifted(by).shape() == self.shape(),
            self.shifted(by).rotation_index() == self.rotation_index(),
            self.shifted(by).turns() == self.turns(),
            self.shifted(by).anchor()@ == vec_sum(self.anchor()@, by),
            self.shifted(by).wf() == self.wf(),
            self.shifted(by).offsets() == self.offsets(),
            self.shifted(by).cells().len() == self.cells().len(),
            forall|k: int|
                0 <= k < self.cells().len() ==> (#[trigger] self.shifted(by).cells()[k]) == vec_sum(
                    self.cells()[k],
                    by,
                ),
    {
    }

    /// Moving by nothing changes nothing, and two moves in a row are one move
    /// by the sum, where the anchors on the way can be represented.
    pub proof fn lemma_shifted_twice(self, a: (int, int), b: (int, int))
        requires
            representable(vec_sum(self.anchor()@, a)),
            representable(vec_sum(self.anchor()@, vec_sum(a, b))),
        ensures
            self.shifted((0, 0)) == self,
            self.shifted(a).shifted(b) == self.shifted(vec_sum(a, b)),
    {
    }

    /// What `turned` keeps and what it changes.
    pub proof fn lemma_turned(self, dir: RotDir)
        requires
            self.wf(),
            i32::MIN <= self.turns() + turn_step(dir) <= i32::MAX,
        ensures
            self.turned(dir).wf(),
            self.turned(dir).shape() == self.shape(),
            self.turned(dir).anchor() == self.anchor(),
            self.turned(dir).rotation_index() == next_rotation(
                self.rotation_index(),
                self.shape().num_rotations() as int,
                dir,
            ),
            self.turned(dir).turns() == self.turns() + turn_step(dir),
    {
    }

    /// A turn followed by the turn the other way, with no kick taken, gives
    /// the piece back: its rotation state, its turn count and all else.
    pub proof fn lemma_turn_and_back(self, dir: RotDir)
        requires
            self.wf(),
            i32::MIN <= self.turns() + turn_step(dir) <= i32::MAX,
        ensures
            self.turned(dir).turned(opposite(dir)) == self,
            self.turned(dir).turned(opposite(dir)).rotation_index() == self.rotation_index(),
    {
    }

    /// What tells two pieces apart: the shape, the anchor, the rotation state
    /// and the turn count.
    pub proof fn lemma_same_piece(a: MovableBlock<'a>, b: MovableBlock<'a>)
        requires
            a.shape() == b.shape(),
            a.anchor() == b.anchor(),
            a.rotation_index() == b.rotation_index(),
            a.turns() == b.turns(),
        ensures
            a == b,
    {
    }

    /// A piece of the given shape at `position`, in rotation state 0.
    pub fn new(position: GridVec, definition: &'a BlockDefinition) -> (ret: MovableBlock<'a>)
        requires
            definition.wf(),
        ensures
            ret.wf(),
            ret.shape() == *definition,
            ret.anchor() == position,
            ret.rotation_index() == 0,
            ret.turns() == 0,
    {
        MovableBlock { definition, position, rotation: 0, rotation_continuous: 0 }
    }

    /// The turns to the right less the turns to the left since the piece was
    /// made.
    pub fn rot(&self) -> (r: i32)
        ensures
            r == self.turns(),
    {
        self.rotation_continuous
    }

    /// The index of the current rotation state.
    pub fn rotation_state(&self) -> (r: usize)
        ensures
            r == self.rotation_index(),
    {
        self.rotation
    }

    /// The definition of the piece's shape.
    pub fn definition(&self) -> (d: &'a BlockDefinition)
        ensures
            *d == self.shape(),
    {
        self.definition
    }

    pub fn root_position(&self) -> (p: GridVec)
        ensures
            p == self.anchor(),
    {
        self.position
    }

    /// Turns the piece once in direction `rot_dir`, without any kick. Returns
    /// the turned piece and the kick candidates of this transition, which
    /// begin with the zero offset. The caller tries the turned piece moved by
    /// each candidate in order and keeps the first that the board accepts, or
    /// else the piece as it was.
    pub fn rotate(&self, rot_dir: RotDir) -> (ret: (MovableBlock<'a>, Kicks<'a>))
        requires
            self.wf(),
            i32::MIN <= self.turns() + turn_step(rot_dir) <= i32::MAX,
        ensures
            ret.0 == self.turned(rot_dir),
            ret.0.wf(),
            cells_of(ret.1@) == self.shape().kicks.candidates(rot_dir, self.rotation_index()),
            ret.1@.len() > 0,
            ret.1@[0]@ == (0int, 0int),
    {
        let definition: &'a BlockDefinition = self.definition;
        let kicks: &'a Vec<GridVec> = match rot_dir {
            RotDir::Right => &definition.kicks.right[self.rotation],
            RotDir::Left => &definition.kicks.left[self.rotation],
        };
        let num_rotations = definition.rotations.len();
        let self_rot = self.rotation;
        let rotation_continuous = match rot_dir {
            RotDir::Left => self.rotation_continuous - 1,
            RotDir::Right => self.rotation_continuous + 1,
        };
        let rotation = match rot_dir {
            RotDir::Right => {
                if self_rot == num_rotations - 1 {
                    0
                } else {
                    self_rot + 1
                }
            },
            RotDir::Left => {
                if self_rot == 0 {
                    num_rotations - 1
                } else {
                    self_rot - 1
                }
            },
        };
        (
            MovableBlock { definition, position: self.position, rotation, rotation_continuous },
            kicks.as_slice(),
        )
    }

    /// The cells that the piece covers, in the order of the shape's offsets.
    pub fn positions(&self) -> (ret: Vec<GridVec>)
        requires
            self.wf(),
            self.in_range(),
        ensures
            cells_of(ret@) == self.cells(),
    {
        let state = &self.definition.rotations[self.rotation];
        let mut ret: Vec<GridVec> = Vec::new();
        let mut k: usize = 0;
        while k < state.len()
            invariant
                k <= state@.len(),
                self.in_range(),
                cells_of(state@) == self.offsets(),
                ret@.len() == k,
                forall|m: int| 0 <= m < k ==> (#[trigger] ret@[m])@ == self.cells()[m],
            decreases state@.len() - k,
        {
            proof {
                assert(cells_of(state@)[k as int] == state@[k as int]@);
                assert(representable(self.cells()[k as int]));
            }
            ret.push(state[k].plus(self.position));
            k += 1;
        }
        proof {
            assert(cells_of(ret@) =~= self.cells());
        }
        ret
    }

    /// The offsets of the current rotation state, in the shape's order.
    pub fn relative_positions(&self) -> (ret: Vec<GridVec>)
        requires
            self.wf(),
        ensures
            cells_of(ret@) == self.offsets(),
    {
        let state = &self.definition.rotations[self.rotation];
        let mut ret: Vec<GridVec> = Vec::new();
        let mut k: usize = 0;
        while k < state.len()
            invariant
                k <= state@.len(),
                ret@.len() == k,
                forall|m: int| 0 <= m < k ==> (#[trigger] ret@[m]) == state@[m],
            decreases state@.len() - k,
        {
            ret.push(state[k]);
            k += 1;
        }
        proof {
            assert(cells_of(ret@) =~= cells_of(state@));
        }
        ret
    }

    /// The piece moved by `by`, with shape and rotation state unchanged.
    /// Nothing is tested here: whether the new place is free is for the board
    /// to say.
    pub fn move_relative(&self, by: GridVec) -> (ret: MovableBlock<'a>)
        requires
            representable(vec_sum(self.anchor()@, by@)),
        ensures
            ret == self.shifted(by@),
            self.wf() ==> ret.wf(),
    {
        MovableBlock {
            definition: self.definition,
            position: self.position.plus(by),
            rotation: self.rotation,
            rotation_continuous: self.rotation_continuous,
        }
    }

    /// The piece moved by `by`, or `None` where the moved anchor cannot be
    /// represented.
    pub fn checked_move_relative(&self, by: GridVec) -> (ret: Option<MovableBlock<'a>>)
        ensures
            ret.is_some() == representable(vec_sum(self.anchor()@, by@)),
            ret.is_some() ==> ret.unwrap() == self.shifted(by@),
            ret.is_some() && self.wf() ==> ret.unwrap().wf(),
    {
        match self.position.checked_plus(by) {
            Some(position) => Some(
                MovableBlock {
                    definition: self.definition,
                    position,
                    rotation: self.rotation,
                    rotation_continuous: self.rotation_continuous,
                },
            ),
            None => None,
        }
    }

    /// Whether the shape turns about a cell's corner.
    pub fn around_corner(&self) -> (b: bool)
        ensures
            b == self.shape().around_corner,
    {
        self.definition.around_corner
    }
}

} // verus!
