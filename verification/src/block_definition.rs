use vstd::prelude::*;
use crate::grid_vec::{GridVec, cells_of, representable};
use crate::movable_block::RotDir;
use crate::tuple_util::{conv_tuples, tuples_of};

verus! {

/// Integer division by two that rounds toward zero.
pub open spec fn half_toward_zero(v: int) -> int {
    if v >= 0 {
        v / 2
    } else {
        -((-v) / 2)
    }
}

/// One quarter turn clockwise of an offset. About a cell's centre this is
/// `(x, y) -> (y, -x)`. About a cell's corner the offset is doubled and
/// incremented by one, turned the same way, decremented by one and halved.
pub open spec fn rotate_cell(c: (int, int), around_corner: bool) -> (int, int) {
    if around_corner {
        let d = (2 * c.0 + 1, 2 * c.1 + 1);
        let t = (d.1, -d.0);
        (half_toward_zero(t.0 - 1), half_toward_zero(t.1 - 1))
    } else {
        (c.1, -c.0)
    }
}

/// `n` quarter turns clockwise of an offset.
pub open spec fn rotate_cell_n(c: (int, int), around_corner: bool, n: nat) -> (int, int)
    decreases n,
{
    if n == 0 {
        c
    } else {
        rotate_cell(rotate_cell_n(c, around_corner, (n - 1) as nat), around_corner)
    }
}

/// Whether one quarter turn of an offset can be computed in `i32` without
/// leaving its range at any step.
pub open spec fn turnable(c: (int, int), around_corner: bool) -> bool {
    if around_corner {
        representable((2 * c.0 + 1, 2 * c.1 + 1))
    } else {
        representable((c.1, -c.0))
    }
}

/// The halving in a turn about a corner is exact, so that the turn is
/// `(x, y) -> (y, -x - 1)` whichever way the division rounds.
pub proof fn lemma_corner_turn_is_exact(c: (int, int))
    ensures
        rotate_cell(c, true) == (c.1, -c.0 - 1),
{
}

/// Four quarter turns bring every offset back to where it was.
pub proof fn lemma_four_turns_are_identity(c: (int, int), around_corner: bool)
    ensures
        rotate_cell_n(c, around_corner, 4) == c,
{
    reveal_with_fuel(rotate_cell_n, 5);
}

fn rotate(v: GridVec, around_corner: bool) -> (r: GridVec)
    requires
        turnable(v@, around_corner),
    ensures
        r@ == rotate_cell(v@, around_corner),
{
    if !around_corner {
        GridVec::new(v.y, -v.x)
    } else {
        let dx: i32 = v.x * 2 + 1;
        let dy: i32 = v.y * 2 + 1;
        let tx: i32 = dy;
        let ty: i32 = -dx;
        GridVec::new((tx - 1) / 2, (ty - 1) / 2)
    }
}

/// The turned states of a shape as vectors: state `i` holds every base offset
/// after `i` quarter turns, in the base's order.
pub open spec fn rotation_states(base: Seq<(int, int)>, around_corner: bool, count: nat) -> Seq<
    Seq<(int, int)>,
> {
    Seq::new(
        count,
        |i: int| Seq::new(base.len(), |j: int| rotate_cell_n(base[j], around_corner, i as nat)),
    )
}

/// The views of a list of lists of vectors, one for one.
pub open spec fn states_of(s: Seq<Vec<GridVec>>) -> Seq<Seq<(int, int)>> {
    Seq::new(s.len(), |i: int| cells_of(s[i]@))
}

/// Whether every turn that building `count` states from `base` takes can be
/// computed in `i32`.
pub open spec fn buildable(base: Seq<(int, int)>, around_corner: bool, count: nat) -> bool {
    forall|j: int, k: nat|
        0 <= j < base.len() && k + 1 < count ==> turnable(
            #[trigger] rotate_cell_n(base[j], around_corner, k),
            around_corner,
        )
}

/// Derives the rotation states of a shape from its base state: the base
/// itself, then each further state a quarter turn clockwise of the one before.
pub fn build_rotations(num_rotations: usize, rot_around_corner: bool, list: &[(i32, i32)]) -> (ret:
    Vec<Vec<GridVec>>)
    requires
        num_rotations > 0,
        buildable(tuples_of(list@), rot_around_corner, num_rotations as nat),
    ensures
        states_of(ret@) == rotation_states(
            tuples_of(list@),
            rot_around_corner,
            num_rotations as nat,
        ),
{
    let ghost base = tuples_of(list@);
    let first = conv_tuples(list);
    let mut ret: Vec<Vec<GridVec>> = Vec::new();
    ret.push(first);
    let mut i: usize = 1;
    while i < num_rotations
        invariant
            1 <= i <= num_rotations,
            base == tuples_of(list@),
            buildable(base, rot_around_corner, num_rotations as nat),
            ret@.len() == i,
            forall|k: int|
                0 <= k < i ==> cells_of((#[trigger] ret@[k])@) == rotation_states(
                    base,
                    rot_around_corner,
                    num_rotations as nat,
                )[k],
        decreases num_rotations - i,
    {
        let last = &ret[i - 1];
        proof {
            let state = rotation_states(base, rot_around_corner, num_rotations as nat)[i - 1];
            assert(cells_of(last@) == state);
            assert(cells_of(last@).len() == last@.len());
            assert forall|m: int| 0 <= m < last@.len() implies (#[trigger] last@[m])@
                == rotate_cell_n(base[m], rot_around_corner, (i - 1) as nat) by {
                assert(cells_of(last@)[m] == last@[m]@);
            }
        }
        let mut rotated: Vec<GridVec> = Vec::new();
        let mut j: usize = 0;
        while j < last.len()
            invariant
                1 <= i < num_rotations,
                j <= last@.len(),
                last@.len() == base.len(),
                buildable(base, rot_around_corner, num_rotations as nat),
                forall|m: int|
                    0 <= m < last@.len() ==> (#[trigger] last@[m])@ == rotate_cell_n(
                        base[m],
                        rot_around_corner,
                        (i - 1) as nat,
                    ),
                rotated@.len() == j,
                forall|m: int|
                    0 <= m < j ==> (#[trigger] rotated@[m])@ == rotate_cell_n(
                        base[m],
                        rot_around_corner,
                        i as nat,
                    ),
            decreases last@.len() - j,
        {
            let ghost c = rotate_cell_n(base[j as int], rot_around_corner, (i - 1) as nat);
            assert(turnable(c, rot_around_corner));
            rotated.push(rotate(last[j], rot_around_corner));
            j += 1;
        }
        proof {
            assert(cells_of(rotated@) =~= rotation_states(
                base,
                rot_around_corner,
                num_rotations as nat,
            )[i as int]);
        }
        ret.push(rotated);
        i += 1;
    }
    proof {
        assert(states_of(ret@) =~= rotation_states(base, rot_around_corner, num_rotations as nat));
    }
    ret
}

/// The kick candidates that a table of extra offsets stands for: each entry
/// is the zero offset, for the plain rotation, followed by the entry's own
/// offsets in their order.
pub open spec fn kick_lists(table: Seq<&[(i32, i32)]>) -> Seq<Seq<(int, int)>> {
    Seq::new(table.len(), |i: int| seq![(0int, 0int)] + tuples_of(table[i]@))
}

/// Whether all entries of a table have the same length.
pub open spec fn same_lengths(table: Seq<&[(i32, i32)]>) -> bool {
    forall|i: int, j: int|
        0 <= i < table.len() && 0 <= j < table.len() ==> (#[trigger] table[i])@.len() == (
        #[trigger] table[j])@.len()
}

/// Whether no offset occurs twice in a list.
pub open spec fn distinct(s: Seq<(int, int)>) -> bool {
    forall|i: int, j: int| 0 <= i < j < s.len() ==> s[i] != s[j]
}

fn tuples_to_kicks(list: &[&[(i32, i32)]]) -> (ret: Vec<Vec<GridVec>>)
    ensures
        states_of(ret@) == kick_lists(list@),
{
    let mut ret: Vec<Vec<GridVec>> = Vec::new();
    let mut i: usize = 0;
    while i < list.len()
        invariant
            i <= list@.len(),
            ret@.len() == i,
            forall|k: int| 0 <= k < i ==> cells_of((#[trigger] ret@[k])@) == kick_lists(list@)[k],
        decreases list@.len() - i,
    {
        let l: &[(i32, i32)] = list[i];
        let mut head: Vec<GridVec> = Vec::new();
        head.push(GridVec::new(0, 0));
        let mut tail = conv_tuples(l);
        head.append(&mut tail);
        proof {
            assert(cells_of(head@) =~= kick_lists(list@)[i as int]);
        }
        ret.push(head);
        i += 1;
    }
    proof {
        assert(states_of(ret@) =~= kick_lists(list@));
    }
    ret
}

/// The kick tables of a shape, one for the turns to the right and one for the
/// turns to the left. Entry `i` of a table lists the offsets to try, in order,
/// when the shape leaves rotation state `i` in that direction.
#[derive(Clone, Debug)]
pub struct LRKicks {
    pub right: Vec<Vec<GridVec>>,
    pub left: Vec<Vec<GridVec>>,
}

impl LRKicks {
    /// The candidates for leaving state `from` in direction `dir`.
    pub open spec fn candidates(&self, dir: RotDir, from: int) -> Seq<(int, int)> {
        match dir {
            RotDir::Right => cells_of(self.right@[from]@),
            RotDir::Left => cells_of(self.left@[from]@),
        }
    }

    /// Both tables have the same number of entries, and every entry begins
    /// with the zero offset.
    pub open spec fn wf(&self) -> bool {
        &&& self.right@.len() == self.left@.len()
        &&& forall|i: int|
            0 <= i < self.right@.len() ==> (#[trigger] self.right@[i])@.len() > 0
                && self.right@[i]@[0]@ == (0int, 0int)
        &&& forall|i: int|
            0 <= i < self.left@.len() ==> (#[trigger] self.left@[i])@.len() > 0
                && self.left@[i]@[0]@ == (0int, 0int)
    }

    /// Builds the kick tables from the extra offsets of each transition; the
    /// zero offset is put in front of every entry.
    pub fn new(right: &[&[(i32, i32)]], left: &[&[(i32, i32)]]) -> (ret: LRKicks)
        requires
            right@.len() == left@.len(),
            same_lengths(right@),
            same_lengths(left@),
        ensures
            ret.wf(),
            states_of(ret.right@) == kick_lists(right@),
            states_of(ret.left@) == kick_lists(left@),
    {
        let ret = LRKicks { right: tuples_to_kicks(right), left: tuples_to_kicks(left) };
        proof {
            assert(states_of(ret.right@).len() == ret.right@.len());
            assert(states_of(ret.left@).len() == ret.left@.len());
            assert(kick_lists(right@).len() == right@.len());
            assert(kick_lists(left@).len() == left@.len());
            assert forall|i: int| 0 <= i < ret.right@.len() implies (#[trigger] ret.right@[i])@.len()
                > 0 && ret.right@[i]@[0]@ == (0int, 0int) by {
                assert(states_of(ret.right@).len() == ret.right@.len());
                assert(cells_of(ret.right@[i]@) == states_of(ret.right@)[i]);
                assert(kick_lists(right@)[i][0] == (0int, 0int));
                assert(cells_of(ret.right@[i]@).len() == ret.right@[i]@.len());
                assert(cells_of(ret.right@[i]@)[0] == ret.right@[i]@[0]@);
            }
            assert forall|i: int| 0 <= i < ret.left@.len() implies (#[trigger] ret.left@[i])@.len()
                > 0 && ret.left@[i]@[0]@ == (0int, 0int) by {
                assert(states_of(ret.left@).len() == ret.left@.len());
                assert(cells_of(ret.left@[i]@) == states_of(ret.left@)[i]);
                assert(kick_lists(left@)[i][0] == (0int, 0int));
                assert(cells_of(ret.left@[i]@).len() == ret.left@[i]@.len());
                assert(cells_of(ret.left@[i]@)[0] == ret.left@[i]@[0]@);
            }
        }
        ret
    }
}

/// The definition of a shape: its rotation states, its kick tables, and
/// whether it turns about a cell's corner instead of a cell's centre.
#[derive(Clone, Debug)]
pub struct BlockDefinition {
    pub rotations: Vec<Vec<GridVec>>,
    pub kicks: LRKicks,
    pub around_corner: bool,
}

impl BlockDefinition {
    /// The number of rotation states.
    pub open spec fn num_rotations(&self) -> nat {
        self.rotations@.len()
    }

    /// The offsets of rotation state `r`.
    pub open spec fn state(&self, r: int) -> Seq<(int, int)> {
        cells_of(self.rotations@[r]@)
    }

    /// The number of cells of each rotation state.
    pub open spec fn num_cells(&self) -> nat {
        self.rotations@[0]@.len()
    }

    /// There is at least one rotation state, each kick table has one entry for
    /// each state, all states have the same number of offsets, and no state
    /// holds an offset twice.
    pub open spec fn wf(&self) -> bool {
        &&& self.rotations@.len() > 0
        &&& self.kicks.wf()
        &&& self.kicks.right@.len() == self.rotations@.len()
        &&& self.kicks.left@.len() == self.rotations@.len()
        &&& forall|r: int|
            0 <= r < self.rotations@.len() ==> (#[trigger] self.rotations@[r])@.len()
                == self.rotations@[0]@.len()
        &&& forall|r: int| 0 <= r < self.rotations@.len() ==> distinct(#[trigger] self.state(r))
    }

    pub fn new(rotations: Vec<Vec<GridVec>>, kicks: LRKicks, around_corner: bool) -> (ret:
        BlockDefinition)
        requires
            rotations@.len() > 0,
            kicks.wf(),
            rotations@.len() == kicks.left@.len(),
            rotations@.len() == kicks.right@.len(),
            forall|r: int|
                0 <= r < rotations@.len() ==> (#[trigger] rotations@[r])@.len()
                    == rotations@[0]@.len(),
            forall|r: int| 0 <= r < rotations@.len() ==> distinct(cells_of(#[trigger] rotations@[r]@)),
        ensures
            ret.wf(),
            ret.rotations == rotations,
            ret.kicks == kicks,
            ret.around_corner == around_corner,
    {
        BlockDefinition { rotations, kicks, around_corner }
    }
}

/// A quarter turn sends different offsets to different offsets.
pub proof fn lemma_turn_is_injective(a: (int, int), b: (int, int), around_corner: bool)
    requires
        rotate_cell(a, around_corner) == rotate_cell(b, around_corner),
    ensures
        a == b,
{
    lemma_corner_turn_is_exact(a);
    lemma_corner_turn_is_exact(b);
}

/// Any number of quarter turns sends different offsets to different offsets.
pub proof fn lemma_turns_are_injective(a: (int, int), b: (int, int), around_corner: bool, n: nat)
    requires
        rotate_cell_n(a, around_corner, n) == rotate_cell_n(b, around_corner, n),
    ensures
        a == b,
    decreases n,
{
    if n > 0 {
        lemma_turn_is_injective(
            rotate_cell_n(a, around_corner, (n - 1) as nat),
            rotate_cell_n(b, around_corner, (n - 1) as nat),
            around_corner,
        );
        lemma_turns_are_injective(a, b, around_corner, (n - 1) as nat);
    }
}

/// Whether both components of an offset lie within `bound` of zero, in the
/// sense that quarter turns preserve: about a centre from `-bound` to `bound`,
/// about a corner from `-bound - 1` to `bound`.
pub open spec fn within(c: (int, int), around_corner: bool, bound: int) -> bool {
    let low = if around_corner {
        -bound - 1
    } else {
        -bound
    };
    low <= c.0 <= bound && low <= c.1 <= bound
}

/// Quarter turns keep an offset within the bound that it starts in.
pub proof fn lemma_turns_stay_within(c: (int, int), around_corner: bool, bound: int, n: nat)
    requires
        within(c, around_corner, bound),
    ensures
        within(rotate_cell_n(c, around_corner, n), around_corner, bound),
    decreases n,
{
    if n > 0 {
        lemma_turns_stay_within(c, around_corner, bound, (n - 1) as nat);
        lemma_corner_turn_is_exact(rotate_cell_n(c, around_corner, (n - 1) as nat));
    }
}

/// The greatest bound within which every quarter turn can be computed.
pub const TURN_BOUND: i32 = 0x3fff_ffff;

/// Whether every offset of `base` lies within `TURN_BOUND`.
pub open spec fn all_within(base: Seq<(int, int)>, around_corner: bool) -> bool {
    forall|j: int| 0 <= j < base.len() ==> within(#[trigger] base[j], around_corner, TURN_BOUND as int)
}

/// From a base within `TURN_BOUND`, any number of states can be built.
pub proof fn lemma_small_base_is_buildable(base: Seq<(int, int)>, around_corner: bool, count: nat)
    requires
        all_within(base, around_corner),
    ensures
        buildable(base, around_corner, count),
{
    assert forall|j: int, k: nat| 0 <= j < base.len() && k + 1 < count implies turnable(
        #[trigger] rotate_cell_n(base[j], around_corner, k),
        around_corner,
    ) by {
        lemma_turns_stay_within(base[j], around_corner, TURN_BOUND as int, k);
    }
}

impl BlockDefinition {
    /// The shape whose rotation states are built from `list` by quarter
    /// turns, with the given kick tables.
    pub fn from_base(
        num_rotations: usize,
        rot_around_corner: bool,
        list: &[(i32, i32)],
        kicks: LRKicks,
    ) -> (ret: BlockDefinition)
        requires
            num_rotations > 0,
            buildable(tuples_of(list@), rot_around_corner, num_rotations as nat),
            distinct(tuples_of(list@)),
            kicks.wf(),
            kicks.right@.len() == num_rotations,
            kicks.left@.len() == num_rotations,
        ensures
            ret.wf(),
            states_of(ret.rotations@) == rotation_states(
                tuples_of(list@),
                rot_around_corner,
                num_rotations as nat,
            ),
            ret.kicks == kicks,
            ret.around_corner == rot_around_corner,
    {
        let ghost base = tuples_of(list@);
        let rotations = build_rotations(num_rotations, rot_around_corner, list);
        proof {
            let states = rotation_states(base, rot_around_corner, num_rotations as nat);
            assert(states_of(rotations@).len() == rotations@.len());
            assert forall|r: int| 0 <= r < rotations@.len() implies (#[trigger] rotations@[r])@.len()
                == rotations@[0]@.len() && distinct(cells_of(rotations@[r]@)) by {
                assert(cells_of(rotations@[r]@) == states[r]);
                assert(cells_of(rotations@[0]@) == states[0]);
                assert(cells_of(rotations@[r]@).len() == rotations@[r]@.len());
                assert(cells_of(rotations@[0]@).len() == rotations@[0]@.len());
                assert forall|i: int, j: int| 0 <= i < j < states[r].len() implies states[r][i]
                    != states[r][j] by {
                    if states[r][i] == states[r][j] {
                        lemma_turns_are_injective(base[i], base[j], rot_around_corner, r as nat);
                    }
                }
            }
        }
        BlockDefinition::new(rotations, kicks, rot_around_corner)
    }
}

/// Every offset of `base` after `n` quarter turns, in the base's order.
pub open spec fn turned_state(base: Seq<(int, int)>, around_corner: bool, n: nat) -> Seq<
    (int, int),
> {
    Seq::new(base.len(), |j: int| rotate_cell_n(base[j], around_corner, n))
}

/// Four more quarter turns change nothing.
pub proof fn lemma_turns_have_period_four(c: (int, int), around_corner: bool, n: nat)
    ensures
        rotate_cell_n(c, around_corner, n + 4) == rotate_cell_n(c, around_corner, n),
    decreases n,
{
    if n == 0 {
        lemma_four_turns_are_identity(c, around_corner);
    } else {
        lemma_turns_have_period_four(c, around_corner, (n - 1) as nat);
        assert(rotate_cell_n(c, around_corner, n + 4) == rotate_cell(
            rotate_cell_n(c, around_corner, (n + 3) as nat),
            around_corner,
        ));
    }
}

/// The rotation states form a cycle: where the number of states is a multiple
/// of four, one more quarter turn of the last state gives the base state
/// again; and in any case each state equals the state four before it.
pub proof fn lemma_rotation_cycle(base: Seq<(int, int)>, around_corner: bool, count: nat)
    ensures
        count % 4 == 0 ==> turned_state(base, around_corner, count) == base,
        forall|i: int|
            0 <= i && i + 4 < count ==> (#[trigger] rotation_states(base, around_corner, count)[i
                + 4]) == rotation_states(base, around_corner, count)[i],
        forall|i: int|
            0 <= i < count ==> (#[trigger] rotation_states(base, around_corner, count)[i])
                == turned_state(base, around_corner, i as nat),
    decreases count,
{
    let states = rotation_states(base, around_corner, count);
    assert forall|i: int| 0 <= i && i + 4 < count implies (#[trigger] states[i + 4])
        == states[i] by {
        assert forall|j: int| 0 <= j < base.len() implies states[i + 4][j] == states[i][j] by {
            lemma_turns_have_period_four(base[j], around_corner, i as nat);
        }
        assert(states[i + 4] =~= states[i]);
    }
    assert forall|i: int| 0 <= i < count implies (#[trigger] states[i]) == turned_state(
        base,
        around_corner,
        i as nat,
    ) by {
        assert(states[i] =~= turned_state(base, around_corner, i as nat));
    }
    if count % 4 == 0 {
        if count == 0 {
            assert(turned_state(base, around_corner, 0) =~= base);
        } else {
            lemma_rotation_cycle(base, around_corner, (count - 4) as nat);
            assert forall|j: int| 0 <= j < base.len() implies turned_state(
                base,
                around_corner,
                count,
            )[j] == base[j] by {
                lemma_turns_have_period_four(base[j], around_corner, (count - 4) as nat);
                assert(turned_state(base, around_corner, (count - 4) as nat)[j] == base[j]);
            }
            assert(turned_state(base, around_corner, count) =~= base);
        }
    }
}

} // verus!
