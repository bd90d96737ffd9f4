use vstd::prelude::*;
use crate::block_definition::{
    BlockDefinition, LRKicks, all_within, distinct, kick_lists, lemma_small_base_is_buildable,
    rotation_states, states_of,
};
use crate::movable_block::{BlockName, RotDir};
use crate::tuple_util::tuples_of;

verus! {

/// The offsets of a shape's first rotation state.
pub open spec fn base_offsets(name: BlockName) -> Seq<(int, int)> {
    match name {
        BlockName::L => seq![(1, 1), (-1, 0), (0, 0), (1, 0)],
        BlockName::J => seq![(-1, 1), (-1, 0), (0, 0), (1, 0)],
        BlockName::O => seq![(0, 1), (1, 1), (0, 0), (1, 0)],
        BlockName::I => seq![(-2, 0), (-1, 0), (0, 0), (1, 0)],
        BlockName::T => seq![(0, 1), (-1, 0), (0, 0), (1, 0)],
        BlockName::S => seq![(0, 1), (1, 1), (-1, 0), (0, 0)],
        BlockName::Z => seq![(-1, 1), (0, 1), (0, 0), (1, 0)],
        BlockName::Test => seq![(0, 0)],
    }
}

/// The number of a shape's rotation states.
pub open spec fn rotation_count(name: BlockName) -> nat {
    match name {
        BlockName::O => 1,
        BlockName::Test => 1,
        _ => 4,
    }
}

/// Whether a shape turns about a cell's corner. Only the four-long bar does.
pub open spec fn turns_about_corner(name: BlockName) -> bool {
    name == BlockName::I
}

/// The kick candidates of the three-wide shapes, by direction and by the
/// rotation state that the turn leaves.
pub open spec fn standard_kicks(dir: RotDir) -> Seq<Seq<(int, int)>> {
    match dir {
        RotDir::Right => seq![
            seq![(0, 0), (-1, 0), (-1, 1), (0, -2), (-1, -2)],
            seq![(0, 0), (1, 0), (1, -1), (0, 2), (1, 2)],
            seq![(0, 0), (1, 0), (1, 1), (0, -2), (1, -2)],
            seq![(0, 0), (-1, 0), (-1, -1), (0, 2), (-1, 2)],
        ],
        RotDir::Left => seq![
            seq![(0, 0), (1, 0), (1, 1), (0, -2), (1, -2)],
            seq![(0, 0), (1, 0), (1, -1), (0, 2), (1, 2)],
            seq![(0, 0), (-1, 0), (-1, 1), (0, -2), (-1, -2)],
            seq![(0, 0), (-1, 0), (-1, -1), (0, 2), (-1, 2)],
        ],
    }
}

/// The kick candidates of the four-long bar.
pub open spec fn bar_kicks(dir: RotDir) -> Seq<Seq<(int, int)>> {
    match dir {
        RotDir::Right => seq![
            seq![(0, 0), (-2, 0), (1, 0), (-2, -1), (1, 2)],
            seq![(0, 0), (-1, 0), (2, 0), (-1, -2), (2, -1)],
            seq![(0, 0), (2, 0), (-1, 0), (2, 1), (-1, -2)],
            seq![(0, 0), (1, 0), (-2, 0), (1, -2), (-2, 1)],
        ],
        RotDir::Left => seq![
            seq![(0, 0), (-1, 0), (2, 0), (-1, 2), (2, -1)],
            seq![(0, 0), (2, 0), (-1, 0), (2, 1), (-1, -2)],
            seq![(0, 0), (1, 0), (-2, 0), (1, -2), (-2, 1)],
            seq![(0, 0), (-2, 0), (1, 0), (-2, -1), (1, 2)],
        ],
    }
}

/// The kick candidates of a shape with a single rotation state: the plain
/// rotation and nothing else.
pub open spec fn no_kicks() -> Seq<Seq<(int, int)>> {
    seq![seq![(0, 0)]]
}

/// The kick candidates of a shape.
pub open spec fn kick_table(name: BlockName, dir: RotDir) -> Seq<Seq<(int, int)>> {
    match name {
        BlockName::I => bar_kicks(dir),
        BlockName::O => no_kicks(),
        BlockName::Test => no_kicks(),
        _ => standard_kicks(dir),
    }
}

/// Whether `def` is the definition of the shape `name`: its states are the
/// base offsets turned, and its kick tables and pivot are those of the shape.
pub open spec fn describes(name: BlockName, def: BlockDefinition) -> bool {
    &&& def.wf()
    &&& states_of(def.rotations@) == rotation_states(
        base_offsets(name),
        turns_about_corner(name),
        rotation_count(name),
    )
    &&& states_of(def.kicks.right@) == kick_table(name, RotDir::Right)
    &&& states_of(def.kicks.left@) == kick_table(name, RotDir::Left)
    &&& def.around_corner == turns_about_corner(name)
}

fn standard_kick_tables() -> (k: LRKicks)
    ensures
        k.wf(),
        states_of(k.right@) == standard_kicks(RotDir::Right),
        states_of(k.left@) == standard_kicks(RotDir::Left),
{
    let right: [&[(i32, i32)]; 4] = [
        &[(-1, 0), (-1, 1), (0, -2), (-1, -2)],
        &[(1, 0), (1, -1), (0, 2), (1, 2)],
        &[(1, 0), (1, 1), (0, -2), (1, -2)],
        &[(-1, 0), (-1, -1), (0, 2), (-1, 2)],
    ];
    let left: [&[(i32, i32)]; 4] = [
        &[(1, 0), (1, 1), (0, -2), (1, -2)],
        &[(1, 0), (1, -1), (0, 2), (1, 2)],
        &[(-1, 0), (-1, 1), (0, -2), (-1, -2)],
        &[(-1, 0), (-1, -1), (0, 2), (-1, 2)],
    ];
    let k = LRKicks::new(&right, &left);
    proof {
        assert(kick_lists(right@) =~~= standard_kicks(RotDir::Right));
        assert(kick_lists(left@) =~~= standard_kicks(RotDir::Left));
    }
    k
}

fn bar_kick_tables() -> (k: LRKicks)
    ensures
        k.wf(),
        states_of(k.right@) == bar_kicks(RotDir::Right),
        states_of(k.left@) == bar_kicks(RotDir::Left),
{
    let right: [&[(i32, i32)]; 4] = [
        &[(-2, 0), (1, 0), (-2, -1), (1, 2)],
        &[(-1, 0), (2, 0), (-1, -2), (2, -1)],
        &[(2, 0), (-1, 0), (2, 1), (-1, -2)],
        &[(1, 0), (-2, 0), (1, -2), (-2, 1)],
    ];
    let left: [&[(i32, i32)]; 4] = [
        &[(-1, 0), (2, 0), (-1, 2), (2, -1)],
        &[(2, 0), (-1, 0), (2, 1), (-1, -2)],
        &[(1, 0), (-2, 0), (1, -2), (-2, 1)],
        &[(-2, 0), (1, 0), (-2, -1), (1, 2)],
    ];
    let k = LRKicks::new(&right, &left);
    proof {
        assert(kick_lists(right@) =~~= bar_kicks(RotDir::Right));
        assert(kick_lists(left@) =~~= bar_kicks(RotDir::Left));
    }
    k
}

fn no_kick_tables() -> (k: LRKicks)
    ensures
        k.wf(),
        states_of(k.right@) == no_kicks(),
        states_of(k.left@) == no_kicks(),
{
    let right: [&[(i32, i32)]; 1] = [&[]];
    let left: [&[(i32, i32)]; 1] = [&[]];
    let k = LRKicks::new(&right, &left);
    proof {
        assert(kick_lists(right@) =~~= no_kicks());
        assert(kick_lists(left@) =~~= no_kicks());
    }
    k
}

fn three_wide(base: &[(i32, i32)]) -> (def: BlockDefinition)
    requires
        base@.len() == 4,
        all_within(tuples_of(base@), false),
        distinct(tuples_of(base@)),
    ensures
        def.wf(),
        states_of(def.rotations@) == rotation_states(tuples_of(base@), false, 4),
        states_of(def.kicks.right@) == standard_kicks(RotDir::Right),
        states_of(def.kicks.left@) == standard_kicks(RotDir::Left),
        !def.around_corner,
{
    let kicks = standard_kick_tables();
    proof {
        assert(states_of(kicks.right@).len() == kicks.right@.len());
        assert(states_of(kicks.left@).len() == kicks.left@.len());
        lemma_small_base_is_buildable(tuples_of(base@), false, 4);
    }
    BlockDefinition::from_base(4, false, base, kicks)
}

/// The definitions of all shapes, made once and shared by every piece.
#[derive(Debug)]
pub struct ShapeCatalog {
    l: BlockDefinition,
    j: BlockDefinition,
    o: BlockDefinition,
    i: BlockDefinition,
    t: BlockDefinition,
    s: BlockDefinition,
    z: BlockDefinition,
    dot: BlockDefinition,
}

impl ShapeCatalog {
    /// The definition that the catalog holds for `name`.
    pub closed spec fn shape_of(&self, name: BlockName) -> BlockDefinition {
        match name {
            BlockName::L => self.l,
            BlockName::J => self.j,
            BlockName::O => self.o,
            BlockName::I => self.i,
            BlockName::T => self.t,
            BlockName::S => self.s,
            BlockName::Z => self.z,
            BlockName::Test => self.dot,
        }
    }

    /// The catalog holds for every name the definition of that shape.
    pub open spec fn wf(&self) -> bool {
        forall|name: BlockName| describes(name, #[trigger] self.shape_of(name))
    }

    pub fn new() -> (ret: ShapeCatalog)
        ensures
            ret.wf(),
    {
        let l_base: [(i32, i32); 4] = [(1, 1), (-1, 0), (0, 0), (1, 0)];
        let j_base: [(i32, i32); 4] = [(-1, 1), (-1, 0), (0, 0), (1, 0)];
        let o_base: [(i32, i32); 4] = [(0, 1), (1, 1), (0, 0), (1, 0)];
        let i_base: [(i32, i32); 4] = [(-2, 0), (-1, 0), (0, 0), (1, 0)];
        let t_base: [(i32, i32); 4] = [(0, 1), (-1, 0), (0, 0), (1, 0)];
        let s_base: [(i32, i32); 4] = [(0, 1), (1, 1), (-1, 0), (0, 0)];
        let z_base: [(i32, i32); 4] = [(-1, 1), (0, 1), (0, 0), (1, 0)];
        let dot_base: [(i32, i32); 1] = [(0, 0)];
        proof {
            assert(tuples_of(l_base@) =~= base_offsets(BlockName::L));
            assert(tuples_of(j_base@) =~= base_offsets(BlockName::J));
            assert(tuples_of(o_base@) =~= base_offsets(BlockName::O));
            assert(tuples_of(i_base@) =~= base_offsets(BlockName::I));
            assert(tuples_of(t_base@) =~= base_offsets(BlockName::T));
            assert(tuples_of(s_base@) =~= base_offsets(BlockName::S));
            assert(tuples_of(z_base@) =~= base_offsets(BlockName::Z));
            assert(tuples_of(dot_base@) =~= base_offsets(BlockName::Test));
        }
        let l = three_wide(&l_base);
        let j = three_wide(&j_base);
        let t = three_wide(&t_base);
        let s = three_wide(&s_base);
        let z = three_wide(&z_base);
        let o_kicks = no_kick_tables();
        let dot_kicks = no_kick_tables();
        let i_kicks = bar_kick_tables();
        proof {
            assert(states_of(o_kicks.right@).len() == o_kicks.right@.len());
            assert(states_of(o_kicks.left@).len() == o_kicks.left@.len());
            assert(states_of(dot_kicks.right@).len() == dot_kicks.right@.len());
            assert(states_of(dot_kicks.left@).len() == dot_kicks.left@.len());
            assert(states_of(i_kicks.right@).len() == i_kicks.right@.len());
            assert(states_of(i_kicks.left@).len() == i_kicks.left@.len());
            lemma_small_base_is_buildable(tuples_of(o_base@), false, 1);
            lemma_small_base_is_buildable(tuples_of(i_base@), true, 4);
            lemma_small_base_is_buildable(tuples_of(dot_base@), false, 1);
        }
        let o = BlockDefinition::from_base(1, false, &o_base, o_kicks);
        let i = BlockDefinition::from_base(4, true, &i_base, i_kicks);
        let dot = BlockDefinition::from_base(1, false, &dot_base, dot_kicks);
        let ret = ShapeCatalog { l, j, o, i, t, s, z, dot };
        proof {
            assert forall|name: BlockName| describes(name, #[trigger] ret.shape_of(name)) by {
                match name {
                    BlockName::L => {},
                    BlockName::J => {},
                    BlockName::O => {},
                    BlockName::I => {},
                    BlockName::T => {},
                    BlockName::S => {},
                    BlockName::Z => {},
                    BlockName::Test => {},
                }
            }
        }
        ret
    }

    /// The definition of the shape `name`.
    pub fn definition(&self, name: BlockName) -> (def: &BlockDefinition)
        ensures
            *def == self.shape_of(name),
    {
        match name {
            BlockName::L => &self.l,
            BlockName::J => &self.j,
            BlockName::O => &self.o,
            BlockName::I => &self.i,
            BlockName::T => &self.t,
            BlockName::S => &self.s,
            BlockName::Z => &self.z,
            BlockName::Test => &self.dot,
        }
    }
}

} // verus!
