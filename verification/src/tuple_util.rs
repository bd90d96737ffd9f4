use vstd::prelude::*;
use crate::grid_vec::{GridVec, cells_of};

verus! {

/// The mathematical vectors that a sequence of integer pairs stands for.
pub open spec fn tuples_of(s: Seq<(i32, i32)>) -> Seq<(int, int)> {
    Seq::new(s.len(), |i: int| (s[i].0 as int, s[i].1 as int))
}

/// Turns a list of integer pairs into the vectors with the same components, in
/// the same order.
pub fn conv_tuples(list: &[(i32, i32)]) -> (ret: Vec<GridVec>)
    ensures
        ret@.len() == list@.len(),
        forall|i: int| 0 <= i < list@.len() ==> (#[trigger] ret@[i]) == (GridVec { x: list@[i].0, y: list@[i].1 }),
        cells_of(ret@) == tuples_of(list@),
{
    let mut ret: Vec<GridVec> = Vec::new();
    let mut i: usize = 0;
    while i < list.len()
        invariant
            i <= list@.len(),
            ret@.len() == i,
            forall|k: int| 0 <= k < i ==> (#[trigger] ret@[k]) == (GridVec { x: list@[k].0, y: list@[k].1 }),
        decreases list@.len() - i,
    {
        let t = list[i];
        ret.push(GridVec::from(t));
        i += 1;
    }
    assert(cells_of(ret@) =~= tuples_of(list@));
    ret
}

} // verus!
