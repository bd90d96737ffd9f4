use vstd::prelude::*;
use vstd::std_specs::convert::FromSpecImpl;

verus! {

/// A two-dimensional integer vector on the playing grid. It serves both as an
/// absolute cell coordinate and as an offset between cells. Its view is the
/// pair of its components as mathematical integers.
#[derive(Clone, Copy, Debug, PartialEq, Eq, Structural)]
pub struct GridVec {
    pub x: i32,
    pub y: i32,
}

impl View for GridVec {
    type V = (int, int);

    open spec fn view(&self) -> (int, int) {
        (self.x as int, self.y as int)
    }
}

/// Whether both components of a mathematical vector can be held by a `GridVec`.
pub open spec fn representable(c: (int, int)) -> bool {
    i32::MIN <= c.0 <= i32::MAX && i32::MIN <= c.1 <= i32::MAX
}

/// The component-wise sum of two mathematical vectors.
pub open spec fn vec_sum(a: (int, int), b: (int, int)) -> (int, int) {
    (a.0 + b.0, a.1 + b.1)
}

/// The views of a sequence of vectors, one for one.
pub open spec fn cells_of(s: Seq<GridVec>) -> Seq<(int, int)> {
    Seq::new(s.len(), |i: int| s[i]@)
}

impl GridVec {
    pub fn new(x: i32, y: i32) -> (v: GridVec)
        ensures
            v@ == (x as int, y as int),
    {
        GridVec { x, y }
    }

    /// The component-wise sum with `other`, where it can be represented.
    pub fn plus(self, other: GridVec) -> (v: GridVec)
        requires
            representable(vec_sum(self@, other@)),
        ensures
            v@ == vec_sum(self@, other@),
    {
        GridVec { x: self.x + other.x, y: self.y + other.y }
    }

    /// The component-wise sum with `other`, or `None` where a component of it
    /// leaves the range of `i32`.
    pub fn checked_plus(self, other: GridVec) -> (r: Option<GridVec>)
        ensures
            r.is_some() == representable(vec_sum(self@, other@)),
            r.is_some() ==> r.unwrap()@ == vec_sum(self@, other@),
    {
        match (self.x.checked_add(other.x), self.y.checked_add(other.y)) {
            (Some(x), Some(y)) => Some(GridVec { x, y }),
            _ => None,
        }
    }
}

impl From<(i32, i32)> for GridVec {
    fn from(t: (i32, i32)) -> (v: GridVec) {
        GridVec { x: t.0, y: t.1 }
    }
}

impl FromSpecImpl<(i32, i32)> for GridVec {
    open spec fn obeys_from_spec() -> bool {
        true
    }

    open spec fn from_spec(t: (i32, i32)) -> GridVec {
        GridVec { x: t.0, y: t.1 }
    }
}

} // verus!
