use vstd::prelude::*;
use vstd::arithmetic::div_mod::lemma_fundamental_div_mod_converse;
use std::collections::{HashMap, HashSet};
use crate::block_definition::distinct;
use crate::grid_vec::{GridVec, cells_of, representable, vec_sum};
use crate::movable_block::MovableBlock;

verus! {

/// What a cell of the board holds: nothing, or the reference of the occupant.
/// The board does not look into a reference; it stores it and hands it back.
pub type BoardCell = Option<u64>;

/// The board as rows from the bottom up, each row its cells from the left.
pub type Rows = Seq<Seq<BoardCell>>;

/// A row is full when every cell of it is occupied.
pub open spec fn row_full(row: Seq<BoardCell>) -> bool {
    forall|x: int| 0 <= x < row.len() ==> (#[trigger] row[x]).is_some()
}

/// Whether cell `c` lies on the board.
pub open spec fn on_board(rows: Rows, c: (int, int)) -> bool {
    0 <= c.1 < rows.len() && 0 <= c.0 < rows[c.1].len()
}

/// Whether cell `c` lies on the board and is empty. A cell off the board is
/// never free.
pub open spec fn free_at(rows: Rows, c: (int, int)) -> bool {
    on_board(rows, c) && rows[c.1][c.0].is_none()
}

/// Whether every one of `cells` is free.
pub open spec fn all_free(rows: Rows, cells: Seq<(int, int)>) -> bool {
    forall|k: int| 0 <= k < cells.len() ==> free_at(rows, #[trigger] cells[k])
}

/// A board of the given size with no occupant.
pub open spec fn empty_rows(width: nat, height: nat) -> Rows {
    Seq::new(height, |y: int| empty_row(width))
}

/// Whether `after` is `before` with each of `cells` holding the occupant of
/// the same index in `ents`, and every other cell as it was.
pub open spec fn placed(before: Rows, cells: Seq<(int, int)>, ents: Seq<u64>, after: Rows) -> bool {
    &&& after.len() == before.len()
    &&& forall|y: int| 0 <= y < before.len() ==> (#[trigger] after[y]).len() == before[y].len()
    &&& forall|k: int|
        0 <= k < cells.len() ==> after[(#[trigger] cells[k]).1][cells[k].0] == Some(ents[k])
    &&& forall|x: int, y: int|
        on_board(before, (x, y)) && !cells.contains((x, y)) ==> (#[trigger] after[y][x])
            == before[y][x]
}

/// A row of the given width with no occupant.
pub open spec fn empty_row(width: nat) -> Seq<BoardCell> {
    Seq::new(width, |x: int| None::<u64>)
}

/// The rows that are not full, in their order from the bottom up.
pub open spec fn kept_rows(rows: Rows) -> Rows {
    rows.filter(not_full())
}

/// The test that a row passes when it is not full.
pub open spec fn not_full() -> spec_fn(Seq<BoardCell>) -> bool {
    |r: Seq<BoardCell>| !row_full(r)
}

/// The board after its full rows are taken out: the rows that are not full
/// move down to close the gaps, keeping their order, and empty rows fill the
/// top.
pub open spec fn compacted(rows: Rows, width: nat) -> Rows {
    kept_rows(rows) + Seq::new(
        (rows.len() - kept_rows(rows).len()) as nat,
        |y: int| empty_row(width),
    )
}

/// Whether some cell of `row` holds occupant `e`.
pub open spec fn held_in_row(row: Seq<BoardCell>, e: u64) -> bool {
    exists|x: int| 0 <= x < row.len() && #[trigger] row[x] == Some(e)
}

/// Whether some cell of a full row, at height `from` or above, holds `e`.
pub open spec fn held_in_full_row(rows: Rows, from: int, e: u64) -> bool {
    exists|y: int| from <= y < rows.len() && row_full(#[trigger] rows[y]) && held_in_row(rows[y], e)
}

/// The occupants of the full rows.
pub open spec fn cleared_occupants(rows: Rows) -> Set<u64> {
    Set::new(|e: u64| held_in_full_row(rows, 0, e))
}

/// The lowest full row at height `from` or above, or the number of rows where
/// there is none.
pub open spec fn first_full_row(rows: Rows, from: int) -> int
    decreases rows.len() - from,
{
    if from >= rows.len() {
        rows.len() as int
    } else if from >= 0 && row_full(rows[from]) {
        from
    } else {
        first_full_row(rows, from + 1)
    }
}

/// The order in which the cells of the board are walked: row by row from the
/// bottom, each row from the left.
pub open spec fn row_major_le(a: (int, int), b: (int, int)) -> bool {
    a.1 < b.1 || (a.1 == b.1 && a.0 <= b.0)
}

/// Whether cell `p` lies on the board at height `from` or above and holds `e`.
pub open spec fn holds_above(rows: Rows, from: int, e: u64, p: (int, int)) -> bool {
    on_board(rows, p) && p.1 >= from && rows[p.1][p.0] == Some(e)
}

/// Whether `p` is the last cell in walking order, at height `from` or above,
/// that holds `e`.
pub open spec fn last_holding(rows: Rows, from: int, e: u64, p: (int, int)) -> bool {
    &&& holds_above(rows, from, e, p)
    &&& forall|x: int, y: int| #[trigger]
        holds_above(rows, from, e, (x, y)) ==> row_major_le((x, y), p)
}

/// Whether `moved` reports the occupants that stand at height `from` or above
/// in `after`, and no others, each with the cell where it now stands (the last
/// in walking order, should one occupant hold several cells).
pub open spec fn relocations(after: Rows, from: int, moved: Map<u64, GridVec>) -> bool {
    forall|e: u64| #![trigger moved.contains_key(e)]
        {
            &&& moved.contains_key(e) <==> exists|x: int, y: int| #[trigger]
                holds_above(after, from, e, (x, y))
            &&& moved.contains_key(e) ==> last_holding(after, from, e, moved[e]@)
        }
}

/// The strict walking order of the cells.
pub open spec fn row_major_lt(a: (int, int), b: (int, int)) -> bool {
    a.1 < b.1 || (a.1 == b.1 && a.0 < b.0)
}

/// Whether `listing` names every occupied cell of the board once, with its
/// occupant, in walking order.
pub open spec fn enumerates(rows: Rows, listing: Seq<(GridVec, u64)>) -> bool {
    &&& forall|k: int|
        0 <= k < listing.len() ==> holds_above(rows, 0, (#[trigger] listing[k]).1, listing[k].0@)
    &&& forall|i: int, j: int|
        0 <= i < j < listing.len() ==> row_major_lt(
            (#[trigger] listing[i]).0@,
            (#[trigger] listing[j]).0@,
        )
    &&& forall|x: int, y: int|
        on_board(rows, (x, y)) && (#[trigger] rows[y][x]).is_some() ==> exists|k: int|
            0 <= k < listing.len() && (#[trigger] listing[k]).0@ == (x, y)
}

spec fn before_cursor(p: (int, int), row: int, col: int) -> bool {
    p.1 < row || (p.1 == row && p.0 < col)
}

spec fn holds_before(rows: Rows, from: int, row: int, col: int, e: u64, p: (int, int)) -> bool {
    holds_above(rows, from, e, p) && before_cursor(p, row, col)
}

spec fn progress_for(
    rows: Rows,
    from: int,
    row: int,
    col: int,
    start: Map<u64, GridVec>,
    moved: Map<u64, GridVec>,
    e: u64,
) -> bool {
    if exists|x: int, y: int| #[trigger] holds_before(rows, from, row, col, e, (x, y)) {
        &&& moved.contains_key(e)
        &&& holds_before(rows, from, row, col, e, moved[e]@)
        &&& forall|x: int, y: int| #[trigger]
            holds_before(rows, from, row, col, e, (x, y)) ==> row_major_le((x, y), moved[e]@)
    } else {
        &&& moved.contains_key(e) == start.contains_key(e)
        &&& moved.contains_key(e) ==> moved[e] == start[e]
    }
}

spec fn shift_progress(
    rows: Rows,
    from: int,
    row: int,
    col: int,
    start: Map<u64, GridVec>,
    moved: Map<u64, GridVec>,
) -> bool {
    forall|e: u64| #[trigger] progress_for(rows, from, row, col, start, moved, e)
}

spec fn shifting(c: Rows, rows: Rows, from: int, row: int, col: int) -> bool {
    forall|x: int, y: int|
        on_board(c, (x, y)) ==> (#[trigger] rows[y][x]) == (if y < from {
            c[y][x]
        } else if y < row {
            c[y + 1][x]
        } else if y == row {
            if x < col {
                c[y + 1][x]
            } else {
                None
            }
        } else if y == row + 1 {
            if x < col {
                None
            } else {
                c[y][x]
            }
        } else {
            c[y][x]
        })
}

spec fn same_size(a: Rows, width: nat, height: nat) -> bool {
    a.len() == height && forall|y: int| 0 <= y < height ==> (#[trigger] a[y]).len() == width
}

proof fn lemma_shift_step(
    before: Rows,
    after: Rows,
    width: nat,
    height: nat,
    from: int,
    row: int,
    col: int,
    start: Map<u64, GridVec>,
    m_before: Map<u64, GridVec>,
    m_after: Map<u64, GridVec>,
    pos: GridVec,
)
    requires
        same_size(before, width, height),
        same_size(after, width, height),
        0 <= from <= row < height,
        0 <= col < width,
        pos@ == (col, row),
        forall|x: int, y: int|
            on_board(before, (x, y)) && before_cursor((x, y), row, col) ==> (#[trigger] after[y][x])
                == before[y][x],
        shift_progress(before, from, row, col, start, m_before),
        m_after == (match after[row][col] {
            Some(e) => m_before.insert(e, pos),
            None => m_before,
        }),
    ensures
        shift_progress(after, from, row, col + 1, start, m_after),
{
    let v = after[row][col];
    assert forall|e: u64, x: int, y: int|
        holds_before(before, from, row, col, e, (x, y)) == #[trigger] holds_before(
            after,
            from,
            row,
            col,
            e,
            (x, y),
        ) by {
        if on_board(before, (x, y)) && before_cursor((x, y), row, col) {
            assert(after[y][x] == before[y][x]);
        }
    }
    assert forall|e: u64, x: int, y: int| #[trigger]
        holds_before(after, from, row, col + 1, e, (x, y)) == (holds_before(
            after,
            from,
            row,
            col,
            e,
            (x, y),
        ) || ((x, y) == (col, row) && v == Some(e))) by {}
    assert forall|e: u64| #[trigger]
        progress_for(after, from, row, col + 1, start, m_after, e) by {
        assert(progress_for(before, from, row, col, start, m_before, e));
        let was = exists|x: int, y: int| #[trigger]
            holds_before(before, from, row, col, e, (x, y));
        if v == Some(e) {
            assert(holds_before(after, from, row, col + 1, e, (col, row)));
            assert(m_after[e] == pos);
        } else {
            assert(m_after.contains_key(e) == m_before.contains_key(e));
            assert(m_after.contains_key(e) ==> m_after[e] == m_before[e]);
            if exists|x: int, y: int| #[trigger]
                holds_before(after, from, row, col + 1, e, (x, y)) {
                let (x, y) = choose|x: int, y: int| #[trigger]
                    holds_before(after, from, row, col + 1, e, (x, y));
                assert(holds_before(after, from, row, col, e, (x, y)));
                assert(holds_before(before, from, row, col, e, (x, y)));
                assert(was);
                let q = m_before[e]@;
                assert(holds_before(before, from, row, col, e, q));
                assert(holds_before(after, from, row, col, e, q));
                assert forall|x2: int, y2: int| #[trigger]
                    holds_before(after, from, row, col + 1, e, (x2, y2)) implies row_major_le(
                    (x2, y2),
                    m_after[e]@,
                ) by {
                    assert(holds_before(before, from, row, col, e, (x2, y2)));
                }
            } else {
                if was {
                    let (x, y) = choose|x: int, y: int| #[trigger]
                        holds_before(before, from, row, col, e, (x, y));
                    assert(holds_before(after, from, row, col, e, (x, y)));
                    assert(holds_before(after, from, row, col + 1, e, (x, y)));
                    assert(false);
                }
            }
        }
    }
}

proof fn lemma_cursor_wrap(
    rows: Rows,
    width: nat,
    height: nat,
    from: int,
    row: int,
    start: Map<u64, GridVec>,
    moved: Map<u64, GridVec>,
)
    requires
        same_size(rows, width, height),
        0 <= row < height,
        shift_progress(rows, from, row, width as int, start, moved),
    ensures
        shift_progress(rows, from, row + 1, 0, start, moved),
{
    assert forall|e: u64, x: int, y: int|
        holds_before(rows, from, row, width as int, e, (x, y)) == #[trigger] holds_before(
            rows,
            from,
            row + 1,
            0,
            e,
            (x, y),
        ) by {}
    assert forall|e: u64| #[trigger]
        progress_for(rows, from, row + 1, 0, start, moved, e) by {
        assert(progress_for(rows, from, row, width as int, start, moved, e));
        if exists|x: int, y: int| #[trigger] holds_before(rows, from, row + 1, 0, e, (x, y)) {
            let (x, y) = choose|x: int, y: int| #[trigger]
                holds_before(rows, from, row + 1, 0, e, (x, y));
            assert(holds_before(rows, from, row, width as int, e, (x, y)));
            assert forall|x2: int, y2: int| #[trigger]
                holds_before(rows, from, row + 1, 0, e, (x2, y2)) implies row_major_le(
                (x2, y2),
                moved[e]@,
            ) by {
                assert(holds_before(rows, from, row, width as int, e, (x2, y2)));
            }
        } else {
            if exists|x: int, y: int| #[trigger]
                holds_before(rows, from, row, width as int, e, (x, y)) {
                let (x, y) = choose|x: int, y: int| #[trigger]
                    holds_before(rows, from, row, width as int, e, (x, y));
                assert(holds_before(rows, from, row + 1, 0, e, (x, y)));
            }
        }
    }
}

spec fn index_of(width: int, x: int, y: int) -> int {
    y * width + x
}

spec fn rows_of(cells: Seq<BoardCell>, width: nat, height: nat) -> Rows {
    Seq::new(height, |y: int| Seq::new(width, |x: int| cells[index_of(width as int, x, y)]))
}

proof fn lemma_index(width: int, height: int, x: int, y: int)
    requires
        0 <= x < width,
        0 <= y < height,
    ensures
        0 <= index_of(width, x, y) < width * height,
        index_of(width, x, y) / width == y,
        index_of(width, x, y) % width == x,
        0 <= y * width <= width * height - width,
{
    assert(0 <= y * width) by (nonlinear_arith)
        requires
            0 <= y,
            0 <= width,
    ;
    assert(y * width + width <= width * height) by (nonlinear_arith)
        requires
            y + 1 <= height,
            0 <= width,
    ;
    lemma_fundamental_div_mod_converse(index_of(width, x, y), width, y, x);
}

proof fn lemma_position(width: int, height: int, i: int)
    requires
        0 <= i < width * height,
        0 <= height,
        0 < width,
    ensures
        0 <= i % width < width,
        0 <= i / width < height,
        index_of(width, i % width, i / width) == i,
{
    vstd::arithmetic::div_mod::lemma_fundamental_div_mod(i, width);
    vstd::arithmetic::div_mod::lemma_mod_bound(i, width);
    let q = i / width;
    assert(width * q == q * width) by (nonlinear_arith);
    assert(q >= 0) by (nonlinear_arith)
        requires
            i >= 0,
            width > 0,
            q == i / width,
    ;
    if q >= height {
        assert(q * width >= height * width) by (nonlinear_arith)
            requires
                q >= height,
                width > 0,
        ;
        assert(height * width == width * height) by (nonlinear_arith);
    }
}

proof fn lemma_set_cell(
    cells: Seq<BoardCell>,
    width: nat,
    height: nat,
    x: int,
    y: int,
    v: BoardCell,
)
    requires
        cells.len() == width * height,
        0 <= x < width,
        0 <= y < height,
    ensures
        rows_of(cells.update(index_of(width as int, x, y), v), width, height) == rows_of(
            cells,
            width,
            height,
        ).update(y, rows_of(cells, width, height)[y].update(x, v)),
{
    let w = width as int;
    let h = height as int;
    let new_cells = cells.update(index_of(w, x, y), v);
    let a = rows_of(new_cells, width, height);
    let b = rows_of(cells, width, height).update(y, rows_of(cells, width, height)[y].update(x, v));
    lemma_index(w, h, x, y);
    assert forall|y2: int| 0 <= y2 < h implies a[y2] =~= b[y2] by {
        assert forall|x2: int| 0 <= x2 < w implies a[y2][x2] == b[y2][x2] by {
            lemma_index(w, h, x2, y2);
        }
    }
    assert(a =~= b);
}

/// The occupancy grid: `width` by `height` cells, each empty or holding the
/// reference of its occupant. Its view is the rows from the bottom up.
#[derive(Debug)]
pub struct Board {
    width: usize,
    height: usize,
    cells: Vec<BoardCell>,
}

impl View for Board {
    type V = Rows;

    closed spec fn view(&self) -> Rows {
        rows_of(self.cells@, self.width as nat, self.height as nat)
    }
}

impl Board {
    pub closed spec fn spec_width(&self) -> nat {
        self.width as nat
    }

    pub closed spec fn spec_height(&self) -> nat {
        self.height as nat
    }

    pub closed spec fn storage_fits(&self) -> bool {
        self.cells@.len() == self.width * self.height && self.width * self.height <= usize::MAX
    }

    /// The board holds one cell for each place of the grid, the view has the
    /// board's height in rows and its width in each row, and both sides fit the
    /// coordinates of a `GridVec`.
    pub open spec fn wf(&self) -> bool {
        &&& self.storage_fits()
        &&& self.spec_width() <= i32::MAX
        &&& self.spec_height() <= i32::MAX
        &&& self@.len() == self.spec_height()
        &&& forall|y: int| 0 <= y < self@.len() ==> (#[trigger] self@[y]).len() == self.spec_width()
    }

    /// An empty board of the given size.
    pub fn new(width: usize, height: usize) -> (ret: Board)
        requires
            width * height <= usize::MAX,
            width <= i32::MAX,
            height <= i32::MAX,
        ensures
            ret.wf(),
            ret.spec_width() == width,
            ret.spec_height() == height,
            ret@ == empty_rows(width as nat, height as nat),
    {
        let n = width * height;
        let mut cells: Vec<BoardCell> = Vec::new();
        let mut i: usize = 0;
        while i < n
            invariant
                i <= n,
                cells@.len() == i,
                forall|k: int| 0 <= k < i ==> (#[trigger] cells@[k]).is_none(),
            decreases n - i,
        {
            cells.push(None);
            i += 1;
        }
        let ret = Board { width, height, cells };
        proof {
            assert forall|y: int| 0 <= y < height implies (#[trigger] ret@[y]) =~= empty_rows(
                width as nat,
                height as nat,
            )[y] by {
                assert forall|x: int| 0 <= x < width implies ret@[y][x] == None::<u64> by {
                    lemma_index(width as int, height as int, x, y);
                }
            }
            assert(ret@ =~= empty_rows(width as nat, height as nat));
        }
        ret
    }

    pub fn width(&self) -> (w: usize)
        ensures
            w == self.spec_width(),
    {
        self.width
    }

    pub fn height(&self) -> (h: usize)
        ensures
            h == self.spec_height(),
    {
        self.height
    }

    fn to_idx(&self, vec: GridVec) -> (idx: usize)
        requires
            self.wf(),
            on_board(self@, vec@),
        ensures
            idx == index_of(self.width as int, vec.x as int, vec.y as int),
            idx < self.cells@.len(),
            self.cells@[idx as int] == self@[vec.y as int][vec.x as int],
    {
        proof {
            lemma_index(self.width as int, self.height as int, vec.x as int, vec.y as int);
            assert(self.cells@.len() == self.width * self.height);
            assert(vec.y * self.width + vec.x < self.width * self.height);
        }
        let y = vec.y as usize;
        let x = vec.x as usize;
        assert(self.width * y == vec.y * self.width) by (nonlinear_arith)
            requires
                y == vec.y,
        ;
        self.width * y + x
    }

    fn to_ivec(&self, idx: usize) -> (vec: GridVec)
        requires
            self.wf(),
            idx < self.cells@.len(),
        ensures
            on_board(self@, vec@),
            idx == index_of(self.width as int, vec.x as int, vec.y as int),
            vec.x == idx % self.width,
            vec.y == idx / self.width,
    {
        proof {
            if self.width == 0 {
                assert(self.width * self.height == 0) by (nonlinear_arith)
                    requires
                        self.width == 0,
                ;
            }
            lemma_position(self.width as int, self.height as int, idx as int);
        }
        GridVec::new((idx % self.width) as i32, (idx / self.width) as i32)
    }

    /// What the cell at `loc` holds.
    pub fn cell(&self, loc: GridVec) -> (c: BoardCell)
        requires
            self.wf(),
            on_board(self@, loc@),
        ensures
            c == self@[loc.y as int][loc.x as int],
    {
        let idx = self.to_idx(loc);
        self.cells[idx]
    }

    /// Whether `loc` is taken: off the board, or on it and occupied.
    pub fn is_occupied(&self, loc: GridVec) -> (b: bool)
        requires
            self.wf(),
        ensures
            b == !free_at(self@, loc@),
    {
        if loc.x < 0 || loc.y < 0 || loc.x as usize >= self.width || loc.y as usize
            >= self.height {
            return true;
        }
        if self.cell(loc).is_some() {
            return true;
        }
        false
    }

    /// Whether every cell in row `row` is occupied.
    pub fn is_row_full(&self, row: usize) -> (b: bool)
        requires
            self.wf(),
            row < self.spec_height(),
        ensures
            b == row_full(self@[row as int]),
    {
        let mut col: usize = 0;
        while col < self.width
            invariant
                self.wf(),
                row < self.height,
                col <= self.width,
                forall|x: int| 0 <= x < col ==> (#[trigger] self@[row as int][x]).is_some(),
            decreases self.width - col,
        {
            let loc = GridVec::new(col as i32, row as i32);
            if self.cell(loc).is_none() {
                return false;
            }
            col += 1;
        }
        true
    }

    /// A handle on the cell at `loc`, through which its content can be read
    /// and replaced.
    pub fn cell_mut(&mut self, loc: GridVec) -> (c: &mut BoardCell)
        requires
            old(self).wf(),
            on_board(old(self)@, loc@),
        ensures
            *c == old(self)@[loc.y as int][loc.x as int],
            final(self).wf(),
            final(self).spec_width() == old(self).spec_width(),
            final(self).spec_height() == old(self).spec_height(),
            final(self)@ == old(self)@.update(
                loc.y as int,
                old(self)@[loc.y as int].update(loc.x as int, *final(c)),
            ),
    {
        let idx = self.to_idx(loc);
        proof {
            let cells = self.cells@;
            assert forall|v: BoardCell|
                rows_of(
                    #[trigger] cells.update(idx as int, v),
                    self.width as nat,
                    self.height as nat,
                ) == self@.update(loc.y as int, self@[loc.y as int].update(loc.x as int, v)) by {
                lemma_set_cell(
                    cells,
                    self.width as nat,
                    self.height as nat,
                    loc.x as int,
                    loc.y as int,
                    v,
                );
            }
        }
        &mut self.cells[idx]
    }

    fn set_occupied(&mut self, loc: GridVec, entity: u64)
        requires
            old(self).wf(),
            free_at(old(self)@, loc@),
        ensures
            final(self).wf(),
            final(self).spec_width() == old(self).spec_width(),
            final(self).spec_height() == old(self).spec_height(),
            final(self)@ == old(self)@.update(
                loc.y as int,
                old(self)@[loc.y as int].update(loc.x as int, Some(entity)),
            ),
    {
        *self.cell_mut(loc) = Some(entity);
    }

    /// Whether the piece can stand where it is: every cell that it covers
    /// lies on the board and is empty.
    pub fn can_place(&self, block: &MovableBlock) -> (b: bool)
        requires
            self.wf(),
            block.wf(),
        ensures
            b == all_free(self@, block.cells()),
    {
        let state = &block.definition().rotations[block.rotation_state()];
        let anchor = block.root_position();
        let mut k: usize = 0;
        while k < state.len()
            invariant
                self.wf(),
                k <= state@.len(),
                anchor == block.anchor(),
                cells_of(state@) == block.offsets(),
                forall|m: int| 0 <= m < k ==> free_at(self@, #[trigger] block.cells()[m]),
            decreases state@.len() - k,
        {
            let off = state[k];
            proof {
                assert(cells_of(state@)[k as int] == off@);
                assert(block.cells()[k as int] == vec_sum(anchor@, off@));
            }
            let x: i64 = anchor.x as i64 + off.x as i64;
            let y: i64 = anchor.y as i64 + off.y as i64;
            if x < 0 || y < 0 || x >= self.width as i64 || y >= self.height as i64 {
                return false;
            }
            if self.cell(GridVec::new(x as i32, y as i32)).is_some() {
                return false;
            }
            k += 1;
        }
        true
    }

    /// Writes a landed piece into the board: the cell that the piece covers
    /// with its `k`-th offset takes the `k`-th of `ents`. Every cell of the
    /// piece must be free, which the caller has tested just before.
    pub fn place_block(&mut self, block: &MovableBlock, ents: &[u64])
        requires
            old(self).wf(),
            block.wf(),
            all_free(old(self)@, block.cells()),
            ents@.len() == block.cells().len(),
        ensures
            final(self).wf(),
            final(self).spec_width() == old(self).spec_width(),
            final(self).spec_height() == old(self).spec_height(),
            placed(old(self)@, block.cells(), ents@, final(self)@),
    {
        let ghost before = self@;
        let ghost cells = block.cells();
        proof {
            lemma_cells_distinct(block);
            assert forall|k: int| 0 <= k < cells.len() implies representable(
                #[trigger] cells[k],
            ) by {
                assert(free_at(before, cells[k]));
            }
        }
        let positions = block.positions();
        let mut idx: usize = 0;
        while idx < positions.len()
            invariant
                self.wf(),
                self.spec_width() == old(self).spec_width(),
                self.spec_height() == old(self).spec_height(),
                before == old(self)@,
                old(self).wf(),
                cells == block.cells(),
                cells_of(positions@) == cells,
                positions@.len() == cells.len(),
                ents@.len() == cells.len(),
                idx <= cells.len(),
                all_free(before, cells),
                distinct(cells),
                forall|k: int|
                    0 <= k < idx ==> self@[(#[trigger] cells[k]).1][cells[k].0] == Some(ents@[k]),
                forall|x: int, y: int|
                    on_board(before, (x, y)) && !cells.subrange(0, idx as int).contains((x, y))
                        ==> (#[trigger] self@[y][x]) == before[y][x],
            decreases cells.len() - idx,
        {
            let loc = positions[idx];
            let ghost c = cells[idx as int];
            let ghost prev = self@;
            proof {
                assert(cells_of(positions@)[idx as int] == loc@);
                assert(free_at(before, c));
                assert(!cells.subrange(0, idx as int).contains(c)) by {
                    if cells.subrange(0, idx as int).contains(c) {
                        let j = choose|j: int|
                            0 <= j < idx && cells.subrange(0, idx as int)[j] == c;
                        assert(cells[j] == cells[idx as int]);
                    }
                }
                assert(self@[c.1][c.0] == before[c.1][c.0]);
            }
            self.set_occupied(loc, ents[idx]);
            proof {
                assert forall|k: int| 0 <= k < idx + 1 implies self@[(#[trigger] cells[k]).1][cells[k].0]
                    == Some(ents@[k]) by {
                    if k < idx {
                        assert(cells[k] != c);
                        assert(free_at(before, cells[k]));
                    }
                }
                assert forall|x: int, y: int|
                    on_board(before, (x, y)) && !cells.subrange(0, idx + 1).contains(
                        (x, y),
                    ) implies (#[trigger] self@[y][x]) == before[y][x] by {
                    if cells.subrange(0, idx as int).contains((x, y)) {
                        let j = choose|j: int|
                            0 <= j < idx && cells.subrange(0, idx as int)[j] == (x, y);
                        assert(cells.subrange(0, idx + 1)[j] == (x, y));
                    }
                    if (x, y) == c {
                        assert(cells.subrange(0, idx + 1)[idx as int] == c);
                    }
                    assert(prev[y][x] == before[y][x]);
                }
            }
            idx += 1;
        }
        proof {
            assert(cells.subrange(0, cells.len() as int) =~= cells);
        }
    }
}

/// The cells of a well-formed piece are pairwise different, as the offsets of
/// its rotation state are.
pub proof fn lemma_cells_distinct(block: &MovableBlock)
    requires
        block.wf(),
    ensures
        distinct(block.cells()),
{
    let offsets = block.offsets();
    assert(distinct(offsets));
    assert forall|i: int, j: int| 0 <= i < j < block.cells().len() implies block.cells()[i]
        != block.cells()[j] by {
        assert(offsets[i] != offsets[j]);
    }
}

spec fn held_before(row: Seq<BoardCell>, col: int, e: u64) -> bool {
    exists|x: int| 0 <= x < col && x < row.len() && #[trigger] row[x] == Some(e)
}

impl Board {
    fn clear_row(&mut self, row: usize, cleared: &mut HashSet<u64>)
        requires
            old(self).wf(),
            row < old(self).spec_height(),
        ensures
            final(self).wf(),
            final(self).spec_width() == old(self).spec_width(),
            final(self).spec_height() == old(self).spec_height(),
            final(self)@ == old(self)@.update(row as int, empty_row(old(self).spec_width())),
            forall|e: u64|
                #[trigger] final(cleared)@.contains(e) <==> old(cleared)@.contains(e) || held_in_row(
                    old(self)@[row as int],
                    e,
                ),
    {
        let ghost before = self@;
        let ghost start = cleared@;
        let mut col: usize = 0;
        while col < self.width
            invariant
                self.wf(),
                self.spec_width() == old(self).spec_width(),
                self.spec_height() == old(self).spec_height(),
                before == old(self)@,
                old(self).wf(),
                row < self.height,
                col <= self.width,
                self@ == before.update(row as int, self@[row as int]),
                forall|x: int| 0 <= x < col ==> (#[trigger] self@[row as int][x]).is_none(),
                forall|x: int|
                    col <= x < self.width ==> (#[trigger] self@[row as int][x])
                        == before[row as int][x],
                forall|e: u64|
                    #[trigger] cleared@.contains(e) <==> start.contains(e) || held_before(
                        before[row as int],
                        col as int,
                        e,
                    ),
            decreases self.width - col,
        {
            let pos = GridVec::new(col as i32, row as i32);
            let ghost prev = cleared@;
            let taken = self.cell_mut(pos).take();
            assert(taken == before[row as int][col as int]);
            if let Some(ent) = taken {
                cleared.insert(ent);
            }
            proof {
                assert(self@ =~= before.update(row as int, self@[row as int]));
                assert forall|e: u64|
                    #[trigger] cleared@.contains(e) <==> start.contains(e) || held_before(
                        before[row as int],
                        col + 1,
                        e,
                    ) by {
                    assert(prev.contains(e) <==> start.contains(e) || held_before(
                        before[row as int],
                        col as int,
                        e,
                    ));
                    if held_before(before[row as int], col + 1, e) {
                        let x = choose|x: int|
                            0 <= x < col + 1 && x < before[row as int].len()
                                && #[trigger] before[row as int][x] == Some(e);
                        if x < col {
                            assert(held_before(before[row as int], col as int, e));
                        }
                    }
                    if held_before(before[row as int], col as int, e) {
                        let x = choose|x: int|
                            0 <= x < col && x < before[row as int].len()
                                && #[trigger] before[row as int][x] == Some(e);
                        assert(before[row as int][x] == Some(e));
                    }
                    if taken == Some(e) {
                        assert(before[row as int][col as int] == Some(e));
                    }
                }
            }
            col += 1;
        }
        proof {
            assert(self@[row as int] =~= empty_row(self.spec_width()));
            assert forall|e: u64|
                held_before(before[row as int], self.width as int, e) == held_in_row(
                    before[row as int],
                    e,
                ) by {
                if held_in_row(before[row as int], e) {
                    let x = choose|x: int|
                        0 <= x < before[row as int].len() && #[trigger] before[row as int][x]
                            == Some(e);
                    assert(before[row as int][x] == Some(e));
                }
                if held_before(before[row as int], self.width as int, e) {
                    let x = choose|x: int|
                        0 <= x < self.width && x < before[row as int].len()
                            && #[trigger] before[row as int][x] == Some(e);
                    assert(before[row as int][x] == Some(e));
                }
            }
        }
    }
}

proof fn lemma_kept_prepend(row: Seq<BoardCell>, tail: Rows)
    ensures
        kept_rows(seq![row] + tail) == (if row_full(row) {
            kept_rows(tail)
        } else {
            seq![row] + kept_rows(tail)
        }),
        kept_rows(tail).len() <= tail.len(),
{
    reveal_with_fuel(Seq::filter, 2);
    let one = seq![row];
    Seq::filter_distributes_over_add(one, tail, not_full());
    assert(one.drop_last() =~= Seq::<Seq<BoardCell>>::empty());
    assert(one.last() == row);
    if row_full(row) {
        assert(one.filter(not_full()) =~= Seq::<Seq<BoardCell>>::empty());
        assert(one.filter(not_full()) + tail.filter(not_full()) =~= tail.filter(not_full()));
    } else {
        assert(one.filter(not_full()) =~= one);
    }
    tail.lemma_filter_len(not_full());
}

proof fn lemma_first_full_row_bounds(rows: Rows, from: int)
    requires
        0 <= from <= rows.len(),
    ensures
        from <= first_full_row(rows, from) <= rows.len(),
        first_full_row(rows, from) < rows.len() ==> row_full(rows[first_full_row(rows, from)]),
        forall|y: int| from <= y < first_full_row(rows, from) ==> !row_full(#[trigger] rows[y]),
    decreases rows.len() - from,
{
    if from < rows.len() && !row_full(rows[from]) {
        lemma_first_full_row_bounds(rows, from + 1);
    }
}

impl Board {
    fn shift_rows_down(&mut self, row: usize, moved: &mut HashMap<u64, GridVec>)
        requires
            old(self).wf(),
            row < old(self).spec_height(),
            old(self)@[row as int] == empty_row(old(self).spec_width()),
        ensures
            final(self).wf(),
            final(self).spec_width() == old(self).spec_width(),
            final(self).spec_height() == old(self).spec_height(),
            final(self)@ == old(self)@.remove(row as int).push(empty_row(old(self).spec_width())),
            shift_progress(
                final(self)@,
                row as int,
                old(self).spec_height() as int,
                0,
                old(moved)@,
                final(moved)@,
            ),
    {
        let ghost c = self@;
        let ghost start = moved@;
        let ghost w = self.spec_width();
        let ghost h = self.spec_height();
        let mut row_: usize = row;
        proof {
            assert forall|e: u64| #[trigger]
                progress_for(self@, row as int, row as int, 0, start, moved@, e) by {
                if exists|x: int, y: int| #[trigger]
                    holds_before(self@, row as int, row as int, 0, e, (x, y)) {
                    let (x, y) = choose|x: int, y: int| #[trigger]
                        holds_before(self@, row as int, row as int, 0, e, (x, y));
                    assert(false);
                }
            }
        }
        while row_ < self.height - 1
            invariant
                self.wf(),
                self.spec_width() == w,
                self.spec_height() == h,
                old(self).wf(),
                old(self).spec_width() == w,
                old(self).spec_height() == h,
                c == old(self)@,
                row <= row_ < h,
                shifting(c, self@, row as int, row_ as int, 0),
                shift_progress(self@, row as int, row_ as int, 0, start, moved@),
            decreases h - row_,
        {
            let mut col: usize = 0;
            while col < self.width
                invariant
                    self.wf(),
                    self.spec_width() == w,
                    self.spec_height() == h,
                    old(self).wf(),
                    old(self).spec_width() == w,
                    old(self).spec_height() == h,
                    c == old(self)@,
                    row <= row_ < h - 1,
                    col <= w,
                    shifting(c, self@, row as int, row_ as int, col as int),
                    shift_progress(self@, row as int, row_ as int, col as int, start, moved@),
                decreases w - col,
            {
                let from = GridVec::new(col as i32, (row_ + 1) as i32);
                let to = GridVec::new(col as i32, row_ as i32);
                let ghost prev = self@;
                let ghost m_prev = moved@;
                let cell = self.cell(from);
                if let Some(ent) = cell {
                    moved.insert(ent, to);
                }
                *self.cell_mut(to) = cell;
                *self.cell_mut(from) = None;
                proof {
                    assert(same_size(prev, w, h));
                    assert(same_size(self@, w, h));
                    assert(self@[row_ as int][col as int] == cell);
                    lemma_shift_step(
                        prev,
                        self@,
                        w,
                        h,
                        row as int,
                        row_ as int,
                        col as int,
                        start,
                        m_prev,
                        moved@,
                        to,
                    );
                    assert forall|x: int, y: int| on_board(c, (x, y)) implies (
                    #[trigger] self@[y][x]) == (if y < row {
                        c[y][x]
                    } else if y < row_ {
                        c[y + 1][x]
                    } else if y == row_ {
                        if x < col + 1 {
                            c[y + 1][x]
                        } else {
                            None
                        }
                    } else if y == row_ + 1 {
                        if x < col + 1 {
                            None
                        } else {
                            c[y][x]
                        }
                    } else {
                        c[y][x]
                    }) by {}
                }
                col += 1;
            }
            proof {
                lemma_cursor_wrap(self@, w, h, row as int, row_ as int, start, moved@);
                assert forall|x: int, y: int| on_board(c, (x, y)) implies (#[trigger] self@[y][x])
                    == (if y < row {
                    c[y][x]
                } else if y < row_ + 1 {
                    c[y + 1][x]
                } else if y == row_ + 1 {
                    None
                } else {
                    c[y][x]
                }) by {}
            }
            row_ += 1;
        }
        proof {
            let target = c.remove(row as int).push(empty_row(w));
            assert(self@.len() == target.len());
            assert forall|y: int| 0 <= y < h implies (#[trigger] self@[y]) == target[y] by {
                assert forall|x: int| 0 <= x < w implies self@[y][x] == target[y][x] by {
                    assert(on_board(c, (x, y)));
                }
                assert(self@[y] =~= target[y]);
            }
            assert(self@ =~= target);
            assert forall|e: u64| #[trigger]
                progress_for(self@, row as int, h as int, 0, start, moved@, e) by {
                assert(progress_for(self@, row as int, row_ as int, 0, start, moved@, e));
                assert forall|x: int, y: int|
                    holds_before(self@, row as int, row_ as int, 0, e, (x, y))
                        == #[trigger] holds_before(self@, row as int, h as int, 0, e, (x, y)) by {}
                if exists|x: int, y: int| #[trigger]
                    holds_before(self@, row as int, h as int, 0, e, (x, y)) {
                    let (x, y) = choose|x: int, y: int| #[trigger]
                        holds_before(self@, row as int, h as int, 0, e, (x, y));
                    assert(holds_before(self@, row as int, row_ as int, 0, e, (x, y)));
                    assert forall|x2: int, y2: int| #[trigger]
                        holds_before(self@, row as int, h as int, 0, e, (x2, y2)) implies row_major_le(
                        (x2, y2),
                        moved@[e]@,
                    ) by {
                        assert(holds_before(self@, row as int, row_ as int, 0, e, (x2, y2)));
                    }
                } else {
                    if exists|x: int, y: int| #[trigger]
                        holds_before(self@, row as int, row_ as int, 0, e, (x, y)) {
                        let (x, y) = choose|x: int, y: int| #[trigger]
                            holds_before(self@, row as int, row_ as int, 0, e, (x, y));
                        assert(holds_before(self@, row as int, h as int, 0, e, (x, y)));
                    }
                }
            }
        }
    }
}

impl Board {
    /// Takes every full row out of the board. The rows are tested from the top
    /// down; a full row is emptied, its occupants are reported as removed, and
    /// every row above it moves down by one, each occupant that moves being
    /// reported with its new cell. Returns the removed occupants and the new
    /// cells of the moved ones.
    pub fn clear_filled_lines(&mut self) -> (ret: (HashSet<u64>, HashMap<u64, GridVec>))
        requires
            old(self).wf(),
        ensures
            final(self).wf(),
            final(self).spec_width() == old(self).spec_width(),
            final(self).spec_height() == old(self).spec_height(),
            final(self)@ == compacted(old(self)@, old(self).spec_width()),
            ret.0@ == cleared_occupants(old(self)@),
            relocations(final(self)@, first_full_row(old(self)@, 0), ret.1@),
    {
        let ghost r0 = self@;
        let ghost w = self.spec_width();
        let ghost h = self.spec_height();
        let mut cleared_entities: HashSet<u64> = HashSet::new();
        let mut moved_entities: HashMap<u64, GridVec> = HashMap::new();
        let mut remaining: usize = self.height;
        proof {
            assert(self@.subrange(h as int, h as int) =~= Seq::<Seq<BoardCell>>::empty());
            reveal_with_fuel(Seq::filter, 1);
            assert(compacted(r0.subrange(h as int, h as int), w) =~= Seq::<
                Seq<BoardCell>,
            >::empty());
        }
        while remaining > 0
            invariant
                self.wf(),
                self.spec_width() == w,
                self.spec_height() == h,
                old(self).wf(),
                old(self).spec_width() == w,
                old(self).spec_height() == h,
                r0 == old(self)@,
                remaining <= h,
                forall|y: int| 0 <= y < remaining ==> (#[trigger] self@[y]) == r0[y],
                self@.subrange(remaining as int, h as int) == compacted(
                    r0.subrange(remaining as int, h as int),
                    w,
                ),
                forall|e: u64|
                    #[trigger] cleared_entities@.contains(e) <==> held_in_full_row(
                        r0,
                        remaining as int,
                        e,
                    ),
                relocations(self@, first_full_row(r0, remaining as int), moved_entities@),
            decreases remaining,
        {
            let row: usize = remaining - 1;
            let ghost c = self@;
            let ghost tail = r0.subrange(remaining as int, h as int);
            let ghost cleared_before = cleared_entities@;
            let ghost moved_before = moved_entities@;
            proof {
                lemma_kept_prepend(r0[row as int], tail);
                assert(r0.subrange(row as int, h as int) =~= seq![r0[row as int]] + tail);
                lemma_first_full_row_bounds(r0, remaining as int);
            }
            if self.is_row_full(row) {
                self.clear_row(row, &mut cleared_entities);
                let ghost emptied = self@;
                self.shift_rows_down(row, &mut moved_entities);
                proof {
                    let f_old = first_full_row(r0, remaining as int);
                    assert(first_full_row(r0, row as int) == row);
                    assert(self@ == c.remove(row as int).push(empty_row(w))) by {
                        assert(emptied.remove(row as int) =~= c.remove(row as int));
                    }
                    assert(self@.subrange(row as int, h as int) =~= compacted(
                        r0.subrange(row as int, h as int),
                        w,
                    )) by {
                        let old_sub = c.subrange(remaining as int, h as int);
                        assert(self@.subrange(row as int, h as int) =~= old_sub.push(
                            empty_row(w),
                        ));
                    }
                    assert forall|e: u64|
                        #[trigger] cleared_entities@.contains(e) <==> held_in_full_row(
                            r0,
                            row as int,
                            e,
                        ) by {
                        assert(cleared_before.contains(e) <==> held_in_full_row(
                            r0,
                            remaining as int,
                            e,
                        ));
                        lemma_held_in_full_row_step(r0, row as int, e);
                    }
                    assert forall|e: u64| #![trigger moved_entities@.contains_key(e)]
                        {
                            &&& moved_entities@.contains_key(e) <==> exists|x: int, y: int| #[trigger]
                                holds_above(self@, row as int, e, (x, y))
                            &&& moved_entities@.contains_key(e) ==> last_holding(
                                self@,
                                row as int,
                                e,
                                moved_entities@[e]@,
                            )
                        } by {
                        assert(progress_for(
                            self@,
                            row as int,
                            h as int,
                            0,
                            moved_before,
                            moved_entities@,
                            e,
                        ));
                        assert forall|x: int, y: int|
                            holds_before(self@, row as int, h as int, 0, e, (x, y))
                                == #[trigger] holds_above(self@, row as int, e, (x, y)) by {}
                        if exists|x: int, y: int| #[trigger]
                            holds_above(self@, row as int, e, (x, y)) {
                            let (x, y) = choose|x: int, y: int| #[trigger]
                                holds_above(self@, row as int, e, (x, y));
                            assert(holds_before(self@, row as int, h as int, 0, e, (x, y)));
                            assert forall|x2: int, y2: int| #[trigger]
                                holds_above(self@, row as int, e, (x2, y2)) implies row_major_le(
                                (x2, y2),
                                moved_entities@[e]@,
                            ) by {
                                assert(holds_before(self@, row as int, h as int, 0, e, (x2, y2)));
                            }
                        } else {
                            if exists|x: int, y: int| #[trigger]
                                holds_before(self@, row as int, h as int, 0, e, (x, y)) {
                                let (x, y) = choose|x: int, y: int| #[trigger]
                                    holds_before(self@, row as int, h as int, 0, e, (x, y));
                                assert(holds_above(self@, row as int, e, (x, y)));
                            }
                            if moved_before.contains_key(e) {
                                let (x, y) = choose|x: int, y: int| #[trigger]
                                    holds_above(c, f_old, e, (x, y));
                                assert(self@[y - 1] == c[y]);
                                assert(holds_above(self@, row as int, e, (x, y - 1)));
                            }
                        }
                    }
                }
            } else {
                proof {
                    assert(first_full_row(r0, row as int) == first_full_row(r0, remaining as int));
                    assert(self@.subrange(row as int, h as int) =~= seq![self@[row as int]]
                        + self@.subrange(remaining as int, h as int));
                    assert(self@.subrange(row as int, h as int) =~= compacted(
                        r0.subrange(row as int, h as int),
                        w,
                    ));
                    assert forall|e: u64|
                        #[trigger] cleared_entities@.contains(e) <==> held_in_full_row(
                            r0,
                            row as int,
                            e,
                        ) by {
                        lemma_held_in_full_row_step(r0, row as int, e);
                    }
                }
            }
            remaining -= 1;
        }
        proof {
            assert(self@.subrange(0, h as int) =~= self@);
            assert(r0.subrange(0, h as int) =~= r0);
            assert(cleared_entities@ =~= cleared_occupants(r0));
        }
        (cleared_entities, moved_entities)
    }
}

proof fn lemma_held_in_full_row_step(rows: Rows, row: int, e: u64)
    requires
        0 <= row < rows.len(),
    ensures
        held_in_full_row(rows, row, e) <==> held_in_full_row(rows, row + 1, e) || (row_full(
            rows[row],
        ) && held_in_row(rows[row], e)),
{
    if held_in_full_row(rows, row, e) {
        let y = choose|y: int|
            row <= y < rows.len() && row_full(#[trigger] rows[y]) && held_in_row(rows[y], e);
        if y > row {
            assert(row + 1 <= y < rows.len() && row_full(rows[y]) && held_in_row(rows[y], e));
        }
    }
    if held_in_full_row(rows, row + 1, e) {
        let y = choose|y: int|
            row + 1 <= y < rows.len() && row_full(#[trigger] rows[y]) && held_in_row(rows[y], e);
        assert(row <= y < rows.len() && row_full(rows[y]) && held_in_row(rows[y], e));
    }
    if row_full(rows[row]) && held_in_row(rows[row], e) {
        assert(row <= row < rows.len() && row_full(rows[row]) && held_in_row(rows[row], e));
    }
}

proof fn lemma_index_order(width: int, height: int, a: (int, int), b: (int, int))
    requires
        0 <= a.0 < width,
        0 <= a.1 < height,
        0 <= b.0 < width,
        0 <= b.1 < height,
        index_of(width, a.0, a.1) < index_of(width, b.0, b.1),
    ensures
        row_major_lt(a, b),
{
    if a.1 > b.1 {
        assert(a.1 * width >= (b.1 + 1) * width) by (nonlinear_arith)
            requires
                a.1 >= b.1 + 1,
                width >= 0,
        ;
        assert((b.1 + 1) * width == b.1 * width + width) by (nonlinear_arith);
    }
}

impl Board {
    /// The occupied cells with their occupants, row by row from the bottom,
    /// each row from the left.
    pub fn iter_ents(&self) -> (ret: Vec<(GridVec, u64)>)
        requires
            self.wf(),
        ensures
            enumerates(self@, ret@),
    {
        let mut ret: Vec<(GridVec, u64)> = Vec::new();
        let n = self.cells.len();
        let ghost w = self.width as int;
        let ghost h = self.height as int;
        let mut idx: usize = 0;
        while idx < n
            invariant
                self.wf(),
                n == self.cells@.len(),
                w == self.width,
                h == self.height,
                idx <= n,
                forall|k: int|
                    0 <= k < ret@.len() ==> holds_above(
                        self@,
                        0,
                        (#[trigger] ret@[k]).1,
                        ret@[k].0@,
                    ) && index_of(w, ret@[k].0.x as int, ret@[k].0.y as int) < idx,
                forall|i: int, j: int|
                    0 <= i < j < ret@.len() ==> index_of(
                        w,
                        (#[trigger] ret@[i]).0.x as int,
                        ret@[i].0.y as int,
                    ) < index_of(w, (#[trigger] ret@[j]).0.x as int, ret@[j].0.y as int),
                forall|i: int|
                    0 <= i < idx && (#[trigger] self.cells@[i]).is_some() ==> exists|k: int|
                        0 <= k < ret@.len() && index_of(
                            w,
                            (#[trigger] ret@[k]).0.x as int,
                            ret@[k].0.y as int,
                        ) == i,
            decreases n - idx,
        {
            if let Some(ent) = self.cells[idx] {
                let pos = self.to_ivec(idx);
                let ghost prev = ret@;
                ret.push((pos, ent));
                proof {
                    assert forall|i: int|
                        0 <= i < idx + 1 && (#[trigger] self.cells@[i]).is_some() implies exists|
                        k: int,
                    |
                        0 <= k < ret@.len() && index_of(
                            w,
                            (#[trigger] ret@[k]).0.x as int,
                            ret@[k].0.y as int,
                        ) == i by {
                        if i < idx {
                            let k = choose|k: int|
                                0 <= k < prev.len() && index_of(
                                    w,
                                    (#[trigger] prev[k]).0.x as int,
                                    prev[k].0.y as int,
                                ) == i;
                            assert(ret@[k] == prev[k]);
                        } else {
                            assert(ret@[prev.len() as int] == (pos, ent));
                        }
                    }
                }
            }
            idx += 1;
        }
        proof {
            assert forall|i: int, j: int| 0 <= i < j < ret@.len() implies row_major_lt(
                (#[trigger] ret@[i]).0@,
                (#[trigger] ret@[j]).0@,
            ) by {
                lemma_index_order(w, h, ret@[i].0@, ret@[j].0@);
            }
            assert forall|x: int, y: int|
                on_board(self@, (x, y)) && (#[trigger] self@[y][x]).is_some() implies exists|
                k: int,
            |
                0 <= k < ret@.len() && (#[trigger] ret@[k]).0@ == (x, y) by {
                lemma_index(w, h, x, y);
                let i = index_of(w, x, y);
                assert(self.cells@[i].is_some());
                let k = choose|k: int|
                    0 <= k < ret@.len() && index_of(
                        w,
                        (#[trigger] ret@[k]).0.x as int,
                        ret@[k].0.y as int,
                    ) == i;
                lemma_index(w, h, ret@[k].0.x as int, ret@[k].0.y as int);
            }
        }
        ret
    }
}

/// A piece with a cell left of, right of, under or over the board cannot be
/// placed.
pub proof fn lemma_off_board_cell_blocks(board: Board, cells: Seq<(int, int)>, k: int)
    requires
        board.wf(),
        0 <= k < cells.len(),
        cells[k].0 < 0 || cells[k].0 >= board.spec_width() || cells[k].1 < 0 || cells[k].1
            >= board.spec_height(),
    ensures
        !all_free(board@, cells),
{
    assert(!free_at(board@, cells[k]));
}

/// Once a piece is placed, none of its cells is free, so that a piece with at
/// least one cell cannot be placed there again.
pub proof fn lemma_placed_cells_are_taken(
    before: Rows,
    cells: Seq<(int, int)>,
    ents: Seq<u64>,
    after: Rows,
)
    requires
        placed(before, cells, ents, after),
    ensures
        forall|k: int| 0 <= k < cells.len() ==> !free_at(after, #[trigger] cells[k]),
        cells.len() > 0 ==> !all_free(after, cells),
{
    if cells.len() > 0 {
        assert(!free_at(after, cells[0]));
    }
}

/// Where no row is full, all rows are kept.
pub proof fn lemma_kept_rows_without_full(rows: Rows)
    requires
        forall|y: int| 0 <= y < rows.len() ==> !row_full(#[trigger] rows[y]),
    ensures
        kept_rows(rows) == rows,
    decreases rows.len(),
{
    reveal_with_fuel(Seq::filter, 2);
    if rows.len() > 0 {
        lemma_kept_rows_without_full(rows.drop_last());
        assert(rows.drop_last().push(rows.last()) =~= rows);
    } else {
        assert(kept_rows(rows) =~= rows);
    }
}

/// Where every row is full, no row is kept.
pub proof fn lemma_kept_rows_all_full(rows: Rows)
    requires
        forall|y: int| 0 <= y < rows.len() ==> row_full(#[trigger] rows[y]),
    ensures
        kept_rows(rows).len() == 0,
    decreases rows.len(),
{
    reveal_with_fuel(Seq::filter, 2);
    if rows.len() > 0 {
        lemma_kept_rows_all_full(rows.drop_last());
    }
}

/// Clearing the full rows of an empty board leaves it empty, removes no
/// occupant and moves none.
pub proof fn lemma_clearing_empty_board(width: nat, height: nat, moved: Map<u64, GridVec>)
    requires
        relocations(
            compacted(empty_rows(width, height), width),
            first_full_row(empty_rows(width, height), 0),
            moved,
        ),
    ensures
        compacted(empty_rows(width, height), width) == empty_rows(width, height),
        cleared_occupants(empty_rows(width, height)) == Set::<u64>::empty(),
        moved == Map::<u64, GridVec>::empty(),
{
    let rows = empty_rows(width, height);
    if width == 0 {
        assert forall|y: int| 0 <= y < rows.len() implies row_full(#[trigger] rows[y]) by {}
        lemma_kept_rows_all_full(rows);
        assert(kept_rows(rows) =~= Seq::<Seq<BoardCell>>::empty());
    } else {
        assert forall|y: int| 0 <= y < rows.len() implies !row_full(#[trigger] rows[y]) by {
            assert(!rows[y][0].is_some());
        }
        lemma_kept_rows_without_full(rows);
    }
    assert(compacted(rows, width) =~= rows);
    assert forall|e: u64| !cleared_occupants(rows).contains(e) by {
        if held_in_full_row(rows, 0, e) {
            let y = choose|y: int|
                0 <= y < rows.len() && row_full(#[trigger] rows[y]) && held_in_row(rows[y], e);
            let x = choose|x: int| 0 <= x < rows[y].len() && #[trigger] rows[y][x] == Some(e);
            assert(rows[y][x].is_none());
        }
    }
    assert(cleared_occupants(rows) =~= Set::<u64>::empty());
    let from = first_full_row(rows, 0);
    assert forall|e: u64| !moved.contains_key(e) by {
        if moved.contains_key(e) {
            let (x, y) = choose|x: int, y: int| #[trigger]
                holds_above(compacted(rows, width), from, e, (x, y));
            assert(rows[y][x].is_none());
        }
    }
    assert(moved =~= Map::<u64, GridVec>::empty());
}

/// After the full rows are cleared, no row of a board with at least one
/// column is full, and the board has the size it had.
pub proof fn lemma_compacted_has_no_full_row(rows: Rows, width: nat)
    requires
        width > 0,
        forall|y: int| 0 <= y < rows.len() ==> (#[trigger] rows[y]).len() == width,
    ensures
        compacted(rows, width).len() == rows.len(),
        forall|y: int|
            0 <= y < rows.len() ==> (#[trigger] compacted(rows, width)[y]).len() == width
                && !row_full(compacted(rows, width)[y]),
{
    let kept = kept_rows(rows);
    rows.lemma_filter_len(not_full());
    assert forall|y: int| 0 <= y < rows.len() implies (#[trigger] compacted(rows, width)[y]).len()
        == width && !row_full(compacted(rows, width)[y]) by {
        if y < kept.len() {
            rows.lemma_filter_pred(not_full(), y);
            assert(kept.contains(kept[y]));
            rows.lemma_filter_contains_rev(not_full(), kept[y]);
            let i = choose|i: int| 0 <= i < rows.len() && rows[i] == kept[y];
            assert(rows[i].len() == width);
        } else {
            assert(compacted(rows, width)[y] == empty_row(width));
            assert(!empty_row(width)[0].is_some());
        }
    }
}

} // verus!
