use vstd::prelude::*;

use crate::request::{dims_ok, in_bounds, Coord};

verus! {

/// Position of an in-bounds cell in a row-major array.
pub open spec fn cell_index(c: Coord, width: int) -> int {
    c.y * width + c.x
}

/// Every cell of a board of the given size.
pub open spec fn all_cells(width: int, height: int) -> Set<Coord> {
    Set::new(|c: Coord| in_bounds(c, width, height))
}

proof fn lemma_index_bounds(c: Coord, width: int, height: int)
    requires
        in_bounds(c, width, height),
    ensures
        0 <= cell_index(c, width) < width * height,
{
    assert(0 <= c.y * width) by (nonlinear_arith)
        requires
            0 <= c.y,
            0 < width,
    ;
    assert(c.y * width + c.x < width * height) by (nonlinear_arith)
        requires
            0 <= c.x < width,
            0 <= c.y < height,
    ;
}

proof fn lemma_index_injective(a: Coord, b: Coord, width: int, height: int)
    requires
        in_bounds(a, width, height),
        in_bounds(b, width, height),
        cell_index(a, width) == cell_index(b, width),
    ensures
        a == b,
{
    assert(a.y == b.y) by (nonlinear_arith)
        requires
            0 <= a.x < width,
            0 <= b.x < width,
            a.y * width + a.x == b.y * width + b.x,
    ;
}

/// The cells of the first `rows` rows of a board `width` cells wide form a finite
/// set of `width * rows` cells.
proof fn lemma_rows_finite(width: int, rows: int)
    requires
        0 <= width <= i32::MAX,
        0 <= rows <= i32::MAX,
    ensures
        all_cells(width, rows).finite(),
        all_cells(width, rows).len() == width * rows,
    decreases rows,
{
    if rows == 0 {
        assert(all_cells(width, rows) =~= Set::empty());
    } else {
        lemma_rows_finite(width, rows - 1);
        lemma_row_finite(rows - 1, width);
        let row = Set::new(|c: Coord| 0 <= c.x < width && c.y == rows - 1);
        assert(all_cells(width, rows) =~= all_cells(width, rows - 1) + row);
        assert(all_cells(width, rows - 1).disjoint(row));
        vstd::set_lib::lemma_set_disjoint_lens(all_cells(width, rows - 1), row);
        assert(width * (rows - 1) + width == width * rows) by (nonlinear_arith);
    }
}

proof fn lemma_row_finite(y: int, cols: int)
    requires
        0 <= y < i32::MAX,
        0 <= cols <= i32::MAX,
    ensures
        Set::new(|c: Coord| 0 <= c.x < cols && c.y == y).finite(),
        Set::new(|c: Coord| 0 <= c.x < cols && c.y == y).len() == cols,
    decreases cols,
{
    let row = Set::new(|c: Coord| 0 <= c.x < cols && c.y == y);
    if cols == 0 {
        assert(row =~= Set::empty());
    } else {
        lemma_row_finite(y, cols - 1);
        let prev = Set::new(|c: Coord| 0 <= c.x < cols - 1 && c.y == y);
        let last = Coord { x: (cols - 1) as i32, y: y as i32 };
        assert(!prev.contains(last));
        assert(row =~= prev.insert(last));
    }
}

/// A board holds finitely many cells: `width * height` of them.
pub proof fn lemma_all_cells_finite(width: int, height: int)
    requires
        0 <= width <= i32::MAX,
        0 <= height <= i32::MAX,
    ensures
        all_cells(width, height).finite(),
        all_cells(width, height).len() == width * height,
{
    lemma_rows_finite(width, height);
}

/// A set of cells of a board, stored as one flag per cell.
pub struct CellGrid {
    width: usize,
    height: usize,
    cells: Vec<bool>,
    marked: Ghost<Set<Coord>>,
}

impl View for CellGrid {
    type V = Set<Coord>;

    closed spec fn view(&self) -> Set<Coord> {
        self.marked@
    }
}

impl CellGrid {
    /// The width of the board the set belongs to.
    pub closed spec fn width(&self) -> int {
        self.width as int
    }

    /// The height of the board the set belongs to.
    pub closed spec fn height(&self) -> int {
        self.height as int
    }

    /// One flag per board cell, set exactly for the cells of the view.
    pub closed spec fn wf(&self) -> bool {
        &&& dims_ok(self.width as int, self.height as int)
        &&& self.cells@.len() == self.width * self.height
        &&& self.marked@.finite()
        &&& forall|c: Coord| #[trigger]
            self.marked@.contains(c) ==> in_bounds(c, self.width as int, self.height as int)
        &&& forall|c: Coord|
            in_bounds(c, self.width as int, self.height as int) ==> (self.marked@.contains(c)
                <==> #[trigger] self.cells@[cell_index(c, self.width as int)])
    }

    /// The view holds cells of the board only, and is finite.
    pub proof fn lemma_view(&self)
        requires
            self.wf(),
        ensures
            self@.finite(),
            self@.subset_of(all_cells(self.width(), self.height())),
            dims_ok(self.width(), self.height()),
            self@.len() <= all_cells(self.width(), self.height()).len(),
    {
        lemma_all_cells_finite(self.width(), self.height());
        vstd::set_lib::lemma_len_subset(self@, all_cells(self.width(), self.height()));
    }

    /// An empty set of cells for a board of the given size.
    pub fn new(width: u32, height: u32) -> (r: CellGrid)
        requires
            dims_ok(width as int, height as int),
        ensures
            r.wf(),
            r@ == Set::<Coord>::empty(),
            r.width() == width,
            r.height() == height,
    {
        let n: usize = (width as usize) * (height as usize);
        let cells = vec![false; n];
        let r = CellGrid {
            width: width as usize,
            height: height as usize,
            cells,
            marked: Ghost(Set::empty()),
        };
        assert forall|c: Coord| in_bounds(c, r.width as int, r.height as int) implies (
        r.marked@.contains(c) <==> #[trigger] r.cells@[cell_index(c, r.width as int)]) by {
            lemma_index_bounds(c, r.width as int, r.height as int);
        }
        r
    }

    /// Whether the cell is in the set; a cell off the board never is.
    pub fn contains(&self, c: &Coord) -> (r: bool)
        requires
            self.wf(),
        ensures
            r == self@.contains(*c),
    {
        if c.x < 0 || c.y < 0 || c.x as usize >= self.width || c.y as usize >= self.height {
            return false;
        }
        proof {
            lemma_index_bounds(*c, self.width as int, self.height as int);
        }
        let i: usize = (c.y as usize) * self.width + (c.x as usize);
        self.cells[i]
    }

    /// Adds a cell of the board to the set; a cell off the board is ignored.
    pub fn insert(&mut self, c: &Coord)
        requires
            old(self).wf(),
        ensures
            final(self).wf(),
            final(self).width() == old(self).width(),
            final(self).height() == old(self).height(),
            final(self)@ == if in_bounds(*c, old(self).width(), old(self).height()) {
                old(self)@.insert(*c)
            } else {
                old(self)@
            },
    {
        if c.x < 0 || c.y < 0 || c.x as usize >= self.width || c.y as usize >= self.height {
            return ;
        }
        proof {
            lemma_index_bounds(*c, self.width as int, self.height as int);
        }
        let i: usize = (c.y as usize) * self.width + (c.x as usize);
        self.cells.set(i, true);
        self.marked = Ghost(self.marked@.insert(*c));
        assert forall|d: Coord| in_bounds(d, self.width as int, self.height as int) implies (
        self.marked@.contains(d) <==> #[trigger] self.cells@[cell_index(d, self.width as int)]) by {
            lemma_index_bounds(d, self.width as int, self.height as int);
            if cell_index(d, self.width as int) == i {
                lemma_index_injective(d, *c, self.width as int, self.height as int);
            }
        }
    }

    /// Takes a cell out of the set.
    pub fn remove(&mut self, c: &Coord)
        requires
            old(self).wf(),
        ensures
            final(self).wf(),
            final(self).width() == old(self).width(),
            final(self).height() == old(self).height(),
            final(self)@ == old(self)@.remove(*c),
    {
        if c.x < 0 || c.y < 0 || c.x as usize >= self.width || c.y as usize >= self.height {
            assert(self@ =~= self@.remove(*c));
            return ;
        }
        proof {
            lemma_index_bounds(*c, self.width as int, self.height as int);
        }
        let i: usize = (c.y as usize) * self.width + (c.x as usize);
        self.cells.set(i, false);
        self.marked = Ghost(self.marked@.remove(*c));
        assert forall|d: Coord| in_bounds(d, self.width as int, self.height as int) implies (
        self.marked@.contains(d) <==> #[trigger] self.cells@[cell_index(d, self.width as int)]) by {
            lemma_index_bounds(d, self.width as int, self.height as int);
            if cell_index(d, self.width as int) == i {
                lemma_index_injective(d, *c, self.width as int, self.height as int);
            }
        }
    }
}

} // verus!
