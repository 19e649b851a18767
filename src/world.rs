use vstd::prelude::*;

verus! {

/// A rectangular grid of cells, each dead (`false`) or alive (`true`),
/// stored row by row: the cell at column `x` of row `y` sits at
/// `y * width + x`.
#[derive(Debug, Clone)]
pub struct World {
    width: usize,
    height: usize,
    pub cells: Vec<bool>,
}

/// Index of the cell at `(x, y)` in a row-major buffer of the given width.
pub open spec fn cell_index(width: int, x: int, y: int) -> int {
    y * width + x
}

/// `cells` with the run starting at index `head` replaced by `run`; `cells`
/// itself where the run would not fit.
pub open spec fn spliced(cells: Seq<bool>, head: int, run: Seq<bool>) -> Seq<bool> {
    if 0 <= head && head + run.len() <= cells.len() {
        cells.subrange(0, head) + run + cells.subrange(head + run.len(), cells.len() as int)
    } else {
        cells
    }
}

impl World {
    pub closed spec fn spec_width(&self) -> nat {
        self.width as nat
    }

    pub closed spec fn spec_height(&self) -> nat {
        self.height as nat
    }

    /// The cells in row-major order.
    pub closed spec fn spec_cells(&self) -> Seq<bool> {
        self.cells@
    }

    /// The buffer always holds exactly one cell per coordinate, and every
    /// coordinate can be written as an `isize`.
    pub open spec fn wf(&self) -> bool {
        &&& self.spec_cells().len() == self.spec_width() * self.spec_height()
        &&& self.spec_width() * self.spec_height() <= usize::MAX
        &&& self.spec_width() <= isize::MAX
        &&& self.spec_height() <= isize::MAX
    }

    /// Whether `(x, y)` lies on the grid.
    pub open spec fn contains(&self, x: int, y: int) -> bool {
        0 <= x < self.spec_width() && 0 <= y < self.spec_height()
    }

    /// The state of the cell at `(x, y)`; every cell off the grid is dead.
    pub open spec fn live_at(&self, x: int, y: int) -> bool {
        if self.contains(x, y) {
            self.spec_cells()[cell_index(self.spec_width() as int, x, y)]
        } else {
            false
        }
    }

    /// An all-dead grid of `width` columns and `height` rows.
    pub fn new(width: usize, height: usize) -> (r: World)
        requires
            width * height <= usize::MAX,
            width <= isize::MAX,
            height <= isize::MAX,
        ensures
            r.wf(),
            r.spec_width() == width,
            r.spec_height() == height,
            r.spec_cells() == Seq::new((width * height) as nat, |i: int| false),
    {
        let count = width * height;
        let cells = vec![false; count];
        proof {
            assert(cells@ =~= Seq::new((width * height) as nat, |i: int| false));
        }
        World { width, height, cells }
    }

    pub fn width(&self) -> (r: usize)
        ensures
            r == self.spec_width(),
    {
        self.width
    }

    pub fn height(&self) -> (r: usize)
        ensures
            r == self.spec_height(),
    {
        self.height
    }

    /// A copy of the cells, row-major.
    pub fn snapshot(&self) -> (r: Vec<bool>)
        ensures
            r@ == self.spec_cells(),
    {
        let r = self.cells.clone();
        proof {
            assert(r@ =~= self.cells@);
        }
        r
    }

    /// The coordinates as unsigned numbers when `(x, y)` lies on the grid.
    pub fn is_in(&self, x: isize, y: isize) -> (r: Result<(usize, usize), ()>)
        ensures
            self.contains(x as int, y as int) <==> r is Ok,
            r matches Ok((ux, uy)) ==> ux == x && uy == y,
    {
        if x < 0 || y < 0 || self.width <= x as usize || self.height <= y as usize {
            return Err(());
        }
        Ok((x as usize, y as usize))
    }

    /// The state of the cell at `(x, y)`; dead for every coordinate off the
    /// grid, whatever the buffer holds.
    pub fn is_live(&self, x: isize, y: isize) -> (r: bool)
        requires
            self.wf(),
        ensures
            r == self.live_at(x as int, y as int),
            !self.contains(x as int, y as int) ==> !r,
    {
        match self.is_in(x, y) {
            Ok((ux, uy)) => {
                proof {
                    lemma_index_in_bounds(self.width as int, self.height as int, ux as int, uy as int);
                }
                self.cells[uy * self.width + ux]
            },
            Err(()) => false,
        }
    }

    /// Stores `doa` at `(x, y)`; a coordinate off the grid leaves the
    /// grid as it was.
    pub fn set_life(&mut self, x: isize, y: isize, doa: bool)
        requires
            old(self).wf(),
        ensures
            final(self).wf(),
            final(self).spec_width() == old(self).spec_width(),
            final(self).spec_height() == old(self).spec_height(),
            old(self).contains(x as int, y as int) ==> final(self).spec_cells() == old(self).spec_cells().update(
                cell_index(old(self).spec_width() as int, x as int, y as int),
                doa,
            ),
            !old(self).contains(x as int, y as int) ==> final(self).spec_cells() == old(self).spec_cells(),
    {
        match self.is_in(x, y) {
            Ok((ux, uy)) => {
                proof {
                    lemma_index_in_bounds(self.width as int, self.height as int, ux as int, uy as int);
                }
                let i = uy * self.width + ux;
                self.cells.set(i, doa);
            },
            Err(()) => {},
        }
    }

    /// Writes `doa` over the run of cells that starts at `(x, y)` in row-major
    /// order. A run that would go past the end of the buffer is not written
    /// at all.
    pub fn set_lives(&mut self, x: usize, y: usize, doa: Vec<bool>)
        requires
            old(self).wf(),
        ensures
            final(self).wf(),
            final(self).spec_width() == old(self).spec_width(),
            final(self).spec_height() == old(self).spec_height(),
            final(self).spec_cells() == spliced(
                old(self).spec_cells(),
                cell_index(old(self).spec_width() as int, x as int, y as int),
                doa@,
            ),
    {
        let len = self.cells.len();
        let head = match y.checked_mul(self.width) {
            Some(row) => row.checked_add(x),
            None => None,
        };
        let head = match head {
            Some(h) => h,
            None => {
                proof {
                    assert(y * self.width + x > len) by (nonlinear_arith)
                        requires
                            y * self.width > usize::MAX || y * self.width + x > usize::MAX,
                            len <= usize::MAX,
                            x >= 0,
                    ;
                }
                return;
            },
        };
        if head > len || doa.len() > len - head {
            return;
        }
        let ghost before = self.cells@;
        let mut i: usize = 0;
        while i < doa.len()
            invariant
                self.wf(),
                self.width == old(self).width,
                self.height == old(self).height,
                before == old(self).spec_cells(),
                len == before.len(),
                head + doa@.len() <= len,
                i <= doa@.len(),
                self.cells@.len() == len,
                forall|k: int| 0 <= k < head ==> self.cells@[k] == before[k],
                forall|k: int| 0 <= k < i ==> self.cells@[head + k] == doa@[k],
                forall|k: int| head + i <= k < len ==> self.cells@[k] == before[k],
            decreases doa@.len() - i,
        {
            self.cells.set(head + i, doa[i]);
            i += 1;
        }
        proof {
            let tail = head + doa@.len();
            assert(self.cells@ =~= before.subrange(0, head as int) + doa@ + before.subrange(
                tail as int,
                len as int,
            ));
        }
    }
}

/// A coordinate on a grid of `width` × `height` cells has its row-major index
/// inside the buffer.
pub proof fn lemma_index_in_bounds(width: int, height: int, x: int, y: int)
    requires
        0 <= x < width,
        0 <= y < height,
    ensures
        0 <= cell_index(width, x, y) < width * height,
{
    assert(0 <= y * width) by (nonlinear_arith)
        requires
            0 <= y,
            0 <= width,
    ;
    assert(y * width + x < width * height) by (nonlinear_arith)
        requires
            0 <= x < width,
            0 <= y < height,
    ;
}

} // verus!
