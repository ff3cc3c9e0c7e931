//! A dense, row-major grid of tiles addressed by integer coordinates.

use vstd::prelude::*;

verus! {

/// A tile coordinate: column `.0`, row `.1`.
#[derive(Copy, Clone, Debug, PartialEq, Eq, Hash, Structural)]
pub struct TileAddress(pub u32, pub u32);

impl TileAddress {
    pub fn as_tuple(&self) -> (r: (u32, u32))
        ensures
            r == (self.0, self.1),
    {
        (self.0, self.1)
    }
}

/// The mathematical content of a grid: its size and its cells in row-major order.
pub struct GridView<T> {
    pub width: nat,
    pub height: nat,
    pub cells: Seq<T>,
}

impl<T> GridView<T> {
    /// The cells fill the rectangle exactly, and every index fits the machine.
    pub open spec fn valid(self) -> bool {
        &&& self.width <= u32::MAX
        &&& self.height <= u32::MAX
        &&& self.width * self.height <= usize::MAX
        &&& self.cells.len() == self.width * self.height
    }

    pub open spec fn in_bounds(self, x: int, y: int) -> bool {
        0 <= x < self.width && 0 <= y < self.height
    }

    pub open spec fn idx(self, x: int, y: int) -> int {
        y * self.width + x
    }

    pub open spec fn at(self, x: int, y: int) -> T {
        self.cells[self.idx(x, y)]
    }

    pub open spec fn get(self, x: int, y: int) -> Option<T> {
        if self.in_bounds(x, y) {
            Some(self.at(x, y))
        } else {
            None
        }
    }

    /// The grid with the tile at `(x, y)` replaced; unchanged when out of range.
    pub open spec fn set(self, x: int, y: int, t: T) -> GridView<T> {
        if self.in_bounds(x, y) {
            GridView { width: self.width, height: self.height, cells: self.cells.update(self.idx(x, y), t) }
        } else {
            self
        }
    }
}

/// The index of an in-range address lies inside the cell array.
pub proof fn lemma_idx_in_range(w: nat, h: nat, x: int, y: int)
    requires
        0 <= x < w,
        0 <= y < h,
    ensures
        0 <= y * w + x < w * h,
        y * w + x < h * w,
{
    assert(h * w == w * h) by (nonlinear_arith);
    assert(y * w <= (h - 1) * w) by (nonlinear_arith)
        requires 0 <= y <= h - 1, w >= 0;
    assert((h - 1) * w + w == h * w) by (nonlinear_arith);
    assert(0 <= y * w) by (nonlinear_arith)
        requires 0 <= y, w >= 0;
}

/// Distinct in-range addresses have distinct indices.
pub proof fn lemma_idx_injective(w: nat, x1: int, y1: int, x2: int, y2: int)
    requires
        0 <= x1 < w,
        0 <= x2 < w,
        0 <= y1,
        0 <= y2,
        y1 * w + x1 == y2 * w + x2,
    ensures
        x1 == x2,
        y1 == y2,
{
    if y1 < y2 {
        assert(y1 * w + w <= y2 * w) by (nonlinear_arith)
            requires y1 < y2, w >= 0;
    } else if y2 < y1 {
        assert(y2 * w + w <= y1 * w) by (nonlinear_arith)
            requires y2 < y1, w >= 0;
    }
}

/// A dense two-dimensional array of tiles, `width * height` of them, row by row.
#[derive(Clone)]
pub struct Grid<T> {
    width: u32,
    height: u32,
    tiles: Vec<T>,
}

impl<T> View for Grid<T> {
    type V = GridView<T>;

    closed spec fn view(&self) -> GridView<T> {
        GridView { width: self.width as nat, height: self.height as nat, cells: self.tiles@ }
    }
}

impl<T: Default + Clone> Grid<T> {
    /// A `width` by `height` grid of default tiles.
    pub fn new(width: u32, height: u32) -> (r: Self)
        requires
            width as int * height as int <= usize::MAX,
        ensures
            r@.valid(),
            r@.width == width,
            r@.height == height,
    {
        let n = (width as usize) * (height as usize);
        let tiles = vec![T::default(); n];
        Grid { width, height, tiles }
    }
}

impl<T> Grid<T> {
    /// A `width` by `height` grid whose every tile is `tile`.
    pub fn filled(width: u32, height: u32, tile: T) -> (r: Self)
        where T: Copy
        requires
            width as int * height as int <= usize::MAX,
        ensures
            r@.valid(),
            r@.width == width,
            r@.height == height,
            forall|i: int| 0 <= i < r@.cells.len() ==> r@.cells[i] == tile,
    {
        let n = (width as usize) * (height as usize);
        let mut tiles: Vec<T> = Vec::new();
        let mut i: usize = 0;
        while i < n
            invariant
                i <= n,
                tiles@.len() == i,
                forall|j: int| 0 <= j < i ==> tiles@[j] == tile,
            decreases n - i,
        {
            tiles.push(tile);
            i = i + 1;
        }
        Grid { width, height, tiles }
    }

    pub fn width(&self) -> (r: u32)
        ensures
            r == self@.width,
    {
        self.width
    }

    pub fn height(&self) -> (r: u32)
        ensures
            r == self@.height,
    {
        self.height
    }

    /// The tile at `pos`, or `None` when `pos` lies outside the grid.
    pub fn tile_at(&self, pos: &TileAddress) -> (r: Option<&T>)
        requires
            self@.valid(),
        ensures
            r.is_some() == self@.in_bounds(pos.0 as int, pos.1 as int),
            r matches Some(t) ==> *t == self@.at(pos.0 as int, pos.1 as int),
    {
        if pos.0 >= self.width {
            None
        } else if pos.1 >= self.height {
            None
        } else {
            proof {
                lemma_idx_in_range(self@.width, self@.height, pos.0 as int, pos.1 as int);
            }
            let i = (pos.1 as usize) * (self.width as usize) + (pos.0 as usize);
            Some(&self.tiles[i])
        }
    }

    /// A mutable borrow of the tile at `pos`, or `None` when `pos` lies outside
    /// the grid. Whatever is written through it lands at `pos`.
    pub fn tile_at_mut(&mut self, pos: &TileAddress) -> (r: Option<&mut T>)
        requires
            old(self)@.valid(),
        ensures
            r.is_some() == old(self)@.in_bounds(pos.0 as int, pos.1 as int),
            r matches Some(t) ==> *t == old(self)@.at(pos.0 as int, pos.1 as int)
                && final(self)@ == old(self)@.set(pos.0 as int, pos.1 as int, *final(t)),
            r is None ==> final(self)@ == old(self)@,
    {
        if pos.0 >= self.width {
            None
        } else if pos.1 >= self.height {
            None
        } else {
            proof {
                lemma_idx_in_range(self@.width, self@.height, pos.0 as int, pos.1 as int);
            }
            let i = (pos.1 as usize) * (self.width as usize) + (pos.0 as usize);
            Some(&mut self.tiles[i])
        }
    }

    /// Replaces the tile at `pos`; returns whether `pos` lies inside the grid.
    /// Out of range the grid is left as it is.
    pub fn set_tile_at(&mut self, pos: &TileAddress, tile: T) -> (r: bool)
        requires
            old(self)@.valid(),
        ensures
            r == old(self)@.in_bounds(pos.0 as int, pos.1 as int),
            final(self)@ == old(self)@.set(pos.0 as int, pos.1 as int, tile),
            final(self)@.valid(),
    {
        if pos.0 >= self.width {
            false
        } else if pos.1 >= self.height {
            false
        } else {
            proof {
                lemma_idx_in_range(self@.width, self@.height, pos.0 as int, pos.1 as int);
            }
            let i = (pos.1 as usize) * (self.width as usize) + (pos.0 as usize);
            self.tiles.set(i, tile);
            true
        }
    }

    /// Every address of the grid, row by row from the bottom, left to right in a row.
    pub fn addresses(&self) -> (r: Vec<TileAddress>)
        requires
            self@.valid(),
        ensures
            r@.len() == self@.width * self@.height,
            forall|x: int, y: int| self@.in_bounds(x, y) ==>
                #[trigger] r@[self@.idx(x, y)] == TileAddress(x as u32, y as u32),
    {
        let mut r: Vec<TileAddress> = Vec::new();
        let mut y: u32 = 0;
        while y < self.height
            invariant
                self@.valid(),
                y <= self@.height,
                r@.len() == y * self@.width,
                forall|x: int, yy: int| 0 <= x < self@.width && 0 <= yy < y ==>
                    #[trigger] r@[self@.idx(x, yy)] == TileAddress(x as u32, yy as u32),
            decreases self@.height - y,
        {
            let mut x: u32 = 0;
            let ghost base = r@.len();
            while x < self.width
                invariant
                    self@.valid(),
                    y < self@.height,
                    x <= self@.width,
                    base == y * self@.width,
                    r@.len() == base + x,
                    forall|xx: int, yy: int| 0 <= xx < self@.width && 0 <= yy < y ==>
                        #[trigger] r@[self@.idx(xx, yy)] == TileAddress(xx as u32, yy as u32),
                    forall|xx: int| 0 <= xx < x ==> #[trigger] r@[base + xx] == TileAddress(xx as u32, y),
                decreases self@.width - x,
            {
                proof {
                    assert forall|xx: int, yy: int| 0 <= xx < self@.width && 0 <= yy < y implies
                        #[trigger] r@.push(TileAddress(x, y))[self@.idx(xx, yy)] == TileAddress(xx as u32, yy as u32) by {
                        lemma_idx_in_range(self@.width, y as nat, xx, yy);
                    }
                }
                r.push(TileAddress(x, y));
                x = x + 1;
            }
            proof {
                assert((y + 1) * self@.width == y * self@.width + self@.width) by (nonlinear_arith);
                assert forall|xx: int, yy: int| 0 <= xx < self@.width && 0 <= yy < y + 1 implies
                    #[trigger] r@[self@.idx(xx, yy)] == TileAddress(xx as u32, yy as u32) by {
                    if yy == y {
                        assert(r@[base + xx] == TileAddress(xx as u32, y));
                    }
                }
            }
            y = y + 1;
        }
        assert(self@.height * self@.width == self@.width * self@.height) by (nonlinear_arith);
        r
    }
}

} // verus!
