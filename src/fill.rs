//! Scan-line flood fill over any store of tiles addressed by column and row.

use vstd::prelude::*;
use crate::grid::{Grid, GridView, TileAddress, lemma_idx_in_range};
use crate::region::{
    adjacent, coords, reaches, region, is_path, lemma_coords, lemma_coords_of_idx,
    lemma_reaches_self, lemma_reaches_step, lemma_reaches_start, lemma_closed_holds_path,
};

verus! {

/// A store of tiles addressed by column and row, read and written one tile at a time.
pub trait Tiles {
    type Tile;

    /// The store seen as a grid.
    spec fn tiles_view(&self) -> GridView<Self::Tile>;

    /// Width and height in tiles.
    fn dimensions(&self) -> (r: (u32, u32))
        requires
            self.tiles_view().valid(),
        ensures
            r.0 == self.tiles_view().width,
            r.1 == self.tiles_view().height,
    ;

    /// The tile at `(x, y)`, or `None` outside the store.
    fn get_tile(&self, x: u32, y: u32) -> (r: Option<&Self::Tile>)
        requires
            self.tiles_view().valid(),
        ensures
            r.is_some() == self.tiles_view().in_bounds(x as int, y as int),
            r matches Some(t) ==> *t == self.tiles_view().at(x as int, y as int),
    ;

    /// Replaces the tile at `(x, y)`; does nothing outside the store.
    fn set_tile(&mut self, x: u32, y: u32, tile: Self::Tile)
        requires
            old(self).tiles_view().valid(),
        ensures
            final(self).tiles_view() == old(self).tiles_view().set(x as int, y as int, tile),
    ;
}

impl<T> Tiles for Grid<T> {
    type Tile = T;

    open spec fn tiles_view(&self) -> GridView<T> {
        self@
    }

    fn dimensions(&self) -> (r: (u32, u32)) {
        (self.width(), self.height())
    }

    fn get_tile(&self, x: u32, y: u32) -> (r: Option<&T>) {
        self.tile_at(&TileAddress(x, y))
    }

    fn set_tile(&mut self, x: u32, y: u32, tile: T) {
        self.set_tile_at(&TileAddress(x, y), tile);
    }
}

/// The predicate may be called on any two tiles.
pub open spec fn callable<T, P: Fn(&T, &T) -> bool>(pred: P) -> bool {
    forall|a: &T, b: &T| #[trigger] pred.requires((a, b))
}

/// The predicate never answers both ways on the same two tiles.
pub open spec fn deterministic<T, P: Fn(&T, &T) -> bool>(pred: P) -> bool {
    forall|a: &T, b: &T| #[trigger] pred.ensures((a, b), true) ==> !pred.ensures((a, b), false)
}

/// The tiles that the predicate can accept against the start color `s`.
pub open spec fn accepts<T, P: Fn(&T, &T) -> bool>(pred: P, s: T) -> spec_fn(T) -> bool {
    |t: T| pred.ensures((&t, &s), true)
}

/// The tiles that the predicate can reject against the start color `s`.
pub open spec fn rejects<T, P: Fn(&T, &T) -> bool>(pred: P, s: T) -> spec_fn(T) -> bool {
    |t: T| pred.ensures((&t, &s), false)
}

/// The cells that a fill from `start` recolors: those reached from `start`
/// through tiles that the predicate accepts against the start tile's color.
pub open spec fn fill_region<T, P: Fn(&T, &T) -> bool>(g: GridView<T>, pred: P, start: (int, int)) -> Set<int> {
    region(g, accepts(pred, g.at(start.0, start.1)), start)
}

/// The grid after a fill from `start` with `color`.
pub open spec fn filled_view<T, P: Fn(&T, &T) -> bool>(g: GridView<T>, pred: P, start: (int, int), color: T) -> GridView<T> {
    GridView {
        width: g.width,
        height: g.height,
        cells: Seq::new(
            g.cells.len(),
            |i: int| if fill_region(g, pred, start).contains(i) { color } else { g.cells[i] },
        ),
    }
}

/// Every tile next to the filled region but outside it was rejected by the predicate.
pub open spec fn rim_rejected<T, P: Fn(&T, &T) -> bool>(g: GridView<T>, pred: P, start: (int, int)) -> bool {
    let s = g.at(start.0, start.1);
    forall|p: (int, int), q: (int, int)|
        #![trigger reaches(g, accepts(pred, s), start, p), reaches(g, accepts(pred, s), start, q)]
        reaches(g, accepts(pred, s), start, p) && adjacent(p, q) && g.in_bounds(q.0, q.1)
            && !reaches(g, accepts(pred, s), start, q) ==> rejects(pred, s)(g.at(q.0, q.1))
}

/// A start tile inside the grid was either accepted, and so lies in the
/// filled region, or rejected against its own color.
pub open spec fn start_judged<T, P: Fn(&T, &T) -> bool>(g: GridView<T>, pred: P, start: (int, int)) -> bool {
    let s = g.at(start.0, start.1);
    g.in_bounds(start.0, start.1) ==> reaches(g, accepts(pred, s), start, start) || rejects(pred, s)(s)
}

#[derive(Copy, Clone)]
struct Span(u32, u32);

#[derive(Copy, Clone)]
enum Dir {
    Up,
    Down,
}

spec fn off(d: Dir) -> int {
    match d {
        Dir::Up => 1,
        Dir::Down => -1,
    }
}

impl Dir {
    /// The next row in this direction, if the grid has it.
    fn step(&self, y: u32, height: u32) -> (r: Option<u32>)
        requires
            y < height,
        ensures
            r matches Some(n) ==> n == y + off(*self) && n < height,
            r.is_none() ==> !(0 <= y + off(*self) < height),
    {
        match self {
            Dir::Up => if y < height - 1 { Some(y + 1) } else { None },
            Dir::Down => if y > 0 { Some(y - 1) } else { None },
        }
    }

    fn reversed(&self) -> (r: Dir)
        ensures
            off(r) == -off(*self),
    {
        match self {
            Dir::Up => Dir::Down,
            Dir::Down => Dir::Up,
        }
    }
}

type Seed = (Span, u32, Dir);

/// The store agrees with the original grid wherever nothing has been filled yet.
spec fn ctx_ok<T>(gc: GridView<T>, g0: GridView<T>, vis: Seq<bool>) -> bool {
    &&& g0.valid()
    &&& gc.width == g0.width
    &&& gc.height == g0.height
    &&& gc.cells.len() == g0.cells.len()
    &&& vis.len() == g0.cells.len()
    &&& forall|i: int| 0 <= i < vis.len() && !vis[i] ==> gc.cells[i] == g0.cells[i]
}

spec fn vis_at<T>(g0: GridView<T>, vis: Seq<bool>, x: int, y: int) -> bool {
    g0.in_bounds(x, y) && vis[g0.idx(x, y)]
}

spec fn inside<T>(g0: GridView<T>, ok: spec_fn(T) -> bool, vis: Seq<bool>, x: int, y: int) -> bool {
    g0.in_bounds(x, y) && !vis[g0.idx(x, y)] && ok(g0.at(x, y))
}

/// Nothing is left to fill at `(x, y)`.
spec fn settled<T>(g0: GridView<T>, rej: spec_fn(T) -> bool, vis: Seq<bool>, x: int, y: int) -> bool {
    !g0.in_bounds(x, y) || vis[g0.idx(x, y)] || rej(g0.at(x, y))
}

spec fn covers(seed: Seed, x: int, y: int) -> bool {
    seed.1 == y && seed.0.0 <= x <= seed.0.1
}

spec fn covered(stack: Seq<Seed>, x: int, y: int) -> bool {
    exists|k: int| 0 <= k < stack.len() && #[trigger] covers(stack[k], x, y)
}

spec fn pending(pend: (int, int, int), x: int, y: int) -> bool {
    y == pend.0 && pend.1 <= x <= pend.2
}

spec fn handled<T>(
    g0: GridView<T>, rej: spec_fn(T) -> bool, vis: Seq<bool>, stack: Seq<Seed>, pend: (int, int, int), x: int, y: int,
) -> bool {
    settled(g0, rej, vis, x, y) || covered(stack, x, y) || pending(pend, x, y)
}

/// Each filled tile has its neighbours above and below settled or still to be scanned.
spec fn vert_ok<T>(
    g0: GridView<T>, rej: spec_fn(T) -> bool, vis: Seq<bool>, stack: Seq<Seed>, pend: (int, int, int), x: int, y: int,
) -> bool {
    vis_at(g0, vis, x, y) ==> handled(g0, rej, vis, stack, pend, x, y + 1) && handled(g0, rej, vis, stack, pend, x, y - 1)
}

/// Each filled tile has its left and right neighbours settled.
spec fn horiz_ok<T>(g0: GridView<T>, rej: spec_fn(T) -> bool, vis: Seq<bool>, x: int, y: int) -> bool {
    vis_at(g0, vis, x, y) ==> settled(g0, rej, vis, x - 1, y) && settled(g0, rej, vis, x + 1, y)
}

spec fn sound<T>(g0: GridView<T>, ok: spec_fn(T) -> bool, start: (int, int), vis: Seq<bool>, x: int, y: int) -> bool {
    vis_at(g0, vis, x, y) ==> reaches(g0, ok, start, (x, y))
}

/// A seed scans row `seed.1` under a filled span of the row it came from.
spec fn seed_ok<T>(g0: GridView<T>, rej: spec_fn(T) -> bool, vis: Seq<bool>, seed: Seed) -> bool {
    let a = seed.0.0 as int;
    let b = seed.0.1 as int;
    let y = seed.1 as int;
    let py = y - off(seed.2);
    &&& a <= b < g0.width
    &&& 0 <= y < g0.height
    &&& 0 <= py < g0.height
    &&& forall|x: int| a <= x <= b ==> #[trigger] vis_at(g0, vis, x, py)
    &&& settled(g0, rej, vis, a - 1, py)
    &&& settled(g0, rej, vis, b + 1, py)
}

spec fn fill_inv<T>(
    g0: GridView<T>, ok: spec_fn(T) -> bool, rej: spec_fn(T) -> bool, start: (int, int),
    vis: Seq<bool>, stack: Seq<Seed>, pend: (int, int, int),
) -> bool {
    &&& vis.len() == g0.cells.len()
    &&& forall|x: int, y: int| #[trigger] vert_ok(g0, rej, vis, stack, pend, x, y)
    &&& forall|x: int, y: int| #[trigger] horiz_ok(g0, rej, vis, x, y)
    &&& forall|x: int, y: int| #[trigger] sound(g0, ok, start, vis, x, y)
    &&& forall|k: int| 0 <= k < stack.len() ==> #[trigger] seed_ok(g0, rej, vis, stack[k])
}

spec fn vis_set(vis: Seq<bool>) -> Set<int> {
    Set::new(|i: int| 0 <= i < vis.len() && vis[i])
}

proof fn lemma_vis_set_bound(vis: Seq<bool>)
    ensures
        vis_set(vis).finite(),
        vis_set(vis).len() <= vis.len(),
{
    let r = vstd::set_lib::set_int_range(0, vis.len() as int);
    vstd::set_lib::lemma_int_range(0, vis.len() as int);
    assert(vis_set(vis).subset_of(r));
    vstd::set_lib::lemma_len_subset(vis_set(vis), r);
}

/// Cell `y * w + x` lies in the run `[y0 * w + a, y0 * w + b]` exactly when `(x, y)` is on row `y0` between `a` and `b`.
proof fn lemma_row_run(w: nat, x: int, y: int, y0: int, a: int, b: int)
    requires
        0 <= x < w,
        0 <= y,
        0 <= y0,
        0 <= a,
        b < w,
    ensures
        (y0 * w + a <= y * w + x <= y0 * w + b) <==> (y == y0 && a <= x <= b),
{
    if y < y0 {
        assert(y * w + w <= y0 * w) by (nonlinear_arith)
            requires y < y0, w >= 0;
    } else if y > y0 {
        assert(y0 * w + w <= y * w) by (nonlinear_arith)
            requires y0 < y, w >= 0;
    }
}

/// Along a row of accepted tiles, reach spreads from one tile to all.
proof fn lemma_row_reach<T>(g0: GridView<T>, ok: spec_fn(T) -> bool, start: (int, int), y: int, a: int, b: int, x0: int, x: int)
    requires
        a <= x0 <= b,
        a <= x <= b,
        reaches(g0, ok, start, (x0, y)),
        forall|xx: int| a <= xx <= b ==> #[trigger] g0.in_bounds(xx, y),
        forall|xx: int| a <= xx <= b ==> ok(#[trigger] g0.at(xx, y)),
    ensures
        reaches(g0, ok, start, (x, y)),
    decreases (if x >= x0 { x - x0 } else { x0 - x }),
{
    if x > x0 {
        lemma_row_reach(g0, ok, start, y, a, b, x0, x - 1);
        assert(ok(g0.at(x, y)) && g0.in_bounds(x, y));
        lemma_reaches_step(g0, ok, start, (x - 1, y), (x, y));
    } else if x < x0 {
        lemma_row_reach(g0, ok, start, y, a, b, x0, x + 1);
        assert(ok(g0.at(x, y)) && g0.in_bounds(x, y));
        lemma_reaches_step(g0, ok, start, (x + 1, y), (x, y));
    }
}

/// Whether `(x, y)` still waits to be filled: in range, not filled yet, and
/// accepted against the start color.
fn inside_at<G, T, P>(
    tiles: &G, visited: &Vec<bool>, pred: &P, s: &T, w: u32, x: u32, y: u32, Ghost(g0): Ghost<GridView<T>>,
) -> (r: bool)
    where G: Tiles<Tile = T>, P: Fn(&T, &T) -> bool,
    requires
        ctx_ok(tiles.tiles_view(), g0, visited@),
        w == g0.width,
        callable::<T, P>(*pred),
        deterministic::<T, P>(*pred),
    ensures
        r == inside(g0, accepts(*pred, *s), visited@, x as int, y as int),
        !r ==> settled(g0, rejects(*pred, *s), visited@, x as int, y as int),
{
    match tiles.get_tile(x, y) {
        None => false,
        Some(t) => {
            proof {
                lemma_idx_in_range(g0.width, g0.height, x as int, y as int);
            }
            let i = (y as usize) * (w as usize) + (x as usize);
            if visited[i] {
                false
            } else {
                let r = pred(t, s);
                r
            }
        }
    }
}

/// The maximal run of row `y` around `x` whose tiles all wait to be filled,
/// or `None` when `(x, y)` itself does not.
fn expand_range<G, T, P>(
    tiles: &G, visited: &Vec<bool>, pred: &P, s: &T, w: u32, x: u32, y: u32, Ghost(g0): Ghost<GridView<T>>,
) -> (r: Option<Span>)
    where G: Tiles<Tile = T>, P: Fn(&T, &T) -> bool,
    requires
        ctx_ok(tiles.tiles_view(), g0, visited@),
        w == g0.width,
        callable::<T, P>(*pred),
        deterministic::<T, P>(*pred),
    ensures
        r.is_none() == !inside(g0, accepts(*pred, *s), visited@, x as int, y as int),
        r.is_none() ==> settled(g0, rejects(*pred, *s), visited@, x as int, y as int),
        r matches Some(sp) ==> {
            &&& sp.0 <= x <= sp.1
            &&& forall|xx: int| sp.0 <= xx <= sp.1 ==> #[trigger] inside(g0, accepts(*pred, *s), visited@, xx, y as int)
            &&& settled(g0, rejects(*pred, *s), visited@, sp.0 - 1, y as int)
            &&& settled(g0, rejects(*pred, *s), visited@, sp.1 + 1, y as int)
        },
{
    let ghost ok = accepts(*pred, *s);
    if !inside_at(tiles, visited, pred, s, w, x, y, Ghost(g0)) {
        return None;
    }
    let mut lo: u32 = x;
    loop
        invariant
            ctx_ok(tiles.tiles_view(), g0, visited@),
            w == g0.width,
            callable::<T, P>(*pred),
            deterministic::<T, P>(*pred),
            lo <= x,
            ok == accepts(*pred, *s),
            forall|xx: int| lo <= xx <= x ==> #[trigger] inside(g0, ok, visited@, xx, y as int),
        ensures
            lo <= x,
            forall|xx: int| lo <= xx <= x ==> #[trigger] inside(g0, ok, visited@, xx, y as int),
            settled(g0, rejects(*pred, *s), visited@, lo - 1, y as int),
        decreases lo,
    {
        if lo == 0 {
            break;
        }
        let b = inside_at(tiles, visited, pred, s, w, lo - 1, y, Ghost(g0));
        if !b {
            break;
        }
        assert(inside(g0, ok, visited@, lo - 1, y as int));
        lo = lo - 1;
    }
    let mut hi: u32 = x;
    loop
        invariant
            ctx_ok(tiles.tiles_view(), g0, visited@),
            w == g0.width,
            callable::<T, P>(*pred),
            deterministic::<T, P>(*pred),
            x <= hi < w,
            ok == accepts(*pred, *s),
            forall|xx: int| x <= xx <= hi ==> #[trigger] inside(g0, ok, visited@, xx, y as int),
        ensures
            x <= hi < w,
            forall|xx: int| x <= xx <= hi ==> #[trigger] inside(g0, ok, visited@, xx, y as int),
            settled(g0, rejects(*pred, *s), visited@, hi + 1, y as int),
        decreases w - hi,
    {
        if hi + 1 >= w {
            break;
        }
        let b = inside_at(tiles, visited, pred, s, w, hi + 1, y, Ghost(g0));
        if !b {
            break;
        }
        assert(inside(g0, ok, visited@, hi + 1, y as int));
        hi = hi + 1;
    }
    assert(forall|xx: int| lo <= xx <= hi ==> #[trigger] inside(g0, ok, visited@, xx, y as int)) by {
        assert forall|xx: int| lo <= xx <= hi implies #[trigger] inside(g0, ok, visited@, xx, y as int) by {
            if xx <= x {
                assert(inside(g0, ok, visited@, xx, y as int));
            } else {
                assert(inside(g0, ok, visited@, xx, y as int));
            }
        }
    }
    Some(Span(lo, hi))
}

/// The first run of row `y` that starts waiting at or after `current_x` and no
/// later than `parent_max`; `None` when every tile in between is settled.
fn next_child_range_right<G, T, P>(
    tiles: &G, visited: &Vec<bool>, pred: &P, s: &T, w: u32, parent_max: u32, current_x: u64, y: u32,
    Ghost(g0): Ghost<GridView<T>>,
) -> (r: Option<Span>)
    where G: Tiles<Tile = T>, P: Fn(&T, &T) -> bool,
    requires
        ctx_ok(tiles.tiles_view(), g0, visited@),
        w == g0.width,
        parent_max < w,
        callable::<T, P>(*pred),
        deterministic::<T, P>(*pred),
    ensures
        r.is_none() ==> forall|xx: int| current_x <= xx <= parent_max ==>
            #[trigger] settled(g0, rejects(*pred, *s), visited@, xx, y as int),
        r matches Some(sp) ==> {
            &&& current_x <= sp.1
            &&& sp.0 <= parent_max
            &&& sp.0 <= sp.1
            &&& forall|xx: int| sp.0 <= xx <= sp.1 ==> #[trigger] inside(g0, accepts(*pred, *s), visited@, xx, y as int)
            &&& settled(g0, rejects(*pred, *s), visited@, sp.0 - 1, y as int)
            &&& settled(g0, rejects(*pred, *s), visited@, sp.1 + 1, y as int)
            &&& forall|xx: int| current_x <= xx < sp.0 ==>
                #[trigger] settled(g0, rejects(*pred, *s), visited@, xx, y as int)
        },
{
    let ghost rej = rejects(*pred, *s);
    let mut x: u64 = current_x;
    while x <= parent_max as u64
        invariant
            ctx_ok(tiles.tiles_view(), g0, visited@),
            w == g0.width,
            parent_max < w,
            callable::<T, P>(*pred),
            deterministic::<T, P>(*pred),
            current_x <= x,
            rej == rejects(*pred, *s),
            forall|xx: int| current_x <= xx < x ==> #[trigger] settled(g0, rej, visited@, xx, y as int),
        decreases parent_max as u64 + 1 - x,
    {
        let b = inside_at(tiles, visited, pred, s, w, x as u32, y, Ghost(g0));
        if b {
            return expand_range(tiles, visited, pred, s, w, x as u32, y, Ghost(g0));
        }
        assert(settled(g0, rej, visited@, x as int, y as int));
        x = x + 1;
    }
    None
}

spec fn cells_ok<T>(gc: GridView<T>, g0: GridView<T>, vis: Seq<bool>, color: T) -> bool {
    &&& ctx_ok(gc, g0, vis)
    &&& forall|i: int| 0 <= i < vis.len() ==> #[trigger] gc.cells[i] == if vis[i] { color } else { g0.cells[i] }
}

/// The filled marks after a run of row `y` from `a` to `b` has been filled.
spec fn run_added(vis: Seq<bool>, vis2: Seq<bool>, w: int, y: int, a: int, b: int) -> bool {
    &&& vis2.len() == vis.len()
    &&& forall|i: int| 0 <= i < vis.len() ==> #[trigger] vis2[i] == (vis[i] || (y * w + a <= i <= y * w + b))
}

/// Fills columns `a..=b` of row `y` with `color`, marks them filled and counts them.
fn fill_span<G, T>(
    tiles: &mut G, visited: &mut Vec<bool>, count: &mut usize, w: u32, a: u32, b: u32, y: u32, color: T,
    Ghost(g0): Ghost<GridView<T>>,
)
    where G: Tiles<Tile = T>, T: Copy,
    requires
        cells_ok(old(tiles).tiles_view(), g0, old(visited)@, color),
        w == g0.width,
        a <= b < w,
        y < g0.height,
        forall|xx: int| a <= xx <= b ==> !#[trigger] old(visited)@[g0.idx(xx, y as int)],
        *old(count) == vis_set(old(visited)@).len(),
    ensures
        cells_ok(final(tiles).tiles_view(), g0, final(visited)@, color),
        *final(count) == vis_set(final(visited)@).len(),
        *final(count) == *old(count) + (b - a + 1),
        run_added(old(visited)@, final(visited)@, w as int, y as int, a as int, b as int),
{
    let ghost vis0 = visited@;
    let ghost c0 = *count;
    let mut x: u32 = a;
    while x <= b
        invariant
            cells_ok(tiles.tiles_view(), g0, visited@, color),
            w == g0.width,
            a <= x <= b + 1,
            b < w,
            y < g0.height,
            vis0.len() == visited@.len(),
            forall|xx: int| a <= xx <= b ==> !#[trigger] vis0[g0.idx(xx, y as int)],
            forall|i: int| 0 <= i < vis0.len() ==> #[trigger] visited@[i] == (vis0[i] || (y * w + a <= i < y * w + x)),
            *count == vis_set(visited@).len(),
            *count == c0 + (x - a),
        decreases b + 1 - x,
    {
        proof {
            lemma_idx_in_range(g0.width, g0.height, x as int, y as int);
        }
        let i = (y as usize) * (w as usize) + (x as usize);
        let ghost before = visited@;
        tiles.set_tile(x, y, color);
        visited.set(i, true);
        proof {
            assert(!vis0[g0.idx(x as int, y as int)]);
            assert(!before[i as int]);
            assert(vis_set(visited@) =~= vis_set(before).insert(i as int));
            lemma_vis_set_bound(before);
            lemma_vis_set_bound(visited@);
            assert forall|j: int| 0 <= j < vis0.len() implies #[trigger] tiles.tiles_view().cells[j]
                == if visited@[j] { color } else { g0.cells[j] } by {
                if j != i {
                    assert(before[j] == visited@[j]);
                }
            }
        }
        *count = *count + 1;
        x = x + 1;
    }
}

proof fn lemma_vis2_at<T>(g0: GridView<T>, vis: Seq<bool>, vis2: Seq<bool>, y: int, a: int, b: int, x2: int, y2: int)
    requires
        g0.valid(),
        vis.len() == g0.cells.len(),
        run_added(vis, vis2, g0.width as int, y, a, b),
        0 <= a <= b < g0.width,
        0 <= y < g0.height,
        g0.in_bounds(x2, y2),
    ensures
        0 <= g0.idx(x2, y2) < vis.len(),
        vis2[g0.idx(x2, y2)] == (vis[g0.idx(x2, y2)] || (y2 == y && a <= x2 <= b)),
{
    lemma_idx_in_range(g0.width, g0.height, x2, y2);
    lemma_row_run(g0.width, x2, y2, y, a, b);
}

/// What a settled or already scheduled neighbour was stays so after a run is filled.
proof fn lemma_carry<T>(
    g0: GridView<T>, rej: spec_fn(T) -> bool, vis: Seq<bool>, vis2: Seq<bool>, stack: Seq<Seed>, stack2: Seq<Seed>,
    y: int, cur: int, pb: int, a: int, b: int, nx: int, ny: int,
)
    requires
        g0.valid(),
        vis.len() == g0.cells.len(),
        run_added(vis, vis2, g0.width as int, y, a, b),
        0 <= a <= b < g0.width,
        0 <= y < g0.height,
        cur <= b,
        stack.len() <= stack2.len(),
        forall|k: int| 0 <= k < stack.len() ==> stack2[k] == stack[k],
        forall|xx: int| cur <= xx < a ==> #[trigger] settled(g0, rej, vis, xx, y),
        settled(g0, rej, vis, b + 1, y),
        handled(g0, rej, vis, stack, (y, cur, pb), nx, ny),
    ensures
        handled(g0, rej, vis2, stack2, (y, b + 2, pb), nx, ny),
{
    if settled(g0, rej, vis, nx, ny) {
        if g0.in_bounds(nx, ny) {
            lemma_vis2_at(g0, vis, vis2, y, a, b, nx, ny);
        }
        assert(settled(g0, rej, vis2, nx, ny));
    } else if covered(stack, nx, ny) {
        let k = choose|k: int| 0 <= k < stack.len() && #[trigger] covers(stack[k], nx, ny);
        assert(covers(stack2[k], nx, ny));
    } else {
        assert(pending((y, cur, pb), nx, ny));
        if nx < a {
            assert(settled(g0, rej, vis, nx, y));
        } else if nx <= b {
            lemma_vis2_at(g0, vis, vis2, y, a, b, nx, ny);
            assert(settled(g0, rej, vis2, nx, ny));
        } else if nx == b + 1 {
            if g0.in_bounds(nx, ny) {
                lemma_vis2_at(g0, vis, vis2, y, a, b, nx, ny);
            }
            assert(settled(g0, rej, vis2, nx, ny));
        } else {
            assert(pending((y, b + 2, pb), nx, ny));
        }
    }
}

proof fn lemma_settled_run<T>(
    g0: GridView<T>, rej: spec_fn(T) -> bool, vis: Seq<bool>, vis2: Seq<bool>, y: int, a: int, b: int, x2: int, y2: int,
)
    requires
        g0.valid(),
        vis.len() == g0.cells.len(),
        run_added(vis, vis2, g0.width as int, y, a, b),
        0 <= a <= b < g0.width,
        0 <= y < g0.height,
        settled(g0, rej, vis, x2, y2) || (y2 == y && a <= x2 <= b),
    ensures
        settled(g0, rej, vis2, x2, y2),
{
    if g0.in_bounds(x2, y2) {
        lemma_vis2_at(g0, vis, vis2, y, a, b, x2, y2);
    }
}

proof fn lemma_seed_run<T>(
    g0: GridView<T>, rej: spec_fn(T) -> bool, vis: Seq<bool>, vis2: Seq<bool>, y: int, a: int, b: int, seed: Seed,
)
    requires
        g0.valid(),
        vis.len() == g0.cells.len(),
        run_added(vis, vis2, g0.width as int, y, a, b),
        0 <= a <= b < g0.width,
        0 <= y < g0.height,
        seed_ok(g0, rej, vis, seed),
    ensures
        seed_ok(g0, rej, vis2, seed),
{
    let py = seed.1 - off(seed.2);
    assert forall|x: int| seed.0.0 <= x <= seed.0.1 implies #[trigger] vis_at(g0, vis2, x, py) by {
        assert(vis_at(g0, vis, x, py));
        lemma_vis2_at(g0, vis, vis2, y, a, b, x, py);
    }
    lemma_settled_run(g0, rej, vis, vis2, y, a, b, seed.0.0 - 1, py);
    lemma_settled_run(g0, rej, vis, vis2, y, a, b, seed.0.1 + 1, py);
}

/// A seed pushed while filling the run `c` of row `y`, found under `parent`.
spec fn child_seed(parent: Seed, c: Span, y: int, h: int, s: Seed) -> bool {
    let py = y - off(parent.2);
    ||| (s.0 == c && s.1 == y + off(parent.2) && s.2 == parent.2 && 0 <= s.1 < h)
    ||| (s.0.0 == c.0 && s.0.1 == parent.0.0 - 2 && c.0 + 2 <= parent.0.0 && s.1 == py && off(s.2) == -off(parent.2))
    ||| (s.0.0 == parent.0.1 + 2 && s.0.1 == c.1 && c.1 >= parent.0.1 + 2 && s.1 == py && off(s.2) == -off(parent.2))
}

/// Filling a child run and pushing its seeds keeps every invariant of the fill.
#[verifier::rlimit(60)]
proof fn lemma_child_step<T>(
    g0: GridView<T>, ok: spec_fn(T) -> bool, rej: spec_fn(T) -> bool, start: (int, int),
    vis: Seq<bool>, vis2: Seq<bool>, stack: Seq<Seed>, stack2: Seq<Seed>, parent: Seed, cur: int, c: Span,
)
    requires
        g0.valid(),
        forall|t: T| #[trigger] ok(t) ==> !rej(t),
        fill_inv(g0, ok, rej, start, vis, stack, (parent.1 as int, cur, parent.0.1 as int)),
        seed_ok(g0, rej, vis, parent),
        parent.0.0 <= cur <= parent.0.1,
        cur <= c.1,
        c.0 <= parent.0.1,
        c.0 <= c.1,
        forall|xx: int| c.0 <= xx <= c.1 ==> #[trigger] inside(g0, ok, vis, xx, parent.1 as int),
        settled(g0, rej, vis, c.0 - 1, parent.1 as int),
        settled(g0, rej, vis, c.1 + 1, parent.1 as int),
        forall|xx: int| cur <= xx < c.0 ==> #[trigger] settled(g0, rej, vis, xx, parent.1 as int),
        run_added(vis, vis2, g0.width as int, parent.1 as int, c.0 as int, c.1 as int),
        stack.len() <= stack2.len(),
        forall|k: int| 0 <= k < stack.len() ==> stack2[k] == stack[k],
        forall|k: int| stack.len() <= k < stack2.len() ==> child_seed(parent, c, parent.1 as int, g0.height as int, #[trigger] stack2[k]),
        0 <= parent.1 + off(parent.2) < g0.height ==> exists|k: int| 0 <= k < stack2.len()
            && #[trigger] stack2[k] == (c, (parent.1 + off(parent.2)) as u32, parent.2),
        c.0 + 2 <= parent.0.0 ==> exists|k: int| 0 <= k < stack2.len()
            && (#[trigger] stack2[k]).0 == Span(c.0, (parent.0.0 - 2) as u32) && stack2[k].1 == parent.1 - off(parent.2),
        c.1 >= parent.0.1 + 2 ==> exists|k: int| 0 <= k < stack2.len()
            && (#[trigger] stack2[k]).0 == Span((parent.0.1 + 2) as u32, c.1) && stack2[k].1 == parent.1 - off(parent.2),
    ensures
        fill_inv(g0, ok, rej, start, vis2, stack2, (parent.1 as int, c.1 + 2, parent.0.1 as int)),
{
    let y = parent.1 as int;
    let py = y - off(parent.2);
    let ny = y + off(parent.2);
    let pa = parent.0.0 as int;
    let pb = parent.0.1 as int;
    let a = c.0 as int;
    let b = c.1 as int;
    let w = g0.width as int;
    let pend = (y, cur, pb);
    let pend2 = (y, b + 2, pb);
    assert(inside(g0, ok, vis, a, y));
    assert(inside(g0, ok, vis, b, y));
    assert(0 <= y < g0.height);
    assert(b < w);
    // every seed, old or new, still lies under filled tiles
    assert forall|k: int| 0 <= k < stack2.len() implies #[trigger] seed_ok(g0, rej, vis2, stack2[k]) by {
        if k < stack.len() {
            assert(seed_ok(g0, rej, vis, stack[k]));
            lemma_seed_run(g0, rej, vis, vis2, y, a, b, stack[k]);
        } else {
            let sd = stack2[k];
            assert(child_seed(parent, c, y, g0.height as int, sd));
            let fy = sd.1 - off(sd.2);
            assert(fy == y);
            assert(sd.2 == Dir::Up || sd.2 == Dir::Down);
            assert(parent.2 == Dir::Up || parent.2 == Dir::Down);
            assert forall|x: int| sd.0.0 <= x <= sd.0.1 implies #[trigger] vis_at(g0, vis2, x, fy) by {
                assert(inside(g0, ok, vis, x, y));
                lemma_vis2_at(g0, vis, vis2, y, a, b, x, y);
            }
            lemma_settled_run(g0, rej, vis, vis2, y, a, b, sd.0.0 - 1, y);
            lemma_settled_run(g0, rej, vis, vis2, y, a, b, sd.0.1 + 1, y);
        }
    }
    // neighbours above and below
    assert forall|x2: int, y2: int| #[trigger] vert_ok(g0, rej, vis2, stack2, pend2, x2, y2) by {
        if vis_at(g0, vis2, x2, y2) {
            lemma_vis2_at(g0, vis, vis2, y, a, b, x2, y2);
            if vis[g0.idx(x2, y2)] {
                assert(vert_ok(g0, rej, vis, stack, pend, x2, y2));
                lemma_carry(g0, rej, vis, vis2, stack, stack2, y, cur, pb, a, b, x2, y2 + 1);
                lemma_carry(g0, rej, vis, vis2, stack, stack2, y, cur, pb, a, b, x2, y2 - 1);
            } else {
                assert(y2 == y && a <= x2 <= b);
                // the row ahead is scheduled by the seed that goes on
                if 0 <= ny < g0.height {
                    let k = choose|k: int| 0 <= k < stack2.len() && #[trigger] stack2[k] == (c, ny as u32, parent.2);
                    assert(covers(stack2[k], x2, ny));
                } else {
                    assert(settled(g0, rej, vis2, x2, ny));
                }
                assert(handled(g0, rej, vis2, stack2, pend2, x2, ny));
                // the row behind is filled, settled, or scheduled by an overhang seed
                if x2 + 2 <= pa {
                    let k = choose|k: int| 0 <= k < stack2.len()
                        && (#[trigger] stack2[k]).0 == Span(c.0, (pa - 2) as u32) && stack2[k].1 == py;
                    assert(covers(stack2[k], x2, py));
                } else if x2 >= pb + 2 {
                    let k = choose|k: int| 0 <= k < stack2.len()
                        && (#[trigger] stack2[k]).0 == Span((pb + 2) as u32, c.1) && stack2[k].1 == py;
                    assert(covers(stack2[k], x2, py));
                } else {
                    if pa <= x2 <= pb {
                        assert(vis_at(g0, vis, x2, py));
                    }
                    assert(settled(g0, rej, vis, x2, py));
                    lemma_settled_run(g0, rej, vis, vis2, y, a, b, x2, py);
                }
                assert(handled(g0, rej, vis2, stack2, pend2, x2, py));
                assert(parent.2 == Dir::Up || parent.2 == Dir::Down);
            }
        }
    }
    // neighbours left and right
    assert forall|x2: int, y2: int| #[trigger] horiz_ok(g0, rej, vis2, x2, y2) by {
        if vis_at(g0, vis2, x2, y2) {
            lemma_vis2_at(g0, vis, vis2, y, a, b, x2, y2);
            if vis[g0.idx(x2, y2)] {
                assert(horiz_ok(g0, rej, vis, x2, y2));
                lemma_settled_run(g0, rej, vis, vis2, y, a, b, x2 - 1, y2);
                lemma_settled_run(g0, rej, vis, vis2, y, a, b, x2 + 1, y2);
            } else {
                lemma_settled_run(g0, rej, vis, vis2, y, a, b, x2 - 1, y2);
                lemma_settled_run(g0, rej, vis, vis2, y, a, b, x2 + 1, y2);
            }
        }
    }
    // every filled tile is reached
    let xa = if a >= cur { a } else { cur };
    assert(pa <= xa <= pb && a <= xa <= b);
    assert(vis_at(g0, vis, xa, py));
    assert(sound(g0, ok, start, vis, xa, py));
    assert(inside(g0, ok, vis, xa, y));
    lemma_reaches_step(g0, ok, start, (xa, py), (xa, y));
    assert forall|x2: int, y2: int| #[trigger] sound(g0, ok, start, vis2, x2, y2) by {
        if vis_at(g0, vis2, x2, y2) {
            lemma_vis2_at(g0, vis, vis2, y, a, b, x2, y2);
            if vis[g0.idx(x2, y2)] {
                assert(sound(g0, ok, start, vis, x2, y2));
            } else {
                assert forall|xx: int| a <= xx <= b implies #[trigger] g0.in_bounds(xx, y) by {
                    assert(inside(g0, ok, vis, xx, y));
                }
                assert forall|xx: int| a <= xx <= b implies ok(#[trigger] g0.at(xx, y)) by {
                    assert(inside(g0, ok, vis, xx, y));
                }
                lemma_row_reach(g0, ok, start, y, a, b, xa, x2);
            }
        }
    }
}

proof fn lemma_pop_handled<T>(
    g0: GridView<T>, rej: spec_fn(T) -> bool, vis: Seq<bool>, stack0: Seq<Seed>, stack: Seq<Seed>, nx: int, ny: int,
)
    requires
        stack0.len() > 0,
        stack == stack0.drop_last(),
        handled(g0, rej, vis, stack0, (0, 1, 0), nx, ny),
    ensures
        handled(g0, rej, vis, stack, (stack0.last().1 as int, stack0.last().0.0 as int, stack0.last().0.1 as int), nx, ny),
{
    if covered(stack0, nx, ny) && !settled(g0, rej, vis, nx, ny) {
        let k = choose|k: int| 0 <= k < stack0.len() && #[trigger] covers(stack0[k], nx, ny);
        if k < stack.len() {
            assert(covers(stack[k], nx, ny));
        }
    }
}

/// With no seeds left, the filled tiles are exactly the region of the start,
/// and every tile next to it but outside was rejected.
proof fn lemma_fill_done<T>(
    g0: GridView<T>, ok: spec_fn(T) -> bool, rej: spec_fn(T) -> bool, start: (int, int), vis: Seq<bool>,
    stack: Seq<Seed>, pend: (int, int, int),
)
    requires
        g0.valid(),
        forall|t: T| #[trigger] ok(t) ==> !rej(t),
        fill_inv(g0, ok, rej, start, vis, stack, pend),
        stack.len() == 0,
        pend.1 > pend.2,
        g0.in_bounds(start.0, start.1) && ok(g0.at(start.0, start.1)) ==> vis_at(g0, vis, start.0, start.1),
    ensures
        forall|i: int| 0 <= i < vis.len() ==> vis[i] == #[trigger] region(g0, ok, start).contains(i),
        forall|p: (int, int), q: (int, int)|
            #![trigger reaches(g0, ok, start, p), reaches(g0, ok, start, q)]
            reaches(g0, ok, start, p) && adjacent(p, q) && g0.in_bounds(q.0, q.1)
                && !reaches(g0, ok, start, q) ==> rej(g0.at(q.0, q.1)),
{
    let member = |p: (int, int)| vis_at(g0, vis, p.0, p.1);
    assert forall|p: (int, int), q: (int, int)|
        #[trigger] member(p) && adjacent(p, q) && g0.in_bounds(q.0, q.1) && ok(g0.at(q.0, q.1))
            implies #[trigger] member(q) by {
        assert(vert_ok(g0, rej, vis, stack, pend, p.0, p.1));
        assert(horiz_ok(g0, rej, vis, p.0, p.1));
        assert(!covered(stack, q.0, q.1));
        assert(settled(g0, rej, vis, q.0, q.1));
    }
    assert forall|p: (int, int)| #[trigger] reaches(g0, ok, start, p) implies member(p) by {
        let path = choose|path: Seq<(int, int)>| #[trigger] is_path(g0, ok, path) && path[0] == start && path.last() == p;
        assert(g0.in_bounds(path[0].0, path[0].1));
        assert(ok(g0.at(path[0].0, path[0].1)));
        lemma_closed_holds_path(g0, ok, member, path);
    }
    assert forall|i: int| 0 <= i < vis.len() implies vis[i] == #[trigger] region(g0, ok, start).contains(i) by {
        lemma_coords(g0.width, g0.height, i);
        let p = coords(g0.width, i);
        if vis[i] {
            assert(sound(g0, ok, start, vis, p.0, p.1));
        }
        if region(g0, ok, start).contains(i) {
            assert(member(p));
        }
    }
    assert forall|p: (int, int), q: (int, int)|
        #![trigger reaches(g0, ok, start, p), reaches(g0, ok, start, q)]
        reaches(g0, ok, start, p) && adjacent(p, q) && g0.in_bounds(q.0, q.1)
            && !reaches(g0, ok, start, q) implies rej(g0.at(q.0, q.1)) by {
        assert(member(p));
        assert(vert_ok(g0, rej, vis, stack, pend, p.0, p.1));
        assert(horiz_ok(g0, rej, vis, p.0, p.1));
        assert(settled(g0, rej, vis, q.0, q.1));
        assert(sound(g0, ok, start, vis, q.0, q.1));
    }
}

/// Recolors with `color` every tile reachable from `start` through 4-connected
/// tiles that `color_equivalence` accepts against the start tile's original
/// color, and returns how many tiles it recolored. Nothing happens when
/// `start` lies outside the store.
///
/// This is a span-based scan-line fill: it fills whole runs of a row at a time
/// and keeps an explicit stack of rows still to scan. A tile counts as waiting
/// to be filled only until it has been filled, so the fill ends even where the
/// new color itself would be accepted.
pub fn flood_fill<G, T, P>(tiles: &mut G, start: (u32, u32), color_equivalence: P, color: T) -> (count: usize)
    where G: Tiles<Tile = T>, T: Copy, P: Fn(&T, &T) -> bool,
    requires
        old(tiles).tiles_view().valid(),
        callable::<T, P>(color_equivalence),
        deterministic::<T, P>(color_equivalence),
    ensures
        final(tiles).tiles_view()
            == filled_view(old(tiles).tiles_view(), color_equivalence, (start.0 as int, start.1 as int), color),
        count == fill_region(old(tiles).tiles_view(), color_equivalence, (start.0 as int, start.1 as int)).len(),
        rim_rejected(old(tiles).tiles_view(), color_equivalence, (start.0 as int, start.1 as int)),
        start_judged(old(tiles).tiles_view(), color_equivalence, (start.0 as int, start.1 as int)),
{
    let ghost g0 = tiles.tiles_view();
    let ghost st = (start.0 as int, start.1 as int);
    let (w, h) = tiles.dimensions();
    let start_color: T = match tiles.get_tile(start.0, start.1) {
        Some(t) => *t,
        None => {
            proof {
                let ok0 = accepts(color_equivalence, g0.at(st.0, st.1));
                assert forall|p: (int, int)| !reaches(g0, ok0, st, p) by {
                    if reaches(g0, ok0, st, p) {
                        lemma_reaches_start(g0, ok0, st, p);
                    }
                }
                assert(fill_region(g0, color_equivalence, st) =~= Set::empty());
                assert(tiles.tiles_view().cells =~= filled_view(g0, color_equivalence, st, color).cells);
            }
            return 0;
        }
    };
    let ghost ok = accepts(color_equivalence, start_color);
    let ghost rej = rejects(color_equivalence, start_color);
    assert(forall|t: T| #[trigger] ok(t) ==> !rej(t));
    let pred = &color_equivalence;
    proof {
        lemma_idx_in_range(g0.width, g0.height, 0, 0);
    }
    let n = (w as usize) * (h as usize);
    let mut visited: Vec<bool> = Vec::new();
    let mut i: usize = 0;
    while i < n
        invariant
            i <= n,
            visited@.len() == i,
            forall|j: int| 0 <= j < i ==> !visited@[j],
        decreases n - i,
    {
        visited.push(false);
        i = i + 1;
    }
    assert(vis_set(visited@) =~= Set::empty());
    let mut count: usize = 0;
    let mut stack: Vec<Seed> = Vec::new();
    let ghost empty_pend = (0int, 1int, 0int);
    match expand_range(tiles, &visited, pred, &start_color, w, start.0, start.1, Ghost(g0)) {
        None => {
            proof {
                let vis = visited@;
                assert forall|x2: int, y2: int| g0.in_bounds(x2, y2) implies !#[trigger] vis_at(g0, vis, x2, y2) by {
                    lemma_idx_in_range(g0.width, g0.height, x2, y2);
                }
                assert forall|x2: int, y2: int| #[trigger] vert_ok(g0, rej, vis, stack@, empty_pend, x2, y2) by {
                    if g0.in_bounds(x2, y2) {
                        assert(!vis_at(g0, vis, x2, y2));
                    }
                }
                assert forall|x2: int, y2: int| #[trigger] horiz_ok(g0, rej, vis, x2, y2) by {
                    if g0.in_bounds(x2, y2) {
                        assert(!vis_at(g0, vis, x2, y2));
                    }
                }
                assert forall|x2: int, y2: int| #[trigger] sound(g0, ok, st, vis, x2, y2) by {
                    if g0.in_bounds(x2, y2) {
                        assert(!vis_at(g0, vis, x2, y2));
                    }
                }
                lemma_idx_in_range(g0.width, g0.height, st.0, st.1);
                assert(rej(g0.at(st.0, st.1)));
            }
        },
        Some(sp) => {
            let ghost vis0 = visited@;
            assert(inside(g0, ok, vis0, sp.0 as int, st.1));
            assert(inside(g0, ok, vis0, sp.1 as int, st.1));
            assert(inside(g0, ok, vis0, st.0, st.1));
            assert forall|xx: int| sp.0 <= xx <= sp.1 implies !#[trigger] vis0[g0.idx(xx, st.1)] by {
                assert(inside(g0, ok, vis0, xx, st.1));
            }
            fill_span(tiles, &mut visited, &mut count, w, sp.0, sp.1, start.1, color, Ghost(g0));
            match Dir::Up.step(start.1, h) {
                Some(up) => stack.push((sp, up, Dir::Up)),
                None => {},
            }
            match Dir::Down.step(start.1, h) {
                Some(down) => stack.push((sp, down, Dir::Down)),
                None => {},
            }
            proof {
                let vis = visited@;
                let a = sp.0 as int;
                let b = sp.1 as int;
                let y = st.1;
                lemma_reaches_self(g0, ok, st);
                assert forall|x2: int, y2: int| #[trigger] vert_ok(g0, rej, vis, stack@, empty_pend, x2, y2) by {
                    if vis_at(g0, vis, x2, y2) {
                        lemma_vis2_at(g0, vis0, vis, y, a, b, x2, y2);
                        assert(y2 == y && a <= x2 <= b);
                        if g0.in_bounds(x2, y + 1) {
                            let k = stack@.len() - 1 - (if y > 0 { 1int } else { 0int });
                            assert(covers(stack@[k], x2, y + 1));
                        }
                        if g0.in_bounds(x2, y - 1) {
                            let k = stack@.len() - 1;
                            assert(covers(stack@[k], x2, y - 1));
                        }
                    }
                }
                assert forall|x2: int, y2: int| #[trigger] horiz_ok(g0, rej, vis, x2, y2) by {
                    if vis_at(g0, vis, x2, y2) {
                        lemma_vis2_at(g0, vis0, vis, y, a, b, x2, y2);
                        lemma_settled_run(g0, rej, vis0, vis, y, a, b, x2 - 1, y2);
                        lemma_settled_run(g0, rej, vis0, vis, y, a, b, x2 + 1, y2);
                    }
                }
                assert forall|xx: int| a <= xx <= b implies #[trigger] g0.in_bounds(xx, y) by {
                    assert(inside(g0, ok, vis0, xx, y));
                }
                assert forall|xx: int| a <= xx <= b implies ok(#[trigger] g0.at(xx, y)) by {
                    assert(inside(g0, ok, vis0, xx, y));
                }
                assert forall|x2: int, y2: int| #[trigger] sound(g0, ok, st, vis, x2, y2) by {
                    if vis_at(g0, vis, x2, y2) {
                        lemma_vis2_at(g0, vis0, vis, y, a, b, x2, y2);
                        lemma_row_reach(g0, ok, st, y, a, b, st.0, x2);
                    }
                }
                assert forall|k: int| 0 <= k < stack@.len() implies #[trigger] seed_ok(g0, rej, vis, stack@[k]) by {
                    assert forall|x: int| a <= x <= b implies #[trigger] vis_at(g0, vis, x, y) by {
                        lemma_vis2_at(g0, vis0, vis, y, a, b, x, y);
                    }
                    lemma_settled_run(g0, rej, vis0, vis, y, a, b, a - 1, y);
                    lemma_settled_run(g0, rej, vis0, vis, y, a, b, b + 1, y);
                }
                lemma_vis2_at(g0, vis0, vis, y, a, b, st.0, st.1);
            }
        },
    }
    proof {
        lemma_vis_set_bound(visited@);
    }
    while stack.len() > 0
        invariant
            g0.valid(),
            w == g0.width,
            h == g0.height,
            n == g0.cells.len(),
            callable::<T, P>(*pred),
            deterministic::<T, P>(*pred),
            ok == accepts(*pred, start_color),
            rej == rejects(*pred, start_color),
            forall|t: T| #[trigger] ok(t) ==> !rej(t),
            cells_ok(tiles.tiles_view(), g0, visited@, color),
            count == vis_set(visited@).len(),
            count <= n,
            fill_inv(g0, ok, rej, st, visited@, stack@, empty_pend),
            empty_pend == (0int, 1int, 0int),
            g0.in_bounds(st.0, st.1) && ok(g0.at(st.0, st.1)) ==> vis_at(g0, visited@, st.0, st.1),
            g0.in_bounds(st.0, st.1),
            start_color == g0.at(st.0, st.1),
            ok(start_color) || rej(start_color),
        decreases 4 * (n - count) + stack.len(),
    {
        let ghost m0 = 4 * (n - count) + stack.len();
        let ghost stack0 = stack@;
        let parent: Seed = stack.pop().unwrap();
        let ghost py = parent.1 as int - off(parent.2);
        proof {
            assert(seed_ok(g0, rej, visited@, stack0[stack0.len() - 1]));
            let pend = (parent.1 as int, parent.0.0 as int, parent.0.1 as int);
            assert(stack@ == stack0.drop_last());
            assert forall|x2: int, y2: int| #[trigger] vert_ok(g0, rej, visited@, stack@, pend, x2, y2) by {
                assert(vert_ok(g0, rej, visited@, stack0, empty_pend, x2, y2));
                if vis_at(g0, visited@, x2, y2) {
                    lemma_pop_handled(g0, rej, visited@, stack0, stack@, x2, y2 + 1);
                    lemma_pop_handled(g0, rej, visited@, stack0, stack@, x2, y2 - 1);
                }
            }
            assert forall|k: int| 0 <= k < stack@.len() implies #[trigger] seed_ok(g0, rej, visited@, stack@[k]) by {
                assert(seed_ok(g0, rej, visited@, stack0[k]));
            }
        }
        let y = parent.1;
        let pb = parent.0.1;
        let mut cur: u64 = parent.0.0 as u64;
        while cur <= pb as u64
            invariant
                g0.valid(),
                w == g0.width,
                h == g0.height,
                n == g0.cells.len(),
                callable::<T, P>(*pred),
                deterministic::<T, P>(*pred),
                ok == accepts(*pred, start_color),
                rej == rejects(*pred, start_color),
                forall|t: T| #[trigger] ok(t) ==> !rej(t),
                cells_ok(tiles.tiles_view(), g0, visited@, color),
                count == vis_set(visited@).len(),
                count <= n,
                fill_inv(g0, ok, rej, st, visited@, stack@, (y as int, cur as int, pb as int)),
                seed_ok(g0, rej, visited@, parent),
                y == parent.1,
                pb == parent.0.1,
                parent.0.0 <= cur,
                py == parent.1 - off(parent.2),
                empty_pend == (0int, 1int, 0int),
                cur <= w + 1,
                g0.in_bounds(st.0, st.1) && ok(g0.at(st.0, st.1)) ==> vis_at(g0, visited@, st.0, st.1),
                4 * (n - count) + stack.len() < m0,
            decreases w as int + 2 - cur as int,
        {
            match next_child_range_right(tiles, &visited, pred, &start_color, w, pb, cur, y, Ghost(g0)) {
                None => {
                    proof {
                        let pend = (y as int, cur as int, pb as int);
                        let pend2 = (y as int, pb as int + 1, pb as int);
                        assert forall|x2: int, y2: int| #[trigger] vert_ok(g0, rej, visited@, stack@, pend2, x2, y2) by {
                            assert(vert_ok(g0, rej, visited@, stack@, pend, x2, y2));
                            if pending(pend, x2, y2 + 1) {
                                assert(settled(g0, rej, visited@, x2, y2 + 1));
                            }
                            if pending(pend, x2, y2 - 1) {
                                assert(settled(g0, rej, visited@, x2, y2 - 1));
                            }
                        }
                    }
                    cur = pb as u64 + 1;
                },
                Some(child) => {
                    let ghost vis0 = visited@;
                    let ghost stk0 = stack@;
                    proof {
                        assert(inside(g0, ok, vis0, child.0 as int, y as int));
                        assert(inside(g0, ok, vis0, child.1 as int, y as int));
                        assert forall|xx: int| child.0 <= xx <= child.1 implies !#[trigger] vis0[g0.idx(xx, y as int)] by {
                            assert(inside(g0, ok, vis0, xx, y as int));
                        }
                    }
                    fill_span(tiles, &mut visited, &mut count, w, child.0, child.1, y, color, Ghost(g0));
                    let ghost k_fwd = stack@.len() as int;
                    match parent.2.step(y, h) {
                        Some(next_y) => stack.push((child, next_y, parent.2)),
                        None => {},
                    }
                    let back = parent.2.reversed();
                    let prev_y: u32 = back.step(y, h).unwrap();
                    let ghost k_left = stack@.len() as int;
                    if parent.0.0 >= 2 && child.0 <= parent.0.0 - 2 {
                        stack.push((Span(child.0, parent.0.0 - 2), prev_y, back));
                    }
                    let ghost k_right = stack@.len() as int;
                    if child.1 as u64 >= pb as u64 + 2 {
                        stack.push((Span(pb + 2, child.1), prev_y, back));
                    }
                    proof {
                        assert(prev_y == py);
                        assert(inside(g0, ok, vis0, child.1 as int, y as int));
                        if 0 <= y + off(parent.2) < g0.height {
                            assert(stack@[k_fwd] == (child, (y + off(parent.2)) as u32, parent.2));
                        }
                        if child.0 + 2 <= parent.0.0 {
                            assert(stack@[k_left].0 == Span(child.0, (parent.0.0 - 2) as u32));
                        }
                        if child.1 >= parent.0.1 + 2 {
                            assert(stack@[k_right].0 == Span((parent.0.1 + 2) as u32, child.1));
                        }
                        assert forall|k: int| stk0.len() <= k < stack@.len() implies
                            child_seed(parent, child, y as int, g0.height as int, #[trigger] stack@[k]) by {
                        }
                        lemma_child_step(g0, ok, rej, st, vis0, visited@, stk0, stack@, parent, cur as int, child);
                        lemma_vis_set_bound(visited@);
                        if g0.in_bounds(st.0, st.1) && ok(g0.at(st.0, st.1)) {
                            lemma_vis2_at(g0, vis0, visited@, y as int, child.0 as int, child.1 as int, st.0, st.1);
                        }
                        lemma_seed_run(g0, rej, vis0, visited@, y as int, child.0 as int, child.1 as int, parent);
                    }
                    cur = child.1 as u64 + 2;
                },
            }
        }
        proof {
            let pend = (y as int, cur as int, pb as int);
            assert forall|x2: int, y2: int| #[trigger] vert_ok(g0, rej, visited@, stack@, empty_pend, x2, y2) by {
                assert(vert_ok(g0, rej, visited@, stack@, pend, x2, y2));
            }
        }
    }
    proof {
        lemma_fill_done(g0, ok, rej, st, visited@, stack@, empty_pend);
        let reg = fill_region(g0, color_equivalence, st);
        assert(reg == region(g0, ok, st));
        assert(vis_set(visited@) =~= reg);
        assert(tiles.tiles_view().cells =~= filled_view(g0, color_equivalence, st, color).cells);
        if ok(start_color) {
            assert(sound(g0, ok, st, visited@, st.0, st.1));
        }
    }
    count
}

proof fn lemma_col_reach<T>(g0: GridView<T>, ok: spec_fn(T) -> bool, start: (int, int), x: int, y0: int, y: int)
    requires
        0 <= y < g0.height,
        0 <= y0 < g0.height,
        reaches(g0, ok, start, (x, y0)),
        forall|yy: int| 0 <= yy < g0.height ==> #[trigger] g0.in_bounds(x, yy),
        forall|yy: int| 0 <= yy < g0.height ==> ok(#[trigger] g0.at(x, yy)),
    ensures
        reaches(g0, ok, start, (x, y)),
    decreases (if y >= y0 { y - y0 } else { y0 - y }),
{
    if y > y0 {
        lemma_col_reach(g0, ok, start, x, y0, y - 1);
        assert(ok(g0.at(x, y)) && g0.in_bounds(x, y));
        lemma_reaches_step(g0, ok, start, (x, y - 1), (x, y));
    } else if y < y0 {
        lemma_col_reach(g0, ok, start, x, y0, y + 1);
        assert(ok(g0.at(x, y)) && g0.in_bounds(x, y));
        lemma_reaches_step(g0, ok, start, (x, y + 1), (x, y));
    }
}

/// When every tile of the grid is accepted against the start tile's color, a
/// fill from any tile of the grid recolors all `width * height` tiles.
pub proof fn lemma_fill_all_open<T, P: Fn(&T, &T) -> bool>(g: GridView<T>, pred: P, start: (int, int), color: T)
    requires
        g.valid(),
        g.in_bounds(start.0, start.1),
        forall|x: int, y: int| g.in_bounds(x, y) ==> accepts(pred, g.at(start.0, start.1))(#[trigger] g.at(x, y)),
    ensures
        fill_region(g, pred, start).len() == g.width * g.height,
        forall|x: int, y: int| g.in_bounds(x, y) ==> #[trigger] filled_view(g, pred, start, color).at(x, y) == color,
{
    let ok = accepts(pred, g.at(start.0, start.1));
    lemma_reaches_self(g, ok, start);
    assert forall|x: int, y: int| g.in_bounds(x, y) implies #[trigger] reaches(g, ok, start, (x, y)) by {
        assert forall|xx: int| 0 <= xx < g.width implies #[trigger] g.in_bounds(xx, start.1) by {}
        assert forall|xx: int| 0 <= xx < g.width implies ok(#[trigger] g.at(xx, start.1)) by {
            assert(g.in_bounds(xx, start.1));
        }
        lemma_row_reach(g, ok, start, start.1, 0, g.width - 1, start.0, x);
        assert forall|yy: int| 0 <= yy < g.height implies #[trigger] g.in_bounds(x, yy) by {}
        assert forall|yy: int| 0 <= yy < g.height implies ok(#[trigger] g.at(x, yy)) by {
            assert(g.in_bounds(x, yy));
        }
        lemma_col_reach(g, ok, start, x, start.1, y);
    }
    let full = vstd::set_lib::set_int_range(0, (g.width * g.height) as int);
    assert forall|i: int| #[trigger] full.contains(i) <==> fill_region(g, pred, start).contains(i) by {
        if 0 <= i < g.width * g.height {
            lemma_coords(g.width, g.height, i);
            let p = coords(g.width, i);
            assert(reaches(g, ok, start, (p.0, p.1)));
        }
    }
    assert(full =~= fill_region(g, pred, start));
    vstd::set_lib::lemma_int_range(0, (g.width * g.height) as int);
    assert forall|x: int, y: int| g.in_bounds(x, y) implies #[trigger] filled_view(g, pred, start, color).at(x, y) == color by {
        lemma_idx_in_range(g.width, g.height, x, y);
        assert(full.contains(g.idx(x, y)));
    }
}

/// A tile that the predicate rejects against the start tile's color keeps its
/// value, wherever it lies.
pub proof fn lemma_fill_keeps_rejected<T, P: Fn(&T, &T) -> bool>(
    g: GridView<T>, pred: P, start: (int, int), color: T, x: int, y: int,
)
    requires
        g.valid(),
        deterministic::<T, P>(pred),
        g.in_bounds(x, y),
        rejects(pred, g.at(start.0, start.1))(g.at(x, y)),
    ensures
        filled_view(g, pred, start, color).at(x, y) == g.at(x, y),
{
    let ok = accepts(pred, g.at(start.0, start.1));
    lemma_coords_of_idx(g.width, g.height, x, y);
    if fill_region(g, pred, start).contains(g.idx(x, y)) {
        lemma_reaches_start(g, ok, start, (x, y));
        assert(pred.ensures((&g.at(x, y), &g.at(start.0, start.1)), true));
    }
}

/// With a predicate that accepts a tile only against its own value, filling a
/// second time from the same start with the same color changes nothing.
pub proof fn lemma_fill_idempotent<T, P: Fn(&T, &T) -> bool>(g: GridView<T>, pred: P, start: (int, int), color: T)
    requires
        g.valid(),
        forall|a: T, b: T| #[trigger] accepts(pred, b)(a) ==> a == b,
    ensures
        filled_view(filled_view(g, pred, start, color), pred, start, color) == filled_view(g, pred, start, color),
{
    let g1 = filled_view(g, pred, start, color);
    let g2 = filled_view(g1, pred, start, color);
    let ok = accepts(pred, g.at(start.0, start.1));
    if g.in_bounds(start.0, start.1) && ok(g.at(start.0, start.1)) {
        lemma_reaches_self(g, ok, start);
        lemma_coords_of_idx(g.width, g.height, start.0, start.1);
        assert(fill_region(g, pred, start).contains(g.idx(start.0, start.1)));
        assert(g1.at(start.0, start.1) == color);
        let ok1 = accepts(pred, color);
        assert forall|i: int| 0 <= i < g1.cells.len() implies #[trigger] g2.cells[i] == g1.cells[i] by {
            if fill_region(g1, pred, start).contains(i) {
                lemma_coords(g.width, g.height, i);
                let p = coords(g.width, i);
                lemma_reaches_start(g1, ok1, start, p);
                assert(ok1(g1.at(p.0, p.1)));
            }
        }
        assert(g2.cells =~= g1.cells);
    } else {
        assert forall|i: int| !#[trigger] fill_region(g, pred, start).contains(i) by {
            if fill_region(g, pred, start).contains(i) {
                lemma_reaches_start(g, ok, start, coords(g.width, i));
            }
        }
        assert(g1.cells =~= g.cells);
        assert(g1 == g);
    }
}

} // verus!
