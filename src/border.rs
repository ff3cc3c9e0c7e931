//! The wall segments between open and closed tiles.

use vstd::prelude::*;
use crate::cardinal::Cardinal;
use crate::grid::{Grid, GridView, TileAddress, lemma_idx_in_range, lemma_idx_injective};

verus! {

/// One unit-length wall on the grid's edge lattice. A vertical border at
/// `(x, y)` is the west side of tile `(x, y)`; a horizontal one is its south side.
#[derive(Copy, Clone, Debug, PartialEq, Eq, Structural)]
pub struct Border {
    pos: TileAddress,
    is_vertical: bool,
}

impl View for Border {
    type V = (int, int, bool);

    closed spec fn view(&self) -> (int, int, bool) {
        (self.pos.0 as int, self.pos.1 as int, self.is_vertical)
    }
}

impl Border {
    /// The border on the `cardinal` side of the tile at `pos`.
    fn at(pos: TileAddress, cardinal: Cardinal) -> (r: Self)
        requires
            cardinal == Cardinal::North ==> pos.1 < u32::MAX,
            cardinal == Cardinal::East ==> pos.0 < u32::MAX,
        ensures
            r@ == match cardinal {
                Cardinal::North => (pos.0 as int, pos.1 + 1, false),
                Cardinal::East => (pos.0 + 1, pos.1 as int, true),
                Cardinal::South => (pos.0 as int, pos.1 as int, false),
                Cardinal::West => (pos.0 as int, pos.1 as int, true),
            },
    {
        match cardinal {
            Cardinal::North => Border { pos: TileAddress(pos.0, pos.1 + 1), is_vertical: false },
            Cardinal::East => Border { pos: TileAddress(pos.0 + 1, pos.1), is_vertical: true },
            Cardinal::South => Border { pos, is_vertical: false },
            Cardinal::West => Border { pos, is_vertical: true },
        }
    }

    pub fn pos(&self) -> (r: &TileAddress)
        ensures
            r.0 == self@.0,
            r.1 == self@.1,
    {
        &self.pos
    }

    pub fn is_vertical(&self) -> (r: bool)
        ensures
            r == self@.2,
    {
        self.is_vertical
    }
}

/// The tiles that the test can accept.
pub open spec fn accepted<T, F: Fn(&T) -> bool>(test: F) -> spec_fn(T) -> bool {
    |t: T| test.ensures((&t,), true)
}

/// The test may be called on any tile and never answers both ways.
pub open spec fn sound_test<T, F: Fn(&T) -> bool>(test: F) -> bool {
    &&& forall|t: &T| #[trigger] test.requires((t,))
    &&& forall|t: &T| #[trigger] test.ensures((t,), true) ==> !test.ensures((t,), false)
}

/// `(x, y)` is a tile of the grid and it is open; outside the grid nothing is open.
pub open spec fn open_at<T>(g: GridView<T>, ok: spec_fn(T) -> bool, x: int, y: int) -> bool {
    g.in_bounds(x, y) && ok(g.at(x, y))
}

/// A wall stands on edge `b` exactly when one side of it is open and the other is not.
pub open spec fn is_border<T>(g: GridView<T>, ok: spec_fn(T) -> bool, b: (int, int, bool)) -> bool {
    if b.2 {
        open_at(g, ok, b.0 - 1, b.1) != open_at(g, ok, b.0, b.1)
    } else {
        open_at(g, ok, b.0, b.1 - 1) != open_at(g, ok, b.0, b.1)
    }
}

/// The edge shared by two adjacent tiles.
pub open spec fn edge_between(p: (int, int), q: (int, int)) -> (int, int, bool) {
    if p.1 == q.1 {
        (if p.0 > q.0 { p.0 } else { q.0 }, p.1, true)
    } else {
        (p.0, if p.1 > q.1 { p.1 } else { q.1 }, false)
    }
}

pub open spec fn border_views(bs: Seq<Border>) -> Seq<(int, int, bool)> {
    bs.map_values(|b: Border| b@)
}

/// The tile that reports edge `b`: the one west of a vertical edge, south of a
/// horizontal one, or the tile itself on the grid's west and south sides.
spec fn owner(b: (int, int, bool)) -> (int, int) {
    if b.2 {
        (if b.0 == 0 { 0 } else { b.0 - 1 }, b.1)
    } else {
        (b.0, if b.1 == 0 { 0 } else { b.1 - 1 })
    }
}

spec fn when(c: bool, b: (int, int, bool)) -> Seq<(int, int, bool)> {
    if c { seq![b] } else { Seq::empty() }
}

/// The borders that tile `(x, y)` reports, in order.
spec fn emitted<T>(g: GridView<T>, ok: spec_fn(T) -> bool, x: int, y: int) -> Seq<(int, int, bool)> {
    if open_at(g, ok, x, y) {
        when(x == 0, (x, y, true)) + when(y == 0, (x, y, false)) + when(!open_at(g, ok, x, y + 1), (x, y + 1, false))
            + when(!open_at(g, ok, x + 1, y), (x + 1, y, true))
    } else {
        when(open_at(g, ok, x, y + 1), (x, y + 1, false)) + when(open_at(g, ok, x + 1, y), (x + 1, y, true))
    }
}

proof fn lemma_emitted<T>(g: GridView<T>, ok: spec_fn(T) -> bool, x: int, y: int)
    requires
        g.in_bounds(x, y),
    ensures
        emitted(g, ok, x, y).no_duplicates(),
        forall|b: (int, int, bool)| #[trigger] emitted(g, ok, x, y).contains(b)
            <==> (is_border(g, ok, b) && owner(b) == (x, y)),
{
    let e = emitted(g, ok, x, y);
    assert forall|b: (int, int, bool)| #[trigger] e.contains(b) <==> (is_border(g, ok, b) && owner(b) == (x, y)) by {
        if e.contains(b) {
            let i = choose|i: int| 0 <= i < e.len() && e[i] == b;
        }
        if is_border(g, ok, b) && owner(b) == (x, y) {
            if b.2 {
                if b.0 == 0 {
                    assert(!open_at(g, ok, -1, y));
                } else {
                    assert(b == (x + 1, y, true));
                }
            } else {
                if b.1 == 0 {
                    assert(!open_at(g, ok, x, -1));
                } else {
                    assert(b == (x, y + 1, false));
                }
            }
            if open_at(g, ok, x, y) {
                let e1 = when(x == 0, (x, y, true));
                let e2 = when(y == 0, (x, y, false));
                let e3 = when(!open_at(g, ok, x, y + 1), (x, y + 1, false));
                let e4 = when(!open_at(g, ok, x + 1, y), (x + 1, y, true));
                assert(e == e1 + e2 + e3 + e4);
                if b == (x, y, true) && x == 0 {
                    assert(e[0] == b);
                } else if b == (x, y, false) && y == 0 {
                    assert(e[e1.len() as int] == b);
                } else if b == (x, y + 1, false) {
                    assert(e[(e1.len() + e2.len()) as int] == b);
                } else {
                    assert(e[(e1.len() + e2.len() + e3.len()) as int] == b);
                }
            } else {
                let e3 = when(open_at(g, ok, x, y + 1), (x, y + 1, false));
                let e4 = when(open_at(g, ok, x + 1, y), (x + 1, y, true));
                if b == (x, y + 1, false) {
                    assert(e[0] == b);
                } else {
                    assert(e[e3.len() as int] == b);
                }
            }
        }
    }
}

proof fn lemma_push_view(bs: Seq<Border>, b: Border)
    ensures
        border_views(bs.push(b)) == border_views(bs).push(b@),
{
    assert(border_views(bs.push(b)) =~= border_views(bs).push(b@));
}

/// Whether `pos` is a tile of the grid that `test` accepts.
fn open_tile<T, F: Fn(&T) -> bool>(grid: &Grid<T>, test: &F, pos: &TileAddress) -> (r: bool)
    requires
        grid@.valid(),
        sound_test::<T, F>(*test),
    ensures
        r == open_at(grid@, accepted(*test), pos.0 as int, pos.1 as int),
{
    match grid.tile_at(pos) {
        Some(t) => test(t),
        None => false,
    }
}

spec fn owned_before<T>(g: GridView<T>, b: (int, int, bool), k: int) -> bool {
    g.in_bounds(owner(b).0, owner(b).1) && g.idx(owner(b).0, owner(b).1) < k
}

proof fn lemma_owner_in_bounds<T>(g: GridView<T>, ok: spec_fn(T) -> bool, b: (int, int, bool))
    requires
        is_border(g, ok, b),
    ensures
        g.in_bounds(owner(b).0, owner(b).1),
{
}

/// After the tile with index `k` has reported its borders, the list holds the
/// borders owned by tiles up to `k`, each once.
proof fn lemma_report_step<T>(
    g: GridView<T>, ok: spec_fn(T) -> bool, before: Seq<(int, int, bool)>, after: Seq<(int, int, bool)>,
    x: int, y: int, k: int,
)
    requires
        g.valid(),
        g.in_bounds(x, y),
        k == g.idx(x, y),
        before.no_duplicates(),
        forall|b: (int, int, bool)| #[trigger] before.contains(b) <==> (is_border(g, ok, b) && owned_before(g, b, k)),
        after == before + emitted(g, ok, x, y),
    ensures
        after.no_duplicates(),
        forall|b: (int, int, bool)| #[trigger] after.contains(b) <==> (is_border(g, ok, b) && owned_before(g, b, k + 1)),
{
    let e = emitted(g, ok, x, y);
    lemma_emitted(g, ok, x, y);
    assert forall|i: int, j: int| 0 <= i < before.len() && 0 <= j < e.len() implies before[i] != e[j] by {
        assert(before.contains(before[i]));
        assert(e.contains(e[j]));
    }
    vstd::seq_lib::lemma_no_dup_in_concat(before, e);
    assert forall|b: (int, int, bool)| #[trigger] after.contains(b) <==> (is_border(g, ok, b) && owned_before(g, b, k + 1)) by {
        if after.contains(b) {
            let i = choose|i: int| 0 <= i < after.len() && after[i] == b;
            if i < before.len() {
                assert(before.contains(b));
            } else {
                assert(e[i - before.len()] == b);
                assert(e.contains(b));
            }
        }
        if is_border(g, ok, b) && owned_before(g, b, k + 1) {
            if g.idx(owner(b).0, owner(b).1) == k {
                lemma_idx_injective(g.width, owner(b).0, owner(b).1, x, y);
                assert(e.contains(b));
                let j = choose|j: int| 0 <= j < e.len() && e[j] == b;
                assert(after[before.len() + j] == b);
            } else {
                assert(before.contains(b));
                let j = choose|j: int| 0 <= j < before.len() && before[j] == b;
                assert(after[j] == b);
            }
        }
    }
}

fn push_border(out: &mut Vec<Border>, b: Border)
    ensures
        border_views(final(out)@) == border_views(old(out)@).push(b@),
{
    proof {
        lemma_push_view(out@, b);
    }
    out.push(b);
}

/// Every wall segment between an open tile and a tile that is not open (or
/// lies outside the grid), each reported once. A tile is open when
/// `test_inside` accepts it; the grid's outer rectangle is walled wherever the
/// tile inside it is open.
pub fn collect_borders<T, F: Fn(&T) -> bool>(grid: &Grid<T>, test_inside: &F) -> (r: Vec<Border>)
    requires
        grid@.valid(),
        sound_test::<T, F>(*test_inside),
    ensures
        border_views(r@).no_duplicates(),
        forall|b: (int, int, bool)| #[trigger] border_views(r@).contains(b)
            <==> is_border(grid@, accepted(*test_inside), b),
        forall|p: (int, int), q: (int, int)| crate::region::adjacent(p, q) ==>
            (border_views(r@).contains(#[trigger] edge_between(p, q))
                <==> open_at(grid@, accepted(*test_inside), p.0, p.1) != open_at(grid@, accepted(*test_inside), q.0, q.1)),
{
    let ghost g = grid@;
    let ghost ok = accepted(*test_inside);
    let addrs = grid.addresses();
    let mut out: Vec<Border> = Vec::new();
    let mut k: usize = 0;
    while k < addrs.len()
        invariant
            g == grid@,
            g.valid(),
            ok == accepted(*test_inside),
            sound_test::<T, F>(*test_inside),
            addrs@.len() == g.width * g.height,
            forall|x: int, y: int| g.in_bounds(x, y) ==>
                #[trigger] addrs@[g.idx(x, y)] == TileAddress(x as u32, y as u32),
            k <= addrs@.len(),
            border_views(out@).no_duplicates(),
            forall|b: (int, int, bool)| #[trigger] border_views(out@).contains(b)
                <==> (is_border(g, ok, b) && owned_before(g, b, k as int)),
        decreases addrs@.len() - k,
    {
        let ghost x = crate::region::coords(g.width, k as int).0;
        let ghost y = crate::region::coords(g.width, k as int).1;
        proof {
            crate::region::lemma_coords(g.width, g.height, k as int);
            assert(addrs@[g.idx(x, y)] == TileAddress(x as u32, y as u32));
        }
        let addr = addrs[k];
        let ghost before = border_views(out@);
        if open_tile(grid, test_inside, &addr) {
            if addr.0 == 0 {
                push_border(&mut out, Border::at(addr, Cardinal::West));
            }
            let ghost s1 = border_views(out@);
            assert(s1 == before + when(x == 0, (x, y, true)));
            if addr.1 == 0 {
                push_border(&mut out, Border::at(addr, Cardinal::South));
            }
            let ghost s2 = border_views(out@);
            assert(s2 == s1 + when(y == 0, (x, y, false)));
            let to_north = TileAddress(addr.0, addr.1 + 1);
            if !open_tile(grid, test_inside, &to_north) {
                push_border(&mut out, Border::at(addr, Cardinal::North));
            }
            let ghost s3 = border_views(out@);
            assert(s3 == s2 + when(!open_at(g, ok, x, y + 1), (x, y + 1, false)));
            let to_east = TileAddress(addr.0 + 1, addr.1);
            if !open_tile(grid, test_inside, &to_east) {
                push_border(&mut out, Border::at(addr, Cardinal::East));
            }
            let ghost s4 = border_views(out@);
            assert(s4 == s3 + when(!open_at(g, ok, x + 1, y), (x + 1, y, true)));
            assert(s4 =~= before + emitted(g, ok, x, y));
        } else {
            let to_north = TileAddress(addr.0, addr.1 + 1);
            if open_tile(grid, test_inside, &to_north) {
                push_border(&mut out, Border::at(to_north, Cardinal::South));
            }
            let ghost s1 = border_views(out@);
            assert(s1 == before + when(open_at(g, ok, x, y + 1), (x, y + 1, false)));
            let to_east = TileAddress(addr.0 + 1, addr.1);
            if open_tile(grid, test_inside, &to_east) {
                push_border(&mut out, Border::at(to_east, Cardinal::West));
            }
            let ghost s2 = border_views(out@);
            assert(s2 == s1 + when(open_at(g, ok, x + 1, y), (x + 1, y, true)));
            assert(s2 =~= before + emitted(g, ok, x, y));
        }
        proof {
            lemma_report_step(g, ok, before, border_views(out@), x, y, k as int);
        }
        k = k + 1;
    }
    proof {
        assert forall|b: (int, int, bool)| #[trigger] border_views(out@).contains(b) <==> is_border(g, ok, b) by {
            if is_border(g, ok, b) {
                lemma_owner_in_bounds(g, ok, b);
                lemma_idx_in_range(g.width, g.height, owner(b).0, owner(b).1);
            }
        }
    }
    out
}

/// `b` lies on the grid's outer rectangle.
pub open spec fn on_perimeter<T>(g: GridView<T>, b: (int, int, bool)) -> bool {
    if b.2 {
        (b.0 == 0 || b.0 == g.width) && 0 <= b.1 < g.height
    } else {
        (b.1 == 0 || b.1 == g.height) && 0 <= b.0 < g.width
    }
}

/// When every tile of a non-empty grid is open, a border list as
/// `collect_borders` returns it holds only edges of the outer rectangle, and
/// `2 * (width + height)` of them.
pub proof fn lemma_all_open_borders<T>(g: GridView<T>, ok: spec_fn(T) -> bool, bs: Seq<(int, int, bool)>)
    requires
        g.valid(),
        g.width > 0,
        g.height > 0,
        forall|x: int, y: int| g.in_bounds(x, y) ==> ok(#[trigger] g.at(x, y)),
        bs.no_duplicates(),
        forall|b: (int, int, bool)| #[trigger] bs.contains(b) <==> is_border(g, ok, b),
    ensures
        bs.len() == 2 * (g.width + g.height),
        forall|b: (int, int, bool)| #[trigger] bs.contains(b) ==> on_perimeter(g, b),
{
    let w = g.width as int;
    let h = g.height as int;
    let rh = vstd::set_lib::set_int_range(0, h);
    let rw = vstd::set_lib::set_int_range(0, w);
    vstd::set_lib::lemma_int_range(0, h);
    vstd::set_lib::lemma_int_range(0, w);
    let fv0 = |y: int| (0int, y, true);
    let fvw = |y: int| (w, y, true);
    let fh0 = |x: int| (x, 0int, false);
    let fhh = |x: int| (x, h, false);
    let v0 = rh.map(fv0);
    let vw = rh.map(fvw);
    let h0 = rw.map(fh0);
    let hh = rw.map(fhh);
    vstd::set_lib::lemma_map_size(rh, v0, fv0);
    vstd::set_lib::lemma_map_size(rh, vw, fvw);
    vstd::set_lib::lemma_map_size(rw, h0, fh0);
    vstd::set_lib::lemma_map_size(rw, hh, fhh);
    assert(v0.disjoint(vw));
    vstd::set_lib::lemma_set_disjoint_lens(v0, vw);
    let v = v0 + vw;
    assert(h0.disjoint(hh));
    vstd::set_lib::lemma_set_disjoint_lens(h0, hh);
    let hz = h0 + hh;
    assert(v.disjoint(hz));
    vstd::set_lib::lemma_set_disjoint_lens(v, hz);
    let all = v + hz;
    assert forall|b: (int, int, bool)| #[trigger] all.contains(b) <==> is_border(g, ok, b) by {
        if b.2 {
            if 0 <= b.1 < h && b.0 == 0 {
                assert(rh.contains(b.1));
                assert(v0.contains(fv0(b.1)));
                assert(ok(g.at(0, b.1)));
            }
            if 0 <= b.1 < h && b.0 == w {
                assert(rh.contains(b.1));
                assert(vw.contains(fvw(b.1)));
                assert(ok(g.at(w - 1, b.1)));
            }
            if 0 <= b.1 < h && 0 < b.0 < w {
                assert(ok(g.at(b.0, b.1)));
                assert(ok(g.at(b.0 - 1, b.1)));
            }
        } else {
            if 0 <= b.0 < w && b.1 == 0 {
                assert(rw.contains(b.0));
                assert(h0.contains(fh0(b.0)));
                assert(ok(g.at(b.0, 0)));
            }
            if 0 <= b.0 < w && b.1 == h {
                assert(rw.contains(b.0));
                assert(hh.contains(fhh(b.0)));
                assert(ok(g.at(b.0, h - 1)));
            }
            if 0 <= b.0 < w && 0 < b.1 < h {
                assert(ok(g.at(b.0, b.1)));
                assert(ok(g.at(b.0, b.1 - 1)));
            }
        }
    }
    assert(bs.to_set() =~= all);
    bs.unique_seq_to_set();
}

} // verus!
