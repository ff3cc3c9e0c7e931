//! Choosing the primary region of a generated island: label the connected
//! open regions of a classification, keep the largest one open and close
//! everything else.

use vstd::prelude::*;
use crate::fill::{flood_fill, accepts, rejects, fill_region, filled_view, rim_rejected, start_judged};
use crate::grid::{Grid, GridView, TileAddress, lemma_idx_in_range};
use crate::region::{
    coords, reaches, region, lemma_coords, lemma_coords_of_idx, lemma_reaches_start, lemma_reaches_step,
    lemma_reaches_symmetric, lemma_reaches_transitive, lemma_reaches_transfer, lemma_closed_holds_path, is_path,
};

verus! {

/// Whether a tile belongs to the walkable island.
#[derive(Copy, Clone, Debug, Default, PartialEq, Eq, Structural)]
pub enum Reachability {
    Open,
    #[default]
    Closed,
}

#[derive(Copy, Clone, Debug, PartialEq, Eq, Structural)]
struct GroupId(usize);

#[derive(Copy, Clone, Debug, PartialEq, Eq, Structural)]
enum TileGenState {
    Unreachable,
    Unassigned,
    ReachableGroup(GroupId),
}

fn gen_state_of(r: Reachability) -> (s: TileGenState)
    ensures
        s == if r == Reachability::Open { TileGenState::Unassigned } else { TileGenState::Unreachable },
{
    match r {
        Reachability::Open => TileGenState::Unassigned,
        Reachability::Closed => TileGenState::Unreachable,
    }
}

pub open spec fn open_test() -> spec_fn(Reachability) -> bool {
    |t: Reachability| t == Reachability::Open
}

/// The cells of the open region that holds cell `i`.
pub open spec fn open_region(g: GridView<Reachability>, i: int) -> Set<int> {
    region(g, open_test(), coords(g.width, i))
}

/// Cell `i` is open and comes first, in row-major order, in its region.
pub open spec fn is_leader(g: GridView<Reachability>, i: int) -> bool {
    &&& 0 <= i < g.cells.len()
    &&& g.cells[i] == Reachability::Open
    &&& forall|j: int| 0 <= j < i ==> !#[trigger] open_region(g, i).contains(j)
}

/// Cell `c` leads a largest open region, and no earlier region is as large.
pub open spec fn is_primary(g: GridView<Reachability>, c: int) -> bool {
    &&& is_leader(g, c)
    &&& forall|j: int| #[trigger] is_leader(g, j) ==> {
        &&& open_region(g, j).len() <= open_region(g, c).len()
        &&& j < c ==> open_region(g, j).len() < open_region(g, c).len()
    }
}

/// The grid with the region of cell `c` open and every other tile closed.
pub open spec fn region_view(g: GridView<Reachability>, c: int) -> GridView<Reachability> {
    GridView {
        width: g.width,
        height: g.height,
        cells: Seq::new(
            g.cells.len(),
            |i: int| if open_region(g, c).contains(i) { Reachability::Open } else { Reachability::Closed },
        ),
    }
}

/// The grid with every tile closed.
pub open spec fn closed_view(g: GridView<Reachability>) -> GridView<Reachability> {
    GridView { width: g.width, height: g.height, cells: Seq::new(g.cells.len(), |i: int| Reachability::Closed) }
}

spec fn group(g: int) -> TileGenState {
    TileGenState::ReachableGroup(GroupId(g as usize))
}

/// The labels after the cells before `k` have been scanned: every open cell
/// before `k` carries the group of its region, and group `g` was found at `leads[g]`.
spec fn labels_ok(c: GridView<Reachability>, l: GridView<TileGenState>, k: int, leads: Seq<int>) -> bool {
    &&& c.valid()
    &&& l.valid()
    &&& l.width == c.width
    &&& l.height == c.height
    &&& leads.len() <= k
    &&& forall|i: int| 0 <= i < c.cells.len() ==>
        (#[trigger] c.cells[i] == Reachability::Open) == (l.cells[i] != TileGenState::Unreachable)
    &&& forall|i: int| 0 <= i < c.cells.len() && #[trigger] l.cells[i] == TileGenState::Unassigned ==> i >= k
    &&& forall|i: int| 0 <= i < c.cells.len() ==> match #[trigger] l.cells[i] {
        TileGenState::ReachableGroup(gid) => gid.0 < leads.len(),
        _ => true,
    }
    &&& forall|g: int| 0 <= g < leads.len() ==> #[trigger] is_leader(c, leads[g]) && leads[g] < k
    &&& forall|g1: int, g2: int| 0 <= g1 < g2 < leads.len() ==> #[trigger] leads[g1] < #[trigger] leads[g2]
    &&& forall|g: int, i: int| 0 <= g < leads.len() && 0 <= i < c.cells.len() ==>
        (l.cells[i] == #[trigger] group(g)) == #[trigger] open_region(c, leads[g]).contains(i)
}

/// A cell that shares both the region of cell `k` and a labelled group puts
/// `k` in that group too.
proof fn lemma_shared_group(c: GridView<Reachability>, l: GridView<TileGenState>, k: int, leads: Seq<int>, i: int, g: int)
    requires
        labels_ok(c, l, k, leads),
        0 <= k < c.cells.len(),
        0 <= i < c.cells.len(),
        0 <= g < leads.len(),
        l.cells[i] == group(g),
        open_region(c, k).contains(i),
    ensures
        l.cells[k] == group(g),
{
    let w = c.width;
    let okc = open_test();
    let lead = leads[g];
    assert(is_leader(c, lead));
    assert(open_region(c, lead).contains(i));
    lemma_coords(w, c.height, k);
    lemma_reaches_symmetric(c, okc, coords(w, k), coords(w, i));
    lemma_reaches_transitive(c, okc, coords(w, lead), coords(w, i), coords(w, k));
    assert(open_region(c, lead).contains(k));
}

/// Filling an unassigned cell `k` of the labels with a new group labels
/// exactly the open region of `k`.
#[verifier::rlimit(40)]
proof fn lemma_label_step<P: Fn(&TileGenState, &TileGenState) -> bool>(
    c: GridView<Reachability>, l: GridView<TileGenState>, l2: GridView<TileGenState>, k: int, leads: Seq<int>, pred: P,
)
    requires
        labels_ok(c, l, k, leads),
        0 <= k < c.cells.len(),
        l.cells[k] == TileGenState::Unassigned,
        forall|a: &TileGenState, b: &TileGenState, r: bool| #[trigger] pred.ensures((a, b), r) ==> r == (*a == *b),
        l2 == filled_view(l, pred, coords(c.width, k), group(leads.len() as int)),
        rim_rejected(l, pred, coords(c.width, k)),
        start_judged(l, pred, coords(c.width, k)),
    ensures
        fill_region(l, pred, coords(c.width, k)) == open_region(c, k),
        labels_ok(c, l2, k + 1, leads.push(k)),
{
    let w = c.width;
    let h = c.height;
    let n = c.cells.len();
    let st = coords(w, k);
    lemma_coords(w, h, k);
    let u = TileGenState::Unassigned;
    assert(l.at(st.0, st.1) == u);
    let okl = accepts(pred, u);
    let okc = open_test();
    let rr = fill_region(l, pred, st);
    let oc = open_region(c, k);
    assert forall|x: int, y: int| l.in_bounds(x, y) && okl(l.at(x, y)) implies #[trigger] okc(c.at(x, y)) by {
        lemma_idx_in_range(w, h, x, y);
        assert(pred.ensures((&l.at(x, y), &u), true));
        assert(l.cells[l.idx(x, y)] == u);
        assert(c.cells[c.idx(x, y)] == Reachability::Open);
    }
    assert forall|i: int| rr.contains(i) implies oc.contains(i) by {
        lemma_reaches_transfer(l, okl, c, okc, st, coords(w, i));
    }
    // the start tile is in its own fill
    assert(!pred.ensures((&u, &u), false));
    assert(reaches(l, okl, st, st));
    let member = |q: (int, int)| reaches(l, okl, st, q);
    assert forall|p: (int, int), q: (int, int)|
        #[trigger] member(p) && crate::region::adjacent(p, q) && c.in_bounds(q.0, q.1) && okc(c.at(q.0, q.1))
            implies #[trigger] member(q) by {
        if !member(q) {
            assert(rejects(pred, u)(l.at(q.0, q.1)));
            assert(pred.ensures((&l.at(q.0, q.1), &u), false));
            lemma_coords_of_idx(w, h, q.0, q.1);
            let iq = c.idx(q.0, q.1);
            assert(c.cells[iq] == Reachability::Open);
            assert(l.cells[iq] != TileGenState::Unreachable);
            let lab = l.cells[iq];
            assert(lab != u);
            match lab {
                TileGenState::ReachableGroup(gid) => {
                    let g = gid.0 as int;
                    assert(lab == group(g));
                    lemma_reaches_transfer(l, okl, c, okc, st, p);
                    lemma_reaches_step(c, okc, st, p, q);
                    assert(oc.contains(iq));
                    lemma_shared_group(c, l, k, leads, iq, g);
                },
                _ => {},
            }
        }
    }
    assert forall|i: int| oc.contains(i) implies rr.contains(i) by {
        let path = choose|path: Seq<(int, int)>| #[trigger] is_path(c, okc, path) && path[0] == st && path.last() == coords(w, i);
        lemma_closed_holds_path(c, okc, member, path);
    }
    assert(rr =~= oc);
    // cells of the fill were unassigned
    assert forall|i: int| rr.contains(i) implies #[trigger] l.cells[i] == u by {
        lemma_coords(w, h, i);
        lemma_reaches_start(l, okl, st, coords(w, i));
        assert(pred.ensures((&l.at(coords(w, i).0, coords(w, i).1), &u), true));
    }
    let leads2 = leads.push(k);
    let cur = leads.len() as int;
    assert forall|i: int| 0 <= i < n implies #[trigger] l2.cells[i] == if rr.contains(i) { group(cur) } else { l.cells[i] } by {}
    assert forall|i: int| 0 <= i < n implies
        (#[trigger] c.cells[i] == Reachability::Open) == (l2.cells[i] != TileGenState::Unreachable) by {
        if rr.contains(i) {
            lemma_coords(w, h, i);
            lemma_reaches_start(c, okc, st, coords(w, i));
        }
    }
    assert(rr.contains(k)) by {
        lemma_coords_of_idx(w, h, st.0, st.1);
    }
    assert forall|i: int| 0 <= i < n && #[trigger] l2.cells[i] == TileGenState::Unassigned implies i >= k + 1 by {
        assert(l.cells[i] == TileGenState::Unassigned);
    }
    assert forall|i: int| 0 <= i < n implies match #[trigger] l2.cells[i] {
        TileGenState::ReachableGroup(gid) => gid.0 < leads2.len(),
        _ => true,
    } by {
        assert(match l.cells[i] {
            TileGenState::ReachableGroup(gid) => gid.0 < leads.len(),
            _ => true,
        });
    }
    // k leads its region
    assert forall|j: int| 0 <= j < k implies !#[trigger] open_region(c, k).contains(j) by {
        if oc.contains(j) {
            lemma_coords(w, h, j);
            lemma_reaches_start(c, okc, st, coords(w, j));
            assert(c.cells[j] == Reachability::Open);
            assert(l.cells[j] != TileGenState::Unreachable);
            assert(l.cells[j] != TileGenState::Unassigned);
            match l.cells[j] {
                TileGenState::ReachableGroup(gid) => {
                    let g = gid.0 as int;
                    assert(l.cells[j] == group(g));
                    lemma_shared_group(c, l, k, leads, j, g);
                },
                _ => {},
            }
        }
    }
    assert(c.cells[k] == Reachability::Open);
    assert(is_leader(c, k));
    assert forall|g: int| 0 <= g < leads2.len() implies #[trigger] is_leader(c, leads2[g]) && leads2[g] < k + 1 by {
        if g < leads.len() {
            assert(leads2[g] == leads[g]);
            assert(is_leader(c, leads[g]));
            assert(leads[g] < k);
        }
    }
    assert forall|g1: int, g2: int| 0 <= g1 < g2 < leads2.len() implies #[trigger] leads2[g1] < #[trigger] leads2[g2] by {
        if g2 < leads.len() {
            assert(leads[g1] < leads[g2]);
        } else {
            assert(is_leader(c, leads[g1]) && leads[g1] < k);
        }
    }
    assert forall|g: int, i: int| 0 <= g < leads2.len() && 0 <= i < n implies
        (l2.cells[i] == #[trigger] group(g)) == #[trigger] open_region(c, leads2[g]).contains(i) by {
        if g < leads.len() {
            assert((l.cells[i] == group(g)) == open_region(c, leads[g]).contains(i));
            assert(group(g) != group(cur));
            if rr.contains(i) {
                assert(l.cells[i] == u);
            }
        } else {
            if !rr.contains(i) {
                assert(match l.cells[i] {
                    TileGenState::ReachableGroup(gid) => gid.0 < leads.len(),
                    _ => true,
                });
            }
        }
    }
}

/// Two leaders of the same region are the same cell.
proof fn lemma_one_leader(c: GridView<Reachability>, j: int, lead: int)
    requires
        c.valid(),
        is_leader(c, j),
        is_leader(c, lead),
        open_region(c, lead).contains(j),
    ensures
        j == lead,
{
    if lead < j {
        let w = c.width;
        lemma_coords(w, c.height, j);
        lemma_coords(w, c.height, lead);
        lemma_reaches_symmetric(c, open_test(), coords(w, lead), coords(w, j));
        assert(open_region(c, j).contains(lead));
    }
}

/// After the whole scan the group with the largest region is the primary one.
proof fn lemma_label_done(c: GridView<Reachability>, l: GridView<TileGenState>, leads: Seq<int>, best_id: int, best_size: int)
    requires
        labels_ok(c, l, c.cells.len() as int, leads),
        leads.len() > 0 ==> 0 <= best_id < leads.len() && best_size == open_region(c, leads[best_id]).len(),
        forall|g: int| 0 <= g < leads.len() ==> {
            &&& #[trigger] open_region(c, leads[g]).len() <= best_size
            &&& g < best_id ==> open_region(c, leads[g]).len() < best_size
        },
    ensures
        leads.len() > 0 ==> is_primary(c, leads[best_id]),
        leads.len() == 0 ==> forall|i: int| 0 <= i < c.cells.len() ==> #[trigger] c.cells[i] != Reachability::Open,
        leads.len() == 0 ==> forall|i: int| 0 <= i < c.cells.len() ==> !(#[trigger] l.cells[i] is ReachableGroup),
{
    let n = c.cells.len() as int;
    assert forall|i: int| 0 <= i < n && #[trigger] c.cells[i] == Reachability::Open implies
        exists|g: int| 0 <= g < leads.len() && l.cells[i] == #[trigger] group(g) by {
        assert(l.cells[i] != TileGenState::Unreachable);
        assert(l.cells[i] != TileGenState::Unassigned);
        match l.cells[i] {
            TileGenState::ReachableGroup(gid) => {
                assert(l.cells[i] == group(gid.0 as int));
            },
            _ => {},
        }
    }
    if leads.len() > 0 {
        let lead = leads[best_id];
        assert(is_leader(c, lead));
        assert forall|j: int| #[trigger] is_leader(c, j) implies {
            &&& open_region(c, j).len() <= open_region(c, lead).len()
            &&& j < lead ==> open_region(c, j).len() < open_region(c, lead).len()
        } by {
            assert(c.cells[j] == Reachability::Open);
            let g = choose|g: int| 0 <= g < leads.len() && l.cells[j] == #[trigger] group(g);
            assert(open_region(c, leads[g]).contains(j));
            assert(is_leader(c, leads[g]));
            lemma_one_leader(c, j, leads[g]);
            assert(open_region(c, leads[g]).len() <= best_size);
            if j < lead {
                if g > best_id {
                    assert(leads[best_id] < leads[g]);
                }
                assert(g != best_id);
            }
        }
    } else {
        assert forall|i: int| 0 <= i < n implies #[trigger] c.cells[i] != Reachability::Open by {
            if c.cells[i] == Reachability::Open {
                let g = choose|g: int| 0 <= g < leads.len() && l.cells[i] == #[trigger] group(g);
            }
        }
        assert forall|i: int| 0 <= i < n implies !(#[trigger] l.cells[i] is ReachableGroup) by {
            assert(match l.cells[i] {
                TileGenState::ReachableGroup(gid) => gid.0 < leads.len(),
                _ => true,
            });
        }
    }
}

spec fn gen_spec(r: Reachability) -> TileGenState {
    if r == Reachability::Open { TileGenState::Unassigned } else { TileGenState::Unreachable }
}

/// Labels the connected open regions of `classification` in row-major order
/// of their first tile, and returns a grid in which only the largest region is
/// open; among regions of equal size the one found first wins. With no open
/// tile at all, every tile of the result is closed.
pub fn select_primary_region(classification: &Grid<Reachability>) -> (r: Grid<Reachability>)
    requires
        classification@.valid(),
    ensures
        r@.valid(),
        (forall|i: int| 0 <= i < classification@.cells.len() ==> #[trigger] classification@.cells[i] != Reachability::Open)
            ==> r@ == closed_view(classification@),
        (exists|i: int| 0 <= i < classification@.cells.len() && #[trigger] classification@.cells[i] == Reachability::Open)
            ==> exists|c: int| #[trigger] is_primary(classification@, c) && r@ == region_view(classification@, c),
{
    let ghost cv = classification@;
    let w = classification.width();
    let h = classification.height();
    let addrs = classification.addresses();
    let n = addrs.len();
    proof {
        assert(w * h == n);
    }
    let mut grid: Grid<TileGenState> = Grid::filled(w, h, TileGenState::Unreachable);
    let mut k: usize = 0;
    while k < n
        invariant
            cv == classification@,
            cv.valid(),
            w == cv.width,
            h == cv.height,
            n == cv.cells.len(),
            addrs@.len() == n,
            forall|x: int, y: int| cv.in_bounds(x, y) ==> #[trigger] addrs@[cv.idx(x, y)] == TileAddress(x as u32, y as u32),
            grid@.valid(),
            grid@.width == w,
            grid@.height == h,
            k <= n,
            forall|i: int| 0 <= i < n ==> #[trigger] grid@.cells[i] == if i < k { gen_spec(cv.cells[i]) } else { TileGenState::Unreachable },
        decreases n - k,
    {
        let ghost p = coords(cv.width, k as int);
        proof {
            lemma_coords(cv.width, cv.height, k as int);
            assert(addrs@[cv.idx(p.0, p.1)] == TileAddress(p.0 as u32, p.1 as u32));
        }
        let addr = addrs[k];
        let t = match classification.tile_at(&addr) {
            Some(t) => *t,
            None => Reachability::Closed,
        };
        grid.set_tile_at(&addr, gen_state_of(t));
        k = k + 1;
    }
    let mut current: usize = 0;
    let mut best_id: usize = 0;
    let mut best_size: usize = 0;
    let ghost mut leads: Seq<int> = Seq::empty();
    proof {
        assert forall|i: int| 0 <= i < n implies (#[trigger] cv.cells[i] == Reachability::Open)
            == (grid@.cells[i] != TileGenState::Unreachable) by {
            assert(grid@.cells[i] == gen_spec(cv.cells[i]));
        }
        assert forall|i: int| 0 <= i < n implies match #[trigger] grid@.cells[i] {
            TileGenState::ReachableGroup(gid) => gid.0 < 0,
            _ => true,
        } by {
            assert(grid@.cells[i] == gen_spec(cv.cells[i]));
        }
    }
    k = 0;
    while k < n
        invariant
            cv == classification@,
            cv.valid(),
            w == cv.width,
            h == cv.height,
            n == cv.cells.len(),
            addrs@.len() == n,
            forall|x: int, y: int| cv.in_bounds(x, y) ==> #[trigger] addrs@[cv.idx(x, y)] == TileAddress(x as u32, y as u32),
            k <= n,
            labels_ok(cv, grid@, k as int, leads),
            current == leads.len(),
            current > 0 ==> best_id < current && best_size == open_region(cv, leads[best_id as int]).len(),
            current == 0 ==> best_id == 0 && best_size == 0,
            forall|g: int| 0 <= g < current ==> {
                &&& #[trigger] open_region(cv, leads[g]).len() <= best_size
                &&& g < best_id ==> open_region(cv, leads[g]).len() < best_size
            },
        decreases n - k,
    {
        let ghost p = coords(cv.width, k as int);
        proof {
            lemma_coords(cv.width, cv.height, k as int);
            assert(addrs@[cv.idx(p.0, p.1)] == TileAddress(p.0 as u32, p.1 as u32));
        }
        let addr = addrs[k];
        let unassigned = match grid.tile_at(&addr) {
            Some(t) => *t == TileGenState::Unassigned,
            None => false,
        };
        if unassigned {
            let same = |a: &TileGenState, b: &TileGenState| -> (r: bool)
                ensures
                    r == (*a == *b),
                { *a == *b };
            let ghost l0 = grid@;
            let size = flood_fill(&mut grid, addr.as_tuple(), same, TileGenState::ReachableGroup(GroupId(current)));
            proof {
                assert(group(leads.len() as int) == TileGenState::ReachableGroup(GroupId(current)));
                lemma_label_step(cv, l0, grid@, k as int, leads, same);
                leads = leads.push(k as int);
                assert(leads[current as int] == k);
            }
            if size > best_size {
                best_id = current;
                best_size = size;
            }
            current = current + 1;
        } else {
            proof {
                assert(grid@.at(p.0, p.1) == grid@.cells[k as int]);
                assert(grid@.cells[k as int] != TileGenState::Unassigned);
                assert forall|i: int| 0 <= i < n && #[trigger] grid@.cells[i] == TileGenState::Unassigned implies i >= k + 1 by {}
                assert forall|g: int| 0 <= g < leads.len() implies #[trigger] is_leader(cv, leads[g]) && leads[g] < k + 1 by {
                    assert(is_leader(cv, leads[g]));
                    assert(leads[g] < k);
                }
            }
        }
        k = k + 1;
    }
    proof {
        lemma_label_done(cv, grid@, leads, best_id as int, best_size as int);
    }
    let mut out: Grid<Reachability> = Grid::filled(w, h, Reachability::Closed);
    k = 0;
    while k < n
        invariant
            cv == classification@,
            cv.valid(),
            w == cv.width,
            h == cv.height,
            n == cv.cells.len(),
            addrs@.len() == n,
            forall|x: int, y: int| cv.in_bounds(x, y) ==> #[trigger] addrs@[cv.idx(x, y)] == TileAddress(x as u32, y as u32),
            grid@.valid(),
            grid@.width == w,
            grid@.height == h,
            out@.valid(),
            out@.width == w,
            out@.height == h,
            k <= n,
            forall|i: int| 0 <= i < n ==> #[trigger] out@.cells[i]
                == if i < k && grid@.cells[i] == group(best_id as int) { Reachability::Open } else { Reachability::Closed },
        decreases n - k,
    {
        let ghost p = coords(cv.width, k as int);
        proof {
            lemma_coords(cv.width, cv.height, k as int);
            assert(addrs@[cv.idx(p.0, p.1)] == TileAddress(p.0 as u32, p.1 as u32));
        }
        let addr = addrs[k];
        let chosen = match grid.tile_at(&addr) {
            Some(TileGenState::ReachableGroup(g)) => g.0 == best_id,
            _ => false,
        };
        if chosen {
            out.set_tile_at(&addr, Reachability::Open);
        }
        k = k + 1;
    }
    proof {
        if leads.len() > 0 {
            let c = leads[best_id as int];
            assert(out@.cells =~= region_view(cv, c).cells);
            assert(out@ == region_view(cv, c));
            assert(is_primary(cv, c));
        } else {
            assert(out@.cells =~= closed_view(cv).cells);
            assert(out@ == closed_view(cv));
            assert forall|i: int| 0 <= i < n implies #[trigger] cv.cells[i] != Reachability::Open by {}
        }
    }
    out
}

/// A cell of a region leads to the same region.
proof fn lemma_same_region(g: GridView<Reachability>, i: int, j: int)
    requires
        g.valid(),
        0 <= i < g.cells.len(),
        open_region(g, i).contains(j),
    ensures
        open_region(g, j) == open_region(g, i),
{
    let w = g.width;
    let ok = open_test();
    lemma_coords(w, g.height, i);
    lemma_coords(w, g.height, j);
    let pi = coords(w, i);
    let pj = coords(w, j);
    lemma_reaches_symmetric(g, ok, pi, pj);
    assert forall|x: int| open_region(g, j).contains(x) <==> open_region(g, i).contains(x) by {
        if open_region(g, j).contains(x) {
            lemma_reaches_transitive(g, ok, pi, pj, coords(w, x));
        }
        if open_region(g, i).contains(x) {
            lemma_reaches_transitive(g, ok, pj, pi, coords(w, x));
        }
    }
    assert(open_region(g, j) =~= open_region(g, i));
}

proof fn lemma_least_member(s: Set<int>, i: int)
    requires
        s.contains(i),
        forall|j: int| #[trigger] s.contains(j) ==> j >= 0,
    ensures
        exists|m: int| #[trigger] s.contains(m) && forall|j: int| #[trigger] s.contains(j) ==> m <= j,
    decreases i,
{
    if exists|j: int| #[trigger] s.contains(j) && j < i {
        let j = choose|j: int| #[trigger] s.contains(j) && j < i;
        lemma_least_member(s, j);
    } else {
        assert(forall|j: int| #[trigger] s.contains(j) ==> i <= j);
    }
}

/// When the open tiles form two separate regions, one strictly larger than
/// the other, the primary region is the larger one: `select_primary_region`
/// keeps exactly it open and closes every other tile.
pub proof fn lemma_larger_of_two_regions(g: GridView<Reachability>, a: int, b: int, c: int)
    requires
        g.valid(),
        0 <= a < g.cells.len(),
        0 <= b < g.cells.len(),
        g.cells[a] == Reachability::Open,
        g.cells[b] == Reachability::Open,
        forall|i: int| 0 <= i < g.cells.len() && #[trigger] g.cells[i] == Reachability::Open
            ==> open_region(g, a).contains(i) || open_region(g, b).contains(i),
        !open_region(g, a).contains(b),
        open_region(g, a).len() > open_region(g, b).len(),
        is_primary(g, c),
    ensures
        open_region(g, c) == open_region(g, a),
        region_view(g, c) == region_view(g, a),
{
    let w = g.width;
    let ra = open_region(g, a);
    lemma_coords(w, g.height, a);
    crate::region::lemma_reaches_self(g, open_test(), coords(w, a));
    assert(ra.contains(a)) by {
        lemma_coords_of_idx(w, g.height, coords(w, a).0, coords(w, a).1);
    }
    assert(g.cells[c] == Reachability::Open);
    if ra.contains(c) {
        lemma_same_region(g, a, c);
    } else {
        assert(open_region(g, b).contains(c));
        lemma_same_region(g, b, c);
        assert forall|j: int| #[trigger] ra.contains(j) implies j >= 0 by {}
        lemma_least_member(ra, a);
        let m = choose|m: int| #[trigger] ra.contains(m) && forall|j: int| #[trigger] ra.contains(j) ==> m <= j;
        lemma_same_region(g, a, m);
        lemma_coords(w, g.height, m);
        lemma_reaches_start(g, open_test(), coords(w, a), coords(w, m));
        assert(is_leader(g, m));
        assert(open_region(g, m).len() <= open_region(g, c).len());
    }
    assert(region_view(g, c).cells =~= region_view(g, a).cells);
}

} // verus!
