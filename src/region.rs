//! Connectivity on a grid: 4-adjacency, paths through accepted tiles, and the
//! region that such paths reach from a start tile.

use vstd::prelude::*;
use crate::grid::{GridView, lemma_idx_in_range, lemma_idx_injective};

verus! {

/// `p` and `q` share an edge.
pub open spec fn adjacent(p: (int, int), q: (int, int)) -> bool {
    ||| (p.0 == q.0 && (p.1 == q.1 + 1 || q.1 == p.1 + 1))
    ||| (p.1 == q.1 && (p.0 == q.0 + 1 || q.0 == p.0 + 1))
}

/// A non-empty sequence of adjacent in-range tiles, each accepted by `ok`.
pub open spec fn is_path<T>(g: GridView<T>, ok: spec_fn(T) -> bool, path: Seq<(int, int)>) -> bool {
    &&& path.len() > 0
    &&& forall|k: int| 0 <= k < path.len() ==> #[trigger] g.in_bounds(path[k].0, path[k].1)
    &&& forall|k: int| 0 <= k < path.len() ==> ok(g.at(#[trigger] path[k].0, path[k].1))
    &&& forall|k: int| 0 <= k < path.len() - 1 ==> adjacent(#[trigger] path[k], path[k + 1])
}

/// Some path of tiles accepted by `ok` leads from `start` to `p`.
pub open spec fn reaches<T>(g: GridView<T>, ok: spec_fn(T) -> bool, start: (int, int), p: (int, int)) -> bool {
    exists|path: Seq<(int, int)>| #[trigger] is_path(g, ok, path) && path[0] == start && path.last() == p
}

/// The column and row of cell index `i`.
pub open spec fn coords(w: nat, i: int) -> (int, int) {
    (i % (w as int), i / (w as int))
}

/// The indices of the cells that `start` reaches.
pub open spec fn region<T>(g: GridView<T>, ok: spec_fn(T) -> bool, start: (int, int)) -> Set<int> {
    Set::new(|i: int| 0 <= i < g.width * g.height && reaches(g, ok, start, coords(g.width, i)))
}

/// The address of an in-range cell index, and back.
pub proof fn lemma_coords(w: nat, h: nat, i: int)
    requires
        0 <= i < w * h,
    ensures
        0 <= coords(w, i).0 < w,
        0 <= coords(w, i).1 < h,
        coords(w, i).1 * w + coords(w, i).0 == i,
{
    let x = coords(w, i).0;
    let y = coords(w, i).1;
    assert(w > 0) by (nonlinear_arith)
        requires 0 <= i < w * h;
    vstd::arithmetic::div_mod::lemma_fundamental_div_mod(i, w as int);
    assert(0 <= x < w) by {
        vstd::arithmetic::div_mod::lemma_mod_bound(i, w as int);
    }
    assert(y * w == w * y) by (nonlinear_arith);
    assert(0 <= y) by {
        vstd::arithmetic::div_mod::lemma_div_pos_is_pos(i, w as int);
    }
    assert(y < h) by (nonlinear_arith)
        requires y * w + x == i, i < w * h, 0 <= x, w > 0;
}

/// The index of an in-range address has that address as its coordinates.
pub proof fn lemma_coords_of_idx(w: nat, h: nat, x: int, y: int)
    requires
        0 <= x < w,
        0 <= y < h,
    ensures
        coords(w, y * w + x) == (x, y),
        0 <= y * w + x < w * h,
{
    lemma_idx_in_range(w, h, x, y);
    let i = y * w + x;
    lemma_coords(w, h, i);
    lemma_idx_injective(w, coords(w, i).0, coords(w, i).1, x, y);
}

/// A tile that `ok` accepts reaches itself.
pub proof fn lemma_reaches_self<T>(g: GridView<T>, ok: spec_fn(T) -> bool, p: (int, int))
    requires
        g.in_bounds(p.0, p.1),
        ok(g.at(p.0, p.1)),
    ensures
        reaches(g, ok, p, p),
{
    let path = seq![p];
    assert(is_path(g, ok, path));
}

/// A reached tile passes reach on to an accepted neighbour.
pub proof fn lemma_reaches_step<T>(g: GridView<T>, ok: spec_fn(T) -> bool, start: (int, int), p: (int, int), q: (int, int))
    requires
        reaches(g, ok, start, p),
        adjacent(p, q),
        g.in_bounds(q.0, q.1),
        ok(g.at(q.0, q.1)),
    ensures
        reaches(g, ok, start, q),
{
    let path = choose|path: Seq<(int, int)>| #[trigger] is_path(g, ok, path) && path[0] == start && path.last() == p;
    let np = path.push(q);
    assert forall|k: int| 0 <= k < np.len() implies #[trigger] g.in_bounds(np[k].0, np[k].1) by {
        if k < path.len() {
            assert(g.in_bounds(path[k].0, path[k].1));
        }
    }
    assert forall|k: int| 0 <= k < np.len() implies ok(g.at(#[trigger] np[k].0, np[k].1)) by {
        if k < path.len() {
            assert(ok(g.at(path[k].0, path[k].1)));
        }
    }
    assert forall|k: int| 0 <= k < np.len() - 1 implies adjacent(#[trigger] np[k], np[k + 1]) by {
        if k < path.len() - 1 {
            assert(adjacent(path[k], path[k + 1]));
        }
    }
    assert(is_path(g, ok, np));
    assert(np[0] == start);
}

/// The start of a path is accepted and in range.
pub proof fn lemma_reaches_start<T>(g: GridView<T>, ok: spec_fn(T) -> bool, start: (int, int), p: (int, int))
    requires
        reaches(g, ok, start, p),
    ensures
        g.in_bounds(start.0, start.1),
        ok(g.at(start.0, start.1)),
        g.in_bounds(p.0, p.1),
        ok(g.at(p.0, p.1)),
{
    let path = choose|path: Seq<(int, int)>| #[trigger] is_path(g, ok, path) && path[0] == start && path.last() == p;
    assert(g.in_bounds(path[0].0, path[0].1));
    assert(ok(g.at(path[0].0, path[0].1)));
    assert(g.in_bounds(path[path.len() - 1].0, path[path.len() - 1].1));
    assert(ok(g.at(path[path.len() - 1].0, path[path.len() - 1].1)));
}

/// A set of tiles that holds the start of a path, and holds every accepted
/// in-range neighbour of its members, holds the whole path.
pub proof fn lemma_closed_holds_path<T>(
    g: GridView<T>,
    ok: spec_fn(T) -> bool,
    member: spec_fn((int, int)) -> bool,
    path: Seq<(int, int)>,
)
    requires
        is_path(g, ok, path),
        member(path[0]),
        forall|p: (int, int), q: (int, int)|
            #[trigger] member(p) && adjacent(p, q) && g.in_bounds(q.0, q.1) && ok(g.at(q.0, q.1))
                ==> #[trigger] member(q),
    ensures
        member(path.last()),
    decreases path.len(),
{
    if path.len() > 1 {
        let pre = path.drop_last();
        assert(is_path(g, ok, pre)) by {
            assert forall|k: int| 0 <= k < pre.len() implies #[trigger] g.in_bounds(pre[k].0, pre[k].1) by {
                assert(g.in_bounds(path[k].0, path[k].1));
            }
            assert forall|k: int| 0 <= k < pre.len() implies ok(g.at(#[trigger] pre[k].0, pre[k].1)) by {
                assert(ok(g.at(path[k].0, path[k].1)));
            }
            assert forall|k: int| 0 <= k < pre.len() - 1 implies adjacent(#[trigger] pre[k], pre[k + 1]) by {
                assert(adjacent(path[k], path[k + 1]));
            }
        }
        lemma_closed_holds_path(g, ok, member, pre);
        let n = path.len() - 1;
        assert(adjacent(path[n - 1], path[n]));
        assert(g.in_bounds(path[n].0, path[n].1));
        assert(ok(g.at(path[n].0, path[n].1)));
        assert(member(path[n - 1]));
    }
}

/// Reach runs both ways.
pub proof fn lemma_reaches_symmetric<T>(g: GridView<T>, ok: spec_fn(T) -> bool, a: (int, int), b: (int, int))
    requires
        reaches(g, ok, a, b),
    ensures
        reaches(g, ok, b, a),
{
    let path = choose|path: Seq<(int, int)>| #[trigger] is_path(g, ok, path) && path[0] == a && path.last() == b;
    let n = path.len() as int;
    let rev = Seq::new(path.len(), |k: int| path[n - 1 - k]);
    assert forall|k: int| 0 <= k < rev.len() implies #[trigger] g.in_bounds(rev[k].0, rev[k].1) by {
        assert(g.in_bounds(path[n - 1 - k].0, path[n - 1 - k].1));
    }
    assert forall|k: int| 0 <= k < rev.len() implies ok(g.at(#[trigger] rev[k].0, rev[k].1)) by {
        assert(ok(g.at(path[n - 1 - k].0, path[n - 1 - k].1)));
    }
    assert forall|k: int| 0 <= k < rev.len() - 1 implies adjacent(#[trigger] rev[k], rev[k + 1]) by {
        assert(adjacent(path[n - 2 - k], path[n - 1 - k]));
    }
    assert(is_path(g, ok, rev));
}

/// Reach composes.
pub proof fn lemma_reaches_transitive<T>(g: GridView<T>, ok: spec_fn(T) -> bool, a: (int, int), b: (int, int), c: (int, int))
    requires
        reaches(g, ok, a, b),
        reaches(g, ok, b, c),
    ensures
        reaches(g, ok, a, c),
{
    let p2 = choose|path: Seq<(int, int)>| #[trigger] is_path(g, ok, path) && path[0] == b && path.last() == c;
    let member = |q: (int, int)| reaches(g, ok, a, q);
    assert forall|p: (int, int), q: (int, int)|
        #[trigger] member(p) && adjacent(p, q) && g.in_bounds(q.0, q.1) && ok(g.at(q.0, q.1)) implies #[trigger] member(q) by {
        lemma_reaches_step(g, ok, a, p, q);
    }
    lemma_closed_holds_path(g, ok, member, p2);
}

/// A path stays a path under a weaker test on another grid of the same size
/// that accepts every tile the first test accepted.
pub proof fn lemma_reaches_transfer<T, U>(
    g1: GridView<T>, ok1: spec_fn(T) -> bool, g2: GridView<U>, ok2: spec_fn(U) -> bool, a: (int, int), b: (int, int),
)
    requires
        g1.width == g2.width,
        g1.height == g2.height,
        forall|x: int, y: int| g1.in_bounds(x, y) && ok1(g1.at(x, y)) ==> #[trigger] ok2(g2.at(x, y)),
        reaches(g1, ok1, a, b),
    ensures
        reaches(g2, ok2, a, b),
{
    let path = choose|path: Seq<(int, int)>| #[trigger] is_path(g1, ok1, path) && path[0] == a && path.last() == b;
    assert forall|k: int| 0 <= k < path.len() implies #[trigger] g2.in_bounds(path[k].0, path[k].1) by {
        assert(g1.in_bounds(path[k].0, path[k].1));
    }
    assert forall|k: int| 0 <= k < path.len() implies ok2(g2.at(#[trigger] path[k].0, path[k].1)) by {
        assert(g1.in_bounds(path[k].0, path[k].1));
        assert(ok1(g1.at(path[k].0, path[k].1)));
    }
    assert(is_path(g2, ok2, path));
}

} // verus!
