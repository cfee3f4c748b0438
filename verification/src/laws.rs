//! The properties the library promises, stated and proved once and for all:
//! adjacency symmetry, determinism of the propagation step at a fixpoint,
//! and soundness of a solved fixpoint.

use vstd::prelude::*;

use crate::bits::{bit, lemma_bit_bound, lemma_bits_equal, lemma_value_of, resolved, value_of};
use crate::latin::grid_index_bounds;
use crate::puzzle::{
    all_resolved, dir_ok, idx, spec_flag, step_keeps, Adjacency, Direction, UnequalLatinSquare,
};

verus! {

/// Some cell of row `y` is resolved to value `v`.
pub open spec fn row_resolved_to(p: &UnequalLatinSquare, y: int, v: u32) -> bool {
    exists|x: int| 0 <= x < p.n() && value_of(#[trigger] p.mask(x, y)) == v
}

/// Some cell of column `x` is resolved to value `v`.
pub open spec fn col_resolved_to(p: &UnequalLatinSquare, x: int, v: u32) -> bool {
    exists|y: int| 0 <= y < p.n() && value_of(#[trigger] p.mask(x, y)) == v
}

/// Adjacency symmetry: for every cell and every in-bounds neighbor, the
/// cell's flag toward the neighbor equals the neighbor's flag back toward
/// the cell.
pub proof fn lemma_adjacency_symmetry(p: &UnequalLatinSquare, x: int, y: int, d: Direction)
    requires
        p.wf(),
        0 <= x < p.n(),
        0 <= y < p.n(),
        0 <= x + d.dx() < p.n(),
        0 <= y + d.dy() < p.n(),
    ensures
        spec_flag(p.adj_at(x, y), d) == spec_flag(
            p.adj_at(x + d.dx(), y + d.dy()),
            d.opposite(),
        ),
{
    let n = p.n();
    let a = p.adjacency@;
    match d {
        Direction::Above => {
            assert(a[idx(n, x, y)].above == a[idx(n, x, y - 1)].below);
        },
        Direction::Below => {
            assert(a[idx(n, x, y + 1)].above == a[idx(n, x, y)].below);
        },
        Direction::Left => {
            assert(a[idx(n, x, y)].left == a[idx(n, x - 1, y)].right);
        },
        Direction::Right => {
            assert(a[idx(n, x + 1, y)].left == a[idx(n, x, y)].right);
        },
    }
}

/// The propagation step is a function of the pre-step state alone: two
/// grids that both satisfy the step relation against the same state agree
/// cell by cell. In particular, once a step leaves every mask unchanged,
/// recomputing the step from the unchanged state yields the same masks
/// again: the state is a true fixpoint.
pub proof fn lemma_step_deterministic(
    s: Seq<u32>,
    a: Seq<Adjacency>,
    n: int,
    s1: Seq<u32>,
    s2: Seq<u32>,
)
    requires
        forall|x: int, y: int, v: u32|
            0 <= x < n && 0 <= y < n && v < 32 ==> ((#[trigger] bit(s1[idx(n, x, y)], v))
                <==> step_keeps(s, a, n, x, y, v)),
        forall|x: int, y: int, v: u32|
            0 <= x < n && 0 <= y < n && v < 32 ==> ((#[trigger] bit(s2[idx(n, x, y)], v))
                <==> step_keeps(s, a, n, x, y, v)),
    ensures
        forall|x: int, y: int|
            0 <= x < n && 0 <= y < n ==> s1[idx(n, x, y)] == #[trigger] s2[idx(n, x, y)],
{
    assert forall|x: int, y: int| 0 <= x < n && 0 <= y < n implies s1[idx(n, x, y)]
        == #[trigger] s2[idx(n, x, y)] by {
        assert forall|v: u32| v < 32 implies (bit(s1[idx(n, x, y)], v) <==> bit(
            s2[idx(n, x, y)],
            v,
        )) by {
            assert(bit(s1[idx(n, x, y)], v) <==> step_keeps(s, a, n, x, y, v));
            assert(bit(s2[idx(n, x, y)], v) <==> step_keeps(s, a, n, x, y, v));
        }
        lemma_bits_equal(s1[idx(n, x, y)], s2[idx(n, x, y)]);
    }
}

/// Every value of `[0, n)` appears in a list of `n` distinct values drawn
/// from `[0, n)`.
proof fn lemma_pigeonhole(vals: Seq<int>, n: int)
    requires
        vals.len() == n,
        forall|i: int| 0 <= i < n ==> 0 <= #[trigger] vals[i] < n,
        forall|i: int, j: int| 0 <= i < n && 0 <= j < n && i != j ==> vals[i] != vals[j],
    ensures
        forall|v: int| 0 <= v < n ==> vals.contains(v),
{
    broadcast use vstd::set::group_set_axioms;

    assert(vals.no_duplicates());
    vals.unique_seq_to_set();
    vstd::seq_lib::seq_to_set_is_finite(vals);
    let s = vals.to_set();
    let r = vstd::set_lib::set_int_range(0, n);
    vstd::set_lib::lemma_int_range(0, n);
    assert forall|e: int| s.contains(e) implies r.contains(e) by {
        assert(vals.contains(e));
        let i = choose|i: int| 0 <= i < vals.len() && vals[i] == e;
        assert(0 <= vals[i] < n);
    }
    assert(s.subset_of(r));
    vstd::set_lib::lemma_subset_equality(s, r);
    assert forall|v: int| 0 <= v < n implies vals.contains(v) by {
        assert(r.contains(v));
        assert(s.contains(v));
    }
}

/// Soundness of a solved fixpoint: when every cell is down to exactly one
/// candidate and a further step would change no mask, the resolved values
/// obey all the puzzle's rules: every row and every column holds each value
/// below the size exactly once, and a pair of neighbors differs by exactly
/// 1 precisely where its adjacency flag is set.
pub proof fn lemma_solved_sound(p: &UnequalLatinSquare)
    requires
        p.wf(),
        all_resolved(p.squares@),
        forall|x: int, y: int, v: u32|
            0 <= x < p.n() && 0 <= y < p.n() && v < 32 ==> ((#[trigger] bit(p.mask(x, y), v))
                <==> step_keeps(p.squares@, p.adjacency@, p.n(), x, y, v)),
    ensures
        forall|x: int, y: int|
            0 <= x < p.n() && 0 <= y < p.n() ==> (#[trigger] value_of(p.mask(x, y)))
                < p.spec_size(),
        forall|y: int, x1: int, x2: int|
            0 <= y < p.n() && 0 <= x1 < p.n() && 0 <= x2 < p.n() && x1 != x2 ==> #[trigger] value_of(
                p.mask(x1, y),
            ) != #[trigger] value_of(p.mask(x2, y)),
        forall|x: int, y1: int, y2: int|
            0 <= x < p.n() && 0 <= y1 < p.n() && 0 <= y2 < p.n() && y1 != y2 ==> #[trigger] value_of(
                p.mask(x, y1),
            ) != #[trigger] value_of(p.mask(x, y2)),
        forall|y: int, v: u32| 0 <= y < p.n() && v < p.spec_size() ==> #[trigger] row_resolved_to(
            p,
            y,
            v,
        ),
        forall|x: int, v: u32| 0 <= x < p.n() && v < p.spec_size() ==> #[trigger] col_resolved_to(
            p,
            x,
            v,
        ),
        forall|x: int, y: int, d: Direction|
            0 <= x < p.n() && 0 <= y < p.n() && 0 <= x + d.dx() < p.n() && 0 <= y + d.dy() < p.n()
                ==> (#[trigger] spec_flag(p.adj_at(x, y), d) <==> (value_of(p.mask(x, y)) + 1
                == value_of(p.mask(x + d.dx(), y + d.dy())) || value_of(
                p.mask(x + d.dx(), y + d.dy()),
            ) + 1 == value_of(p.mask(x, y)))),
{
    let n = p.n();
    let s = p.squares@;
    let a = p.adjacency@;
    assert forall|x: int, y: int| 0 <= x < n && 0 <= y < n implies resolved(#[trigger] p.mask(x, y))
        && value_of(p.mask(x, y)) < p.spec_size() && bit(p.mask(x, y), value_of(p.mask(x, y))) by {
        grid_index_bounds(n, x, y);
        assert(resolved(s[idx(n, x, y)]));
        lemma_value_of(p.mask(x, y));
        let v = value_of(p.mask(x, y));
        if v >= p.spec_size() {
            lemma_bit_bound(p.mask(x, y), p.size as u32, v);
        }
    }
    // distinct along rows and columns
    assert forall|y: int, x1: int, x2: int|
        0 <= y < n && 0 <= x1 < n && 0 <= x2 < n && x1 != x2 implies #[trigger] value_of(
        p.mask(x1, y),
    ) != #[trigger] value_of(p.mask(x2, y)) by {
        let v = value_of(p.mask(x1, y));
        assert(bit(p.mask(x1, y), v));
        assert(step_keeps(s, a, n, x1, y, v));
        if value_of(p.mask(x2, y)) == v {
            assert(resolved(s[idx(n, x2, y)]));
            assert(bit(s[idx(n, x2, y)], v));
            assert(!bit(s[idx(n, x2, y)], v));
        }
    }
    assert forall|x: int, y1: int, y2: int|
        0 <= x < n && 0 <= y1 < n && 0 <= y2 < n && y1 != y2 implies #[trigger] value_of(
        p.mask(x, y1),
    ) != #[trigger] value_of(p.mask(x, y2)) by {
        let v = value_of(p.mask(x, y1));
        assert(bit(p.mask(x, y1), v));
        assert(step_keeps(s, a, n, x, y1, v));
        if value_of(p.mask(x, y2)) == v {
            assert(resolved(s[idx(n, x, y2)]));
            assert(bit(s[idx(n, x, y2)], v));
            assert(!bit(s[idx(n, x, y2)], v));
        }
    }
    // every value appears in every row and column
    assert forall|y: int, v: u32| 0 <= y < n && v < p.spec_size() implies #[trigger] row_resolved_to(
        p,
        y,
        v,
    ) by {
        let vals = Seq::new(n as nat, |x: int| value_of(p.mask(x, y)) as int);
        lemma_pigeonhole(vals, n);
        assert(vals.contains(v as int));
        let x = choose|x: int| 0 <= x < vals.len() && vals[x] == v as int;
        assert(value_of(p.mask(x, y)) == v);
    }
    assert forall|x: int, v: u32| 0 <= x < n && v < p.spec_size() implies #[trigger] col_resolved_to(
        p,
        x,
        v,
    ) by {
        let vals = Seq::new(n as nat, |y: int| value_of(p.mask(x, y)) as int);
        lemma_pigeonhole(vals, n);
        assert(vals.contains(v as int));
        let y = choose|y: int| 0 <= y < vals.len() && vals[y] == v as int;
        assert(value_of(p.mask(x, y)) == v);
    }
    // adjacency flags match the resolved values
    assert forall|x: int, y: int, d: Direction|
        0 <= x < n && 0 <= y < n && 0 <= x + d.dx() < n && 0 <= y + d.dy() < n implies (
    #[trigger] spec_flag(p.adj_at(x, y), d) <==> (value_of(p.mask(x, y)) + 1 == value_of(
        p.mask(x + d.dx(), y + d.dy()),
    ) || value_of(p.mask(x + d.dx(), y + d.dy())) + 1 == value_of(p.mask(x, y)))) by {
        let nx = x + d.dx();
        let ny = y + d.dy();
        let v1 = value_of(p.mask(x, y));
        let v2 = value_of(p.mask(nx, ny));
        let nb = s[idx(n, nx, ny)];
        assert(bit(p.mask(x, y), v1));
        assert(step_keeps(s, a, n, x, y, v1));
        assert(dir_ok(s, a, n, x, y, d, v1));
        lemma_value_of(nb);
        assert(value_of(nb) == v2);
        if spec_flag(a[idx(n, x, y)], d) {
            // a candidate of the neighbor lies exactly 1 away from v1
            if v1 >= 1 && bit(nb, (v1 - 1) as u32) {
                assert(v2 == (v1 - 1) as u32);
            } else {
                assert(v1 < 31 && bit(nb, (v1 + 1) as u32));
                assert(v2 == (v1 + 1) as u32);
            }
        } else {
            // some candidate of the neighbor lies at distance at least 2
            let d2 = choose|d2: u32|
                d2 < n && #[trigger] bit(nb, d2) && v1 + 1 != d2 && v1 != d2 && v1 != d2 + 1;
            assert(d2 == v2);
        }
        assert(spec_flag(p.adj_at(x, y), d) == spec_flag(a[idx(n, x, y)], d));
    }
}

} // verus!
