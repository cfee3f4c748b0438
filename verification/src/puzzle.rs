//! The "Unequal" puzzle state and its constraint-propagation solver. Each
//! cell carries a candidate mask; `solve_step` recomputes every mask from a
//! consistent pre-step snapshot as the intersection of row exclusion, column
//! exclusion and the four directional adjacency constraints.

use vstd::prelude::*;

use crate::bits::{
    bit, card, lemma_bit_and, lemma_bit_bound, lemma_bit_not, lemma_bit_or, lemma_bit_shl1,
    lemma_bit_shr1, lemma_pop_monotone, lemma_pop_zero, lemma_value_of, mask_card,
    mask_is_resolved, resolved, value_of,
};
use crate::latin::{grid_index_bounds, lemma_prefix_index, lemma_row_extend, LatinSquare};
use crate::rng::{fresh_rng, random_in_range, sample_indices};

verus! {

/// The four adjacency flags of one cell: whether the neighbor in each
/// direction must differ from this cell by exactly 1.
#[derive(Clone, Copy, Debug, PartialEq, Eq, Structural)]
pub struct Adjacency {
    pub above: bool,
    pub below: bool,
    pub left: bool,
    pub right: bool,
}

/// One of the four neighbor directions of a cell.
#[derive(Clone, Copy, Debug, PartialEq, Eq, Structural)]
pub enum Direction {
    Above,
    Below,
    Left,
    Right,
}

impl Direction {
    /// Horizontal offset of the neighbor in this direction.
    pub open spec fn dx(self) -> int {
        match self {
            Direction::Above => 0,
            Direction::Below => 0,
            Direction::Left => -1,
            Direction::Right => 1,
        }
    }

    /// Vertical offset of the neighbor in this direction.
    pub open spec fn dy(self) -> int {
        match self {
            Direction::Above => -1,
            Direction::Below => 1,
            Direction::Left => 0,
            Direction::Right => 0,
        }
    }

    /// The direction back from the neighbor to this cell.
    pub open spec fn opposite(self) -> Direction {
        match self {
            Direction::Above => Direction::Below,
            Direction::Below => Direction::Above,
            Direction::Left => Direction::Right,
            Direction::Right => Direction::Left,
        }
    }

    /// The four directions.
    pub fn all() -> (r: Vec<Direction>)
        ensures
            r@.len() == 4,
            r@[0] == Direction::Above,
            r@[1] == Direction::Below,
            r@[2] == Direction::Left,
            r@[3] == Direction::Right,
    {
        let mut r: Vec<Direction> = Vec::new();
        r.push(Direction::Above);
        r.push(Direction::Below);
        r.push(Direction::Left);
        r.push(Direction::Right);
        r
    }

    /// The coordinates of the neighbor of `(prev_x, prev_y)` in this
    /// direction, or `None` when that neighbor lies outside the grid.
    pub fn square_coords(self, uls: &UnequalLatinSquare, prev_x: u8, prev_y: u8) -> (r: Option<
        (u8, u8),
    >)
        requires
            uls.wf(),
            prev_x < uls.spec_size(),
            prev_y < uls.spec_size(),
        ensures
            match r {
                Some(c) => c.0 == prev_x + self.dx() && c.1 == prev_y + self.dy() && c.0
                    < uls.spec_size() && c.1 < uls.spec_size(),
                None => !(0 <= prev_x + self.dx() < uls.n() && 0 <= prev_y + self.dy() < uls.n()),
            },
    {
        let x: i8 = match self {
            Direction::Above => prev_x as i8,
            Direction::Below => prev_x as i8,
            Direction::Left => prev_x as i8 - 1,
            Direction::Right => prev_x as i8 + 1,
        };
        let y: i8 = match self {
            Direction::Above => prev_y as i8 - 1,
            Direction::Below => prev_y as i8 + 1,
            Direction::Left => prev_y as i8,
            Direction::Right => prev_y as i8,
        };
        if uls.square_coord_is_legal(x, y) {
            Some((x as u8, y as u8))
        } else {
            None
        }
    }
}

/// The flag of `a` toward direction `d`.
pub open spec fn spec_flag(a: Adjacency, d: Direction) -> bool {
    match d {
        Direction::Above => a.above,
        Direction::Below => a.below,
        Direction::Left => a.left,
        Direction::Right => a.right,
    }
}

impl Adjacency {
    /// Reads the flag toward the given direction.
    pub fn in_direction(&self, dir: Direction) -> (r: bool)
        ensures
            r == spec_flag(*self, dir),
    {
        match dir {
            Direction::Above => self.above,
            Direction::Below => self.below,
            Direction::Left => self.left,
            Direction::Right => self.right,
        }
    }
}

/// Linear index of the cell at column `x`, row `y` of a grid of side `n`.
pub open spec fn idx(n: int, x: int, y: int) -> int {
    x + y * n
}

/// The two values differ by exactly 1.
pub open spec fn diff_one(a: u8, b: u8) -> bool {
    a + 1 == b || b + 1 == a
}

/// The adjacency flags that a completed square gives the cell at `(x, y)`:
/// a flag is set exactly when the in-bounds neighbor differs by exactly 1.
pub open spec fn adjacency_of(ls: &LatinSquare, x: int, y: int) -> Adjacency {
    Adjacency {
        above: y > 0 && diff_one(ls.at(x, y), ls.at(x, y - 1)),
        below: y < ls.n() - 1 && diff_one(ls.at(x, y), ls.at(x, y + 1)),
        left: x > 0 && diff_one(ls.at(x, y), ls.at(x - 1, y)),
        right: x < ls.n() - 1 && diff_one(ls.at(x, y), ls.at(x + 1, y)),
    }
}

pub struct UnequalLatinSquare {
    pub size: u8,
    pub squares: Vec<u32>,
    pub adjacency: Vec<Adjacency>,
    pub last_check_squares: Option<Vec<u32>>,
}

/// The adjacency flags mirror each other across every shared edge, and
/// out-of-bounds directions are fixed false.
pub open spec fn adj_flags_wf(n: int, a: Seq<Adjacency>) -> bool {
    &&& forall|x: int, y: int|
        0 <= x < n && 0 <= y < n ==> ((y == 0 ==> !(#[trigger] a[idx(n, x, y)]).above) && (y > 0
            ==> a[idx(n, x, y)].above == a[idx(n, x, y - 1)].below))
    &&& forall|x: int, y: int|
        0 <= x < n && 0 <= y < n ==> ((x == 0 ==> !(#[trigger] a[idx(n, x, y)]).left) && (x > 0
            ==> a[idx(n, x, y)].left == a[idx(n, x - 1, y)].right))
    &&& forall|x: int, y: int|
        0 <= x < n && 0 <= y < n ==> ((y == n - 1 ==> !(#[trigger] a[idx(n, x, y)]).below) && (x
            == n - 1 ==> !a[idx(n, x, y)].right))
}

/// Full grids of masks and flags, masks confined to the low `size` bits,
/// and mirrored adjacency flags.
pub open spec fn grids_wf(size: u8, s: Seq<u32>, a: Seq<Adjacency>) -> bool {
    &&& 1 <= size <= 9
    &&& s.len() == (size as int) * (size as int)
    &&& a.len() == (size as int) * (size as int)
    &&& forall|i: int| 0 <= i < s.len() ==> (#[trigger] s[i]) < (1u32 << size)
    &&& adj_flags_wf(size as int, a)
}

/// Row exclusion: `v` is not the resolved value of another cell of row `y`.
pub open spec fn row_ok(s: Seq<u32>, n: int, x: int, y: int, v: u32) -> bool {
    forall|x2: int|
        0 <= x2 < n && x2 != x && resolved(#[trigger] s[idx(n, x2, y)]) ==> !bit(
            s[idx(n, x2, y)],
            v,
        )
}

/// Column exclusion: `v` is not the resolved value of another cell of
/// column `x`.
pub open spec fn col_ok(s: Seq<u32>, n: int, x: int, y: int, v: u32) -> bool {
    forall|y2: int|
        0 <= y2 < n && y2 != y && resolved(#[trigger] s[idx(n, x, y2)]) ==> !bit(
            s[idx(n, x, y2)],
            v,
        )
}

/// A marked pair must differ by exactly 1: `v` needs a neighbor candidate
/// exactly 1 away.
pub open spec fn near_ok(nb: u32, v: u32) -> bool {
    (v >= 1 && bit(nb, (v - 1) as u32)) || (v < 31 && bit(nb, (v + 1) as u32))
}

/// An unmarked pair must not differ by exactly 1: `v` needs some neighbor
/// candidate below `n` at distance at least 2.
pub open spec fn far_ok(nb: u32, n: int, v: u32) -> bool {
    exists|d: u32| d < n && #[trigger] bit(nb, d) && v + 1 != d && v != d && v != d + 1
}

/// The constraint that the neighbor in direction `d` puts on value `v` of
/// the cell at `(x, y)`; no constraint when that neighbor is out of bounds.
pub open spec fn dir_ok(
    s: Seq<u32>,
    a: Seq<Adjacency>,
    n: int,
    x: int,
    y: int,
    d: Direction,
    v: u32,
) -> bool {
    let nx = x + d.dx();
    let ny = y + d.dy();
    if 0 <= nx < n && 0 <= ny < n {
        if spec_flag(a[idx(n, x, y)], d) {
            near_ok(s[idx(n, nx, ny)], v)
        } else {
            far_ok(s[idx(n, nx, ny)], n, v)
        }
    } else {
        true
    }
}

/// One propagation step keeps candidate `v` of the cell at `(x, y)` exactly
/// when the pre-step masks `s` hold it and it passes row exclusion, column
/// exclusion and all four directional constraints.
pub open spec fn step_keeps(
    s: Seq<u32>,
    a: Seq<Adjacency>,
    n: int,
    x: int,
    y: int,
    v: u32,
) -> bool {
    &&& bit(s[idx(n, x, y)], v)
    &&& row_ok(s, n, x, y, v)
    &&& col_ok(s, n, x, y, v)
    &&& dir_ok(s, a, n, x, y, Direction::Above, v)
    &&& dir_ok(s, a, n, x, y, Direction::Below, v)
    &&& dir_ok(s, a, n, x, y, Direction::Left, v)
    &&& dir_ok(s, a, n, x, y, Direction::Right, v)
}

/// Every mask holds exactly one candidate.
pub open spec fn all_resolved(s: Seq<u32>) -> bool {
    forall|i: int| 0 <= i < s.len() ==> resolved(#[trigger] s[i])
}

/// Candidate values that an unmarked neighbor with mask `nb` leaves open:
/// bit `v` is set exactly when some candidate of the neighbor lies at
/// distance at least 2 from `v`.
pub fn nonadjacent_allowed(nb: u32, size: u8) -> (r: u32)
    requires
        1 <= size <= 9,
    ensures
        forall|v: u32| v < 32 ==> ((#[trigger] bit(r, v)) <==> far_ok(nb, size as int, v)),
{
    let mut allowed: u32 = 0;
    proof {
        crate::bits::lemma_bit_zero();
    }
    for digit in 0..size
        invariant
            size <= 9,
            forall|v: u32|
                v < 32 ==> ((#[trigger] bit(allowed, v)) <==> exists|d: u32|
                    d < digit && #[trigger] bit(nb, d) && v + 1 != d && v != d && v != d + 1),
    {
        let digit_mask: u32 = 1u32 << digit;
        proof {
            let dd = digit as u32;
            assert((nb & (1u32 << dd) != 0) == ((nb >> dd) & 1u32 == 1u32)) by (bit_vector)
                requires
                    dd < 32,
            ;
        }
        if nb & digit_mask != 0 {
            let window: u32 = digit_mask << 1u32 | digit_mask | digit_mask >> 1u32;
            let ghost old_allowed = allowed;
            allowed = allowed | !window;
            proof {
                let dd = digit as u32;
                crate::bits::lemma_bit_far_window(dd);
                lemma_bit_or(old_allowed, !window);
                assert forall|v: u32| v < 32 implies ((#[trigger] bit(allowed, v)) <==> exists|
                    d: u32,
                |
                    d < digit + 1 && #[trigger] bit(nb, d) && v + 1 != d && v != d && v != d
                        + 1) by {
                    if bit(allowed, v) {
                        if bit(old_allowed, v) {
                            let d = choose|d: u32|
                                d < digit && #[trigger] bit(nb, d) && v + 1 != d && v != d && v
                                    != d + 1;
                            assert(bit(nb, d));
                        } else {
                            assert(bit(!window, v));
                            assert(bit(nb, dd));
                        }
                    } else {
                        if exists|d: u32|
                            d < digit + 1 && #[trigger] bit(nb, d) && v + 1 != d && v != d && v != d
                                + 1 {
                            let d = choose|d: u32|
                                d < digit + 1 && #[trigger] bit(nb, d) && v + 1 != d && v != d && v
                                    != d + 1;
                            if d < digit {
                                assert(bit(old_allowed, v));
                            } else {
                                assert(bit(!window, v));
                            }
                        }
                    }
                }
            }
        } else {
            proof {
                assert forall|v: u32| v < 32 implies ((#[trigger] bit(allowed, v)) <==> exists|
                    d: u32,
                |
                    d < digit + 1 && #[trigger] bit(nb, d) && v + 1 != d && v != d && v != d
                        + 1) by {
                    if bit(allowed, v) {
                        let d = choose|d: u32|
                            d < digit && #[trigger] bit(nb, d) && v + 1 != d && v != d && v != d
                                + 1;
                        assert(bit(nb, d));
                    } else {
                        if exists|d: u32|
                            d < digit + 1 && #[trigger] bit(nb, d) && v + 1 != d && v != d && v != d
                                + 1 {
                            let d = choose|d: u32|
                                d < digit + 1 && #[trigger] bit(nb, d) && v + 1 != d && v != d && v
                                    != d + 1;
                            assert(d < digit);
                            assert(bit(allowed, v));
                        }
                    }
                }
            }
        }
    }
    allowed
}

/// Copies a mask array.
fn copy_masks(v: &Vec<u32>) -> (r: Vec<u32>)
    ensures
        r@ == v@,
{
    let mut r: Vec<u32> = Vec::new();
    for i in 0..v.len()
        invariant
            r@.len() == i,
            forall|j: int| 0 <= j < i ==> (#[trigger] r@[j]) == v@[j],
    {
        r.push(v[i]);
    }
    proof {
        assert(r@ =~= v@);
    }
    r
}

/// Compares two mask arrays for equality.
fn masks_equal(a: &Vec<u32>, b: &Vec<u32>) -> (r: bool)
    ensures
        r == (a@ == b@),
{
    if a.len() != b.len() {
        return false;
    }
    for i in 0..a.len()
        invariant
            a@.len() == b@.len(),
            forall|j: int| 0 <= j < i ==> (#[trigger] a@[j]) == b@[j],
    {
        if a[i] != b[i] {
            return false;
        }
    }
    proof {
        assert(a@ =~= b@);
    }
    true
}

impl UnequalLatinSquare {
    /// The side length, as a mathematical integer.
    pub open spec fn n(&self) -> int {
        self.size as int
    }

    pub open spec fn spec_size(&self) -> u8 {
        self.size
    }

    /// The candidate mask of the cell at column `x`, row `y`.
    pub open spec fn mask(&self, x: int, y: int) -> u32 {
        self.squares@[idx(self.n(), x, y)]
    }

    /// The adjacency flags of the cell at column `x`, row `y`.
    pub open spec fn adj_at(&self, x: int, y: int) -> Adjacency {
        self.adjacency@[idx(self.n(), x, y)]
    }

    /// The adjacency flags mirror each other across every shared edge, and
    /// out-of-bounds directions are fixed false.
    pub open spec fn adj_wf(&self) -> bool {
        adj_flags_wf(self.n(), self.adjacency@)
    }

    /// Full grids of masks and flags, masks confined to the low `size` bits,
    /// and mirrored adjacency flags.
    pub open spec fn wf(&self) -> bool {
        grids_wf(self.size, self.squares@, self.adjacency@)
    }

    /// The masks are unchanged since the snapshot that the previous step
    /// recorded, so a further step would be a stagnant call.
    pub open spec fn stagnant(&self) -> bool {
        match self.last_check_squares {
            Some(prev) => prev@ == self.squares@,
            None => false,
        }
    }

    /// The snapshot recorded by the previous step, as a sequence.
    pub open spec fn last_check_view(&self) -> Option<Seq<u32>> {
        match self.last_check_squares {
            Some(prev) => Some(prev@),
            None => None,
        }
    }

    /// Whether `(x, y)` lies inside the grid.
    pub fn square_coord_is_legal(&self, x: i8, y: i8) -> (r: bool)
        requires
            self.wf(),
        ensures
            r == (0 <= x < self.n() && 0 <= y < self.n()),
    {
        x >= 0 && y >= 0 && x < self.size as i8 && y < self.size as i8
    }

    /// Linear index of the cell at column `x`, row `y`.
    pub fn square_coord(&self, x: u8, y: u8) -> (c: usize)
        requires
            self.wf(),
            x < self.spec_size(),
            y < self.spec_size(),
        ensures
            c == idx(self.n(), x as int, y as int),
            c < self.squares@.len(),
            c < self.adjacency@.len(),
    {
        proof {
            grid_index_bounds(self.n(), x as int, y as int);
        }
        LatinSquare::static_square_coord(self.size, x, y)
    }

    /// The candidate mask of the cell at column `x`, row `y`.
    pub fn square_bitmask(&self, x: u8, y: u8) -> (m: u32)
        requires
            self.wf(),
            x < self.spec_size(),
            y < self.spec_size(),
        ensures
            m == self.mask(x as int, y as int),
            m < (1u32 << self.size),
    {
        let c = self.square_coord(x, y);
        self.squares[c]
    }

    /// The adjacency flags of the cell at column `x`, row `y`.
    pub fn square_adjacents(&self, x: u8, y: u8) -> (a: Adjacency)
        requires
            self.wf(),
            x < self.spec_size(),
            y < self.spec_size(),
        ensures
            a == self.adj_at(x as int, y as int),
    {
        let c = self.square_coord(x, y);
        self.adjacency[c]
    }

    /// The resolved value of the cell, if its mask holds exactly one
    /// candidate, else `None`.
    pub fn square_value(&self, x: u8, y: u8) -> (r: Option<u8>)
        requires
            self.wf(),
            x < self.spec_size(),
            y < self.spec_size(),
        ensures
            match r {
                Some(v) => resolved(self.mask(x as int, y as int)) && v == value_of(
                    self.mask(x as int, y as int),
                ) && v < self.spec_size(),
                None => !resolved(self.mask(x as int, y as int)),
            },
    {
        let m = self.square_bitmask(x, y);
        if mask_card(m) != 1 {
            return None;
        }
        for v in 0..32u32
            invariant
                m == self.mask(x as int, y as int),
                card(m) == 1,
                m < (1u32 << self.size),
                self.size <= 9,
                forall|w: u32| w < v ==> !bit(m, w),
        {
            if (m >> v) & 1u32 == 1u32 {
                proof {
                    assert(bit(m, v));
                    lemma_value_of(m);
                    if v >= self.size {
                        lemma_bit_bound(m, self.size as u32, v);
                    }
                }
                return Some(v as u8);
            }
            proof {
                assert(!bit(m, v));
            }
        }
        proof {
            lemma_pop_zero(m, 32);
            assert(false);
        }
        None
    }

    /// The remaining candidate values of the cell, in ascending order.
    pub fn square_possible(&self, x: u8, y: u8) -> (r: Vec<u8>)
        requires
            self.wf(),
            x < self.spec_size(),
            y < self.spec_size(),
        ensures
            r@ == crate::bits::mask_seq(self.mask(x as int, y as int), 32),
            r@.len() == card(self.mask(x as int, y as int)),
            forall|i: int| 0 <= i < r@.len() ==> bit(self.mask(x as int, y as int), (#[trigger] r@[i]) as u32),
            forall|i: int, j: int| 0 <= i < j < r@.len() ==> r@[i] < r@[j],
            forall|v: u32| bit(self.mask(x as int, y as int), v) ==> r@.contains(v as u8),
    {
        let m = self.square_bitmask(x, y);
        let mut r: Vec<u8> = Vec::new();
        for v in 0..32u32
            invariant
                m == self.mask(x as int, y as int),
                r@ == crate::bits::mask_seq(m, v),
                r@.len() == crate::bits::pop(m, v),
                forall|i: int| 0 <= i < r@.len() ==> (#[trigger] r@[i]) < v,
                forall|i: int| 0 <= i < r@.len() ==> bit(m, (#[trigger] r@[i]) as u32),
                forall|i: int, j: int| 0 <= i < j < r@.len() ==> r@[i] < r@[j],
                forall|w: u32| w < v && bit(m, w) ==> r@.contains(w as u8),
        {
            if (m >> v) & 1u32 == 1u32 {
                proof {
                    assert(bit(m, v));
                }
                let ghost old_r = r@;
                r.push(v as u8);
                proof {
                    assert(r@ == old_r.push(v as u8));
                    assert(r@ =~= crate::bits::mask_seq(m, (v + 1) as u32));
                    assert forall|w: u32| w < v + 1 && bit(m, w) implies r@.contains(w as u8) by {
                        if w < v {
                            assert(old_r.contains(w as u8));
                            let k = choose|k: int| 0 <= k < old_r.len() && old_r[k] == w as u8;
                            assert(r@[k] == w as u8);
                        } else {
                            assert(r@[r@.len() - 1] == w as u8);
                        }
                    }
                }
            } else {
                proof {
                    assert(!bit(m, v));
                    assert(r@ =~= crate::bits::mask_seq(m, (v + 1) as u32));
                    assert forall|w: u32| w < v + 1 && bit(m, w) implies r@.contains(w as u8) by {
                        assert(w < v);
                    }
                }
            }
        }
        r
    }

    /// Builds the initial puzzle from a completed square: the cells listed
    /// in `givens` keep their value as the only candidate, every other cell
    /// starts with the full candidate set; the adjacency flags are derived
    /// from the completed values.
    pub fn with_givens(ls: &LatinSquare, givens: &Vec<usize>) -> (r: UnequalLatinSquare)
        requires
            ls.wf(),
        ensures
            r.wf(),
            r.spec_size() == ls.spec_size(),
            r.last_check_squares is None,
            forall|x: int, y: int|
                0 <= x < r.n() && 0 <= y < r.n() ==> #[trigger] r.adj_at(x, y) == adjacency_of(
                    ls,
                    x,
                    y,
                ),
            forall|i: int|
                0 <= i < r.squares@.len() ==> #[trigger] r.squares@[i] == if givens@.contains(
                    i as usize,
                ) {
                    (1u32 << ls.squares@[i])
                } else {
                    ((1u32 << ls.spec_size()) - 1) as u32
                },
    {
        let size = ls.size();
        let mut adjacency: Vec<Adjacency> = Vec::new();
        assert(adjacency@.len() == 0);
        for y in 0..size
            invariant
                ls.wf(),
                size == ls.spec_size(),
                adjacency@.len() == y * (size as int),
                forall|xx: int, yy: int|
                    0 <= xx < size && 0 <= yy < y ==> #[trigger] adjacency@[idx(
                        size as int,
                        xx,
                        yy,
                    )] == adjacency_of(ls, xx, yy),
        {
            for x in 0..size
                invariant
                    ls.wf(),
                    size == ls.spec_size(),
                    y < size,
                    adjacency@.len() == y * (size as int) + x,
                    forall|xx: int, yy: int|
                        0 <= xx < size && 0 <= yy < y ==> #[trigger] adjacency@[idx(
                            size as int,
                            xx,
                            yy,
                        )] == adjacency_of(ls, xx, yy),
                    forall|xx: int|
                        0 <= xx < x ==> #[trigger] adjacency@[idx(size as int, xx, y as int)]
                            == adjacency_of(ls, xx, y as int),
            {
                let here = ls.square(x, y);
                let a = Adjacency {
                    above: y > 0 && diff_is_one(here, ls.square(x, y - 1)),
                    below: y < size - 1 && diff_is_one(here, ls.square(x, y + 1)),
                    left: x > 0 && diff_is_one(here, ls.square(x - 1, y)),
                    right: x < size - 1 && diff_is_one(here, ls.square(x + 1, y)),
                };
                adjacency.push(a);
                proof {
                    assert(adjacency@[idx(size as int, x as int, y as int)] == a);
                    assert(a == adjacency_of(ls, x as int, y as int));
                    assert forall|xx: int, yy: int|
                        0 <= xx < size && 0 <= yy < y implies #[trigger] adjacency@[idx(
                        size as int,
                        xx,
                        yy,
                    )] == adjacency_of(ls, xx, yy) by {
                        lemma_prefix_index(size as int, y as int, xx, yy);
                    }
                }
            }
            proof {
                lemma_row_extend(size as int, y as int);
            }
        }
        proof {
            assert(1 <= size as int * size as int <= 81) by (nonlinear_arith)
                requires
                    1 <= size as int <= 9,
            ;
            assert((1u32 << size) >= 1) by (bit_vector)
                requires
                    size <= 9,
            ;
        }
        let n2 = size as usize * size as usize;
        let full: u32 = (1u32 << size) - 1;
        let mut squares: Vec<u32> = Vec::new();
        for i in 0..n2
            invariant
                ls.wf(),
                size == ls.spec_size(),
                n2 == ls.squares@.len(),
                squares@.len() == i,
                full == ((1u32 << size) - 1) as u32,
                forall|j: int|
                    0 <= j < i ==> #[trigger] squares@[j] == if givens@.contains(j as usize) {
                        (1u32 << ls.squares@[j])
                    } else {
                        ((1u32 << size) - 1) as u32
                    },
        {
            if contains_index(givens, i) {
                squares.push(1u32 << ls.squares[i]);
            } else {
                squares.push(full);
            }
        }
        let r = UnequalLatinSquare { size, squares, adjacency, last_check_squares: None };
        proof {
            lemma_with_givens_wf(&r, ls, givens@);
        }
        r
    }

    /// Builds a fresh puzzle from a completed square: between 1 and 5 cells,
    /// chosen at random, keep their value as the only candidate.
    pub fn from_latin_square(ls: LatinSquare) -> (r: UnequalLatinSquare)
        requires
            ls.wf(),
        ensures
            r.wf(),
            r.spec_size() == ls.spec_size(),
            r.last_check_squares is None,
            forall|x: int, y: int|
                0 <= x < r.n() && 0 <= y < r.n() ==> #[trigger] r.adj_at(x, y) == adjacency_of(
                    &ls,
                    x,
                    y,
                ),
            forall|i: int|
                0 <= i < r.squares@.len() ==> #[trigger] r.squares@[i] == (1u32 << ls.squares@[i])
                    || #[trigger] r.squares@[i] == ((1u32 << ls.spec_size()) - 1) as u32,
            exists|i: int|
                0 <= i < r.squares@.len() && #[trigger] r.squares@[i] == (1u32 << ls.squares@[i]),
    {
        let mut rng = fresh_rng();
        let size = ls.size();
        proof {
            assert(1 <= size as int * size as int <= 81) by (nonlinear_arith)
                requires
                    1 <= size as int <= 9,
            ;
        }
        let n2 = size as usize * size as usize;
        let amt = random_in_range(&mut rng, 1, 6);
        let amount = if amt <= n2 {
            amt
        } else {
            n2
        };
        let givens = sample_indices(&mut rng, n2, amount);
        let r = Self::with_givens(&ls, &givens);
        proof {
            let g0 = givens@[0];
            assert(givens@.contains(g0));
            assert(r.squares@[g0 as int] == (1u32 << ls.squares@[g0 as int]));
        }
        r
    }
}

impl UnequalLatinSquare {
    /// The values not yet claimed by a resolved cell elsewhere in row `y`:
    /// bit `v` is clear exactly when another cell of the row has `v` as its
    /// only candidate.
    pub fn row_free(&self, p_x: u8, y: u8) -> (r: u32)
        requires
            self.wf(),
            p_x < self.spec_size(),
            y < self.spec_size(),
        ensures
            forall|v: u32|
                v < 32 ==> ((#[trigger] bit(r, v)) <==> row_ok(
                    self.squares@,
                    self.n(),
                    p_x as int,
                    y as int,
                    v,
                )),
    {
        let mut taken: u32 = 0;
        proof {
            crate::bits::lemma_bit_zero();
        }
        for x in 0..self.size
            invariant
                self.wf(),
                p_x < self.spec_size(),
                y < self.spec_size(),
                forall|v: u32|
                    #[trigger] bit(taken, v) ==> exists|x2: int|
                        0 <= x2 < x && x2 != p_x as int && resolved(
                            #[trigger] self.squares@[idx(self.n(), x2, y as int)],
                        ) && bit(self.squares@[idx(self.n(), x2, y as int)], v),
                forall|v: u32, x2: int|
                    0 <= x2 < x && x2 != p_x as int && resolved(
                        self.squares@[idx(self.n(), x2, y as int)],
                    ) && #[trigger] bit(self.squares@[idx(self.n(), x2, y as int)], v) ==> bit(
                        taken,
                        v,
                    ),
        {
            let square = self.square_bitmask(x, y);
            if mask_is_resolved(square) && x != p_x {
                let ghost old_taken = taken;
                taken = taken | square;
                proof {
                    lemma_bit_or(old_taken, square);
                    assert forall|v: u32| #[trigger] bit(taken, v) implies exists|x2: int|
                        0 <= x2 < x + 1 && x2 != p_x as int && resolved(
                            #[trigger] self.squares@[idx(self.n(), x2, y as int)],
                        ) && bit(self.squares@[idx(self.n(), x2, y as int)], v) by {
                        if bit(old_taken, v) {
                            let x2 = choose|x2: int|
                                0 <= x2 < x && x2 != p_x as int && resolved(
                                    #[trigger] self.squares@[idx(self.n(), x2, y as int)],
                                ) && bit(self.squares@[idx(self.n(), x2, y as int)], v);
                            assert(resolved(self.squares@[idx(self.n(), x2, y as int)]));
                        } else {
                            assert(bit(square, v));
                            assert(resolved(self.squares@[idx(self.n(), x as int, y as int)]));
                        }
                    }
                }
            } else {
                proof {
                    assert forall|v: u32| #[trigger] bit(taken, v) implies exists|x2: int|
                        0 <= x2 < x + 1 && x2 != p_x as int && resolved(
                            #[trigger] self.squares@[idx(self.n(), x2, y as int)],
                        ) && bit(self.squares@[idx(self.n(), x2, y as int)], v) by {
                        let x2 = choose|x2: int|
                            0 <= x2 < x && x2 != p_x as int && resolved(
                                #[trigger] self.squares@[idx(self.n(), x2, y as int)],
                            ) && bit(self.squares@[idx(self.n(), x2, y as int)], v);
                        assert(resolved(self.squares@[idx(self.n(), x2, y as int)]));
                    }
                }
            }
        }
        let r = !taken;
        proof {
            lemma_bit_not(taken);
            assert forall|v: u32| v < 32 implies ((#[trigger] bit(r, v)) <==> row_ok(
                self.squares@,
                self.n(),
                p_x as int,
                y as int,
                v,
            )) by {
                if bit(r, v) {
                    assert(!bit(taken, v));
                    assert forall|x2: int|
                        0 <= x2 < self.n() && x2 != p_x as int && resolved(
                            #[trigger] self.squares@[idx(self.n(), x2, y as int)],
                        ) implies !bit(self.squares@[idx(self.n(), x2, y as int)], v) by {
                        if bit(self.squares@[idx(self.n(), x2, y as int)], v) {
                            assert(bit(taken, v));
                        }
                    }
                } else {
                    assert(bit(taken, v));
                    let x2 = choose|x2: int|
                        0 <= x2 < self.n() && x2 != p_x as int && resolved(
                            #[trigger] self.squares@[idx(self.n(), x2, y as int)],
                        ) && bit(self.squares@[idx(self.n(), x2, y as int)], v);
                    assert(!row_ok(self.squares@, self.n(), p_x as int, y as int, v));
                }
            }
        }
        r
    }

    /// The values not yet claimed by a resolved cell elsewhere in column
    /// `x`.
    pub fn col_free(&self, x: u8, p_y: u8) -> (r: u32)
        requires
            self.wf(),
            x < self.spec_size(),
            p_y < self.spec_size(),
        ensures
            forall|v: u32|
                v < 32 ==> ((#[trigger] bit(r, v)) <==> col_ok(
                    self.squares@,
                    self.n(),
                    x as int,
                    p_y as int,
                    v,
                )),
    {
        let mut taken: u32 = 0;
        proof {
            crate::bits::lemma_bit_zero();
        }
        for y in 0..self.size
            invariant
                self.wf(),
                x < self.spec_size(),
                p_y < self.spec_size(),
                forall|v: u32|
                    #[trigger] bit(taken, v) ==> exists|y2: int|
                        0 <= y2 < y && y2 != p_y as int && resolved(
                            #[trigger] self.squares@[idx(self.n(), x as int, y2)],
                        ) && bit(self.squares@[idx(self.n(), x as int, y2)], v),
                forall|v: u32, y2: int|
                    0 <= y2 < y && y2 != p_y as int && resolved(
                        self.squares@[idx(self.n(), x as int, y2)],
                    ) && #[trigger] bit(self.squares@[idx(self.n(), x as int, y2)], v) ==> bit(
                        taken,
                        v,
                    ),
        {
            let square = self.square_bitmask(x, y);
            if mask_is_resolved(square) && y != p_y {
                let ghost old_taken = taken;
                taken = taken | square;
                proof {
                    lemma_bit_or(old_taken, square);
                    assert forall|v: u32| #[trigger] bit(taken, v) implies exists|y2: int|
                        0 <= y2 < y + 1 && y2 != p_y as int && resolved(
                            #[trigger] self.squares@[idx(self.n(), x as int, y2)],
                        ) && bit(self.squares@[idx(self.n(), x as int, y2)], v) by {
                        if bit(old_taken, v) {
                            let y2 = choose|y2: int|
                                0 <= y2 < y && y2 != p_y as int && resolved(
                                    #[trigger] self.squares@[idx(self.n(), x as int, y2)],
                                ) && bit(self.squares@[idx(self.n(), x as int, y2)], v);
                            assert(resolved(self.squares@[idx(self.n(), x as int, y2)]));
                        } else {
                            assert(bit(square, v));
                            assert(resolved(self.squares@[idx(self.n(), x as int, y as int)]));
                        }
                    }
                }
            } else {
                proof {
                    assert forall|v: u32| #[trigger] bit(taken, v) implies exists|y2: int|
                        0 <= y2 < y + 1 && y2 != p_y as int && resolved(
                            #[trigger] self.squares@[idx(self.n(), x as int, y2)],
                        ) && bit(self.squares@[idx(self.n(), x as int, y2)], v) by {
                        let y2 = choose|y2: int|
                            0 <= y2 < y && y2 != p_y as int && resolved(
                                #[trigger] self.squares@[idx(self.n(), x as int, y2)],
                            ) && bit(self.squares@[idx(self.n(), x as int, y2)], v);
                        assert(resolved(self.squares@[idx(self.n(), x as int, y2)]));
                    }
                }
            }
        }
        let r = !taken;
        proof {
            lemma_bit_not(taken);
            assert forall|v: u32| v < 32 implies ((#[trigger] bit(r, v)) <==> col_ok(
                self.squares@,
                self.n(),
                x as int,
                p_y as int,
                v,
            )) by {
                if bit(r, v) {
                    assert(!bit(taken, v));
                    assert forall|y2: int|
                        0 <= y2 < self.n() && y2 != p_y as int && resolved(
                            #[trigger] self.squares@[idx(self.n(), x as int, y2)],
                        ) implies !bit(self.squares@[idx(self.n(), x as int, y2)], v) by {
                        if bit(self.squares@[idx(self.n(), x as int, y2)], v) {
                            assert(bit(taken, v));
                        }
                    }
                } else {
                    assert(bit(taken, v));
                    let y2 = choose|y2: int|
                        0 <= y2 < self.n() && y2 != p_y as int && resolved(
                            #[trigger] self.squares@[idx(self.n(), x as int, y2)],
                        ) && bit(self.squares@[idx(self.n(), x as int, y2)], v);
                    assert(!col_ok(self.squares@, self.n(), x as int, p_y as int, v));
                }
            }
        }
        r
    }

    /// Narrows `m` by the constraint of the neighbor in direction `dir`.
    fn apply_direction(&self, m: u32, x: u8, y: u8, dir: Direction) -> (r: u32)
        requires
            self.wf(),
            x < self.spec_size(),
            y < self.spec_size(),
        ensures
            forall|v: u32|
                v < 32 ==> ((#[trigger] bit(r, v)) <==> bit(m, v) && dir_ok(
                    self.squares@,
                    self.adjacency@,
                    self.n(),
                    x as int,
                    y as int,
                    dir,
                    v,
                )),
    {
        if let Some(c) = dir.square_coords(self, x, y) {
            let nb = self.square_bitmask(c.0, c.1);
            let adj = self.square_adjacents(x, y);
            if adj.in_direction(dir) {
                proof {
                    lemma_bit_shl1(nb);
                    lemma_bit_shr1(nb);
                    lemma_bit_or(nb << 1u32, nb >> 1u32);
                    lemma_bit_and(m, nb << 1u32 | nb >> 1u32);
                }
                m & (nb << 1u32 | nb >> 1u32)
            } else {
                let fa = nonadjacent_allowed(nb, self.size);
                proof {
                    lemma_bit_and(m, fa);
                }
                m & fa
            }
        } else {
            m
        }
    }

    /// The next candidate mask of the cell at `(x, y)`, computed from the
    /// current masks of the whole grid.
    fn step_mask(&self, x: u8, y: u8) -> (m: u32)
        requires
            self.wf(),
            x < self.spec_size(),
            y < self.spec_size(),
        ensures
            forall|v: u32|
                v < 32 ==> ((#[trigger] bit(m, v)) <==> step_keeps(
                    self.squares@,
                    self.adjacency@,
                    self.n(),
                    x as int,
                    y as int,
                    v,
                )),
            m < (1u32 << self.size),
    {
        let m0 = self.square_bitmask(x, y);
        let rf = self.row_free(x, y);
        let cf = self.col_free(x, y);
        proof {
            lemma_bit_and(m0, rf);
        }
        let m1 = m0 & rf;
        proof {
            lemma_bit_and(m1, cf);
        }
        let m2 = m1 & cf;
        let m3 = self.apply_direction(m2, x, y, Direction::Above);
        let m4 = self.apply_direction(m3, x, y, Direction::Below);
        let m5 = self.apply_direction(m4, x, y, Direction::Left);
        let m6 = self.apply_direction(m5, x, y, Direction::Right);
        proof {
            assert forall|v: u32| self.size <= v < 32 implies !(#[trigger] bit(m6, v)) by {
                if bit(m6, v) {
                    lemma_bit_bound(m0, self.size as u32, v);
                }
            }
            crate::bits::lemma_bound_from_bits(m6, self.size as u32);
        }
        m6
    }

    /// Records the current masks as the snapshot against which the next
    /// step's stagnation precondition is judged.
    fn mark_step(&mut self)
        requires
            !old(self).stagnant(),
        ensures
            final(self).size == old(self).size,
            final(self).squares@ == old(self).squares@,
            final(self).adjacency@ == old(self).adjacency@,
            final(self).last_check_view() == Some(old(self).squares@),
            old(self).wf() ==> final(self).wf(),
    {
        let prev = copy_masks(&self.squares);
        self.last_check_squares = Some(prev);
    }

    /// One propagation step: recomputes every cell's mask from the pre-step
    /// snapshot of the whole grid, as the intersection of row exclusion,
    /// column exclusion and the four adjacency constraints. No mask ever
    /// gains a candidate, so the bit count of every cell is non-increasing
    /// across steps.
    pub fn solve_step(&mut self)
        requires
            old(self).wf(),
            !old(self).stagnant(),
        ensures
            final(self).wf(),
            final(self).spec_size() == old(self).spec_size(),
            final(self).adjacency@ == old(self).adjacency@,
            final(self).last_check_view() == Some(old(self).squares@),
            forall|x: int, y: int, v: u32|
                0 <= x < final(self).n() && 0 <= y < final(self).n() && v < 32 ==> ((
                #[trigger] bit(final(self).mask(x, y), v)) <==> step_keeps(
                    old(self).squares@,
                    old(self).adjacency@,
                    old(self).n(),
                    x,
                    y,
                    v,
                )),
            forall|x: int, y: int|
                0 <= x < final(self).n() && 0 <= y < final(self).n() ==> card(
                    #[trigger] final(self).mask(x, y),
                ) <= card(old(self).mask(x, y)),
    {
        self.mark_step();
        assert(self.wf());
        let size = self.size;
        let ghost s = self.squares@;
        let ghost a = self.adjacency@;
        let mut new_squares: Vec<u32> = Vec::new();
        assert(new_squares@.len() == 0);
        for y in 0..size
            invariant
                self.wf(),
                size == self.spec_size(),
                s == self.squares@,
                a == self.adjacency@,
                new_squares@.len() == y * (size as int),
                forall|i: int|
                    0 <= i < new_squares@.len() ==> (#[trigger] new_squares@[i]) < (1u32 << size),
                forall|xx: int, yy: int, v: u32|
                    0 <= xx < size && 0 <= yy < y && v < 32 ==> ((#[trigger] bit(
                        new_squares@[idx(size as int, xx, yy)],
                        v,
                    )) <==> step_keeps(s, a, size as int, xx, yy, v)),
        {
            for x in 0..size
                invariant
                    self.wf(),
                    size == self.spec_size(),
                    s == self.squares@,
                    a == self.adjacency@,
                    y < size,
                    new_squares@.len() == y * (size as int) + x,
                    forall|i: int|
                        0 <= i < new_squares@.len() ==> (#[trigger] new_squares@[i]) < (1u32
                            << size),
                    forall|xx: int, yy: int, v: u32|
                        0 <= xx < size && 0 <= yy < y && v < 32 ==> ((#[trigger] bit(
                            new_squares@[idx(size as int, xx, yy)],
                            v,
                        )) <==> step_keeps(s, a, size as int, xx, yy, v)),
                    forall|xx: int, v: u32|
                        0 <= xx < x && v < 32 ==> ((#[trigger] bit(
                            new_squares@[idx(size as int, xx, y as int)],
                            v,
                        )) <==> step_keeps(s, a, size as int, xx, y as int, v)),
            {
                let m = self.step_mask(x, y);
                new_squares.push(m);
                proof {
                    assert forall|xx: int, yy: int, v: u32|
                        0 <= xx < size && 0 <= yy < y && v < 32 implies ((#[trigger] bit(
                        new_squares@[idx(size as int, xx, yy)],
                        v,
                    )) <==> step_keeps(s, a, size as int, xx, yy, v)) by {
                        lemma_prefix_index(size as int, y as int, xx, yy);
                    }
                }
            }
            proof {
                lemma_row_extend(size as int, y as int);
            }
        }
        self.squares = new_squares;
        proof {
            assert(self.wf());
            let n = size as int;
            assert forall|x: int, y: int| 0 <= x < n && 0 <= y < n implies card(
                #[trigger] self.mask(x, y),
            ) <= card(s[idx(n, x, y)]) by {
                grid_index_bounds(n, x, y);
                assert forall|v: u32| v < 32 && #[trigger] bit(self.mask(x, y), v) implies bit(
                    s[idx(n, x, y)],
                    v,
                ) by {
                    assert(step_keeps(s, a, n, x, y, v));
                }
                lemma_pop_monotone(self.mask(x, y), s[idx(n, x, y)], 32);
            }
        }
    }

    /// Whether every cell is down to exactly one candidate. A cell with an
    /// empty mask makes this false: an unsatisfiable state is never passed
    /// off as solved.
    pub fn solved(&self) -> (r: bool)
        ensures
            r == all_resolved(self.squares@),
    {
        let n = self.squares.len();
        for i in 0..n
            invariant
                n == self.squares@.len(),
                forall|j: int| 0 <= j < i ==> resolved(#[trigger] self.squares@[j]),
        {
            if !mask_is_resolved(self.squares[i]) {
                return false;
            }
        }
        true
    }

    /// Whether the masks have changed since the previous step's snapshot,
    /// so that `solve_step` may be called.
    pub fn can_step(&self) -> (r: bool)
        ensures
            r == !self.stagnant(),
    {
        match &self.last_check_squares {
            None => true,
            Some(prev) => !masks_equal(prev, &self.squares),
        }
    }
}

/// Tests whether the two values differ by exactly 1.
fn diff_is_one(a: u8, b: u8) -> (r: bool)
    ensures
        r == diff_one(a, b),
{
    a as u32 + 1 == b as u32 || b as u32 + 1 == a as u32
}

/// Tests whether `v` lists the index `t`.
fn contains_index(v: &Vec<usize>, t: usize) -> (r: bool)
    ensures
        r == v@.contains(t),
{
    for i in 0..v.len()
        invariant
            forall|j: int| 0 <= j < i ==> (#[trigger] v@[j]) != t,
    {
        if v[i] == t {
            return true;
        }
    }
    proof {
        if v@.contains(t) {
            let j = choose|j: int| 0 <= j < v@.len() && v@[j] == t;
            assert(v@[j] == t);
        }
    }
    false
}

/// The grids built by `with_givens` are well-formed: the flags mirror each
/// other because both sides compare the same two completed values.
proof fn lemma_with_givens_wf(r: &UnequalLatinSquare, ls: &LatinSquare, givens: Seq<usize>)
    requires
        1 <= r.size <= 9,
        r.spec_size() == ls.spec_size(),
        ls.wf(),
        r.squares@.len() == r.n() * r.n(),
        r.adjacency@.len() == r.n() * r.n(),
        forall|x: int, y: int|
            0 <= x < r.n() && 0 <= y < r.n() ==> #[trigger] r.adj_at(x, y) == adjacency_of(
                ls,
                x,
                y,
            ),
        forall|j: int|
            0 <= j < r.squares@.len() ==> #[trigger] r.squares@[j] == if givens.contains(
                j as usize,
            ) {
                (1u32 << ls.squares@[j])
            } else {
                ((1u32 << ls.spec_size()) - 1) as u32
            },
    ensures
        r.wf(),
{
    let n = r.n();
    let sz = r.size;
    assert forall|i: int| 0 <= i < r.squares@.len() implies (#[trigger] r.squares@[i]) < (1u32
        << sz) by {
        if givens.contains(i as usize) {
            let v = ls.squares@[i];
            assert(v < ls.spec_size());
            assert((1u32 << v) < (1u32 << sz)) by (bit_vector)
                requires
                    v < sz && sz <= 9,
            ;
        } else {
            assert((((1u32 << sz) - 1) as u32) < (1u32 << sz)) by (bit_vector)
                requires
                    sz <= 9 && sz >= 1,
            ;
        }
    }
    let a = r.adjacency@;
    assert forall|x: int, y: int| 0 <= x < n && 0 <= y < n implies ((y == 0 ==> !(#[trigger] a[idx(
        n,
        x,
        y,
    )]).above) && (y > 0 ==> a[idx(n, x, y)].above == a[idx(n, x, y - 1)].below)) by {
        assert(a[idx(n, x, y)] == r.adj_at(x, y));
        assert(r.adj_at(x, y) == adjacency_of(ls, x, y));
        if y > 0 {
            assert(a[idx(n, x, y - 1)] == r.adj_at(x, y - 1));
            assert(r.adj_at(x, y - 1) == adjacency_of(ls, x, y - 1));
        }
    }
    assert forall|x: int, y: int| 0 <= x < n && 0 <= y < n implies ((x == 0 ==> !(#[trigger] a[idx(
        n,
        x,
        y,
    )]).left) && (x > 0 ==> a[idx(n, x, y)].left == a[idx(n, x - 1, y)].right)) by {
        assert(a[idx(n, x, y)] == r.adj_at(x, y));
        assert(r.adj_at(x, y) == adjacency_of(ls, x, y));
        if x > 0 {
            assert(a[idx(n, x - 1, y)] == r.adj_at(x - 1, y));
            assert(r.adj_at(x - 1, y) == adjacency_of(ls, x - 1, y));
        }
    }
    assert forall|x: int, y: int| 0 <= x < n && 0 <= y < n implies ((y == n - 1 ==> !(
    #[trigger] a[idx(n, x, y)]).below) && (x == n - 1 ==> !a[idx(n, x, y)].right)) by {
        assert(a[idx(n, x, y)] == r.adj_at(x, y));
        assert(r.adj_at(x, y) == adjacency_of(ls, x, y));
    }
    assert(adj_flags_wf(n, a));
}

} // verus!
