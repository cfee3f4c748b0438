//! A completed N x N Latin square: each row and each column holds each value
//! in `[0, N)` exactly once. Built deterministically from the base square
//! `cell(x, y) = (x + y) mod N`, then randomized by permuting rows, and, via
//! a transpose, columns; both operations preserve the Latin property.

use vstd::prelude::*;

use crate::rng::{fresh_rng, shuffle_bytes};

verus! {

pub struct LatinSquare {
    pub size: u8,
    pub squares: Vec<u8>,
}

/// Row `y` holds value `v` somewhere.
pub open spec fn row_contains(ls: &LatinSquare, y: int, v: u8) -> bool {
    exists|x: int| 0 <= x < ls.n() && #[trigger] ls.at(x, y) == v
}

/// Column `x` holds value `v` somewhere.
pub open spec fn col_contains(ls: &LatinSquare, x: int, v: u8) -> bool {
    exists|y: int| 0 <= y < ls.n() && #[trigger] ls.at(x, y) == v
}

/// Every row and every column of a well-formed square holds each value in
/// `[0, N)` exactly once: any two cells of a line differ, and every value
/// occurs somewhere in the line.
pub open spec fn is_latin(ls: &LatinSquare) -> bool {
    &&& forall|y: int, x1: int, x2: int|
        0 <= y < ls.n() && 0 <= x1 < ls.n() && 0 <= x2 < ls.n() && x1 != x2 ==> #[trigger] ls.at(
            x1,
            y,
        ) != #[trigger] ls.at(x2, y)
    &&& forall|x: int, y1: int, y2: int|
        0 <= x < ls.n() && 0 <= y1 < ls.n() && 0 <= y2 < ls.n() && y1 != y2 ==> #[trigger] ls.at(
            x,
            y1,
        ) != #[trigger] ls.at(x, y2)
    &&& forall|y: int, v: u8| 0 <= y < ls.n() && v < ls.n() ==> #[trigger] row_contains(ls, y, v)
    &&& forall|x: int, v: u8| 0 <= x < ls.n() && v < ls.n() ==> #[trigger] col_contains(ls, x, v)
}

/// `p` lists each value of `[0, n)` exactly once.
pub open spec fn is_permutation(p: Seq<u8>, n: int) -> bool {
    &&& p.len() == n
    &&& forall|i: int| 0 <= i < n ==> (#[trigger] p[i]) < n
    &&& forall|i: int, j: int| 0 <= i < n && 0 <= j < n && i != j ==> p[i] != p[j]
    &&& forall|v: u8| v < n ==> #[trigger] p.contains(v)
}

impl LatinSquare {
    /// The side length, as a mathematical integer.
    pub open spec fn n(&self) -> int {
        self.size as int
    }

    pub open spec fn spec_size(&self) -> u8 {
        self.size
    }

    /// The value of the cell at column `x`, row `y`.
    pub open spec fn at(&self, x: int, y: int) -> u8 {
        self.squares@[x + y * self.n()]
    }

    /// The cells form a full grid and every value lies below the size.
    pub open spec fn wf(&self) -> bool {
        &&& 1 <= self.size <= 9
        &&& self.squares@.len() == self.n() * self.n()
        &&& forall|i: int|
            0 <= i < self.squares@.len() ==> (#[trigger] self.squares@[i]) < self.size
    }

    /// The side length of the square.
    pub fn size(&self) -> (s: u8)
        ensures
            s == self.spec_size(),
    {
        self.size
    }

    /// Linear index of the cell at column `x`, row `y` of a grid of the
    /// given size.
    pub fn static_square_coord(size: u8, x: u8, y: u8) -> (c: usize)
        requires
            x < size,
            y < size,
        ensures
            c == x + y * (size as int),
    {
        proof {
            assert(y as int * size as int <= 255 * 255) by (nonlinear_arith)
                requires
                    y as int <= 255 && size as int <= 255,
            ;
        }
        x as usize + y as usize * size as usize
    }

    /// Linear index of the cell at column `x`, row `y`.
    pub fn square_coord(&self, x: u8, y: u8) -> (c: usize)
        requires
            x < self.spec_size(),
            y < self.spec_size(),
        ensures
            c == x + y * self.n(),
    {
        LatinSquare::static_square_coord(self.size, x, y)
    }

    /// Reads the value of the cell at column `x`, row `y`.
    pub fn square(&self, x: u8, y: u8) -> (v: u8)
        requires
            self.wf(),
            x < self.spec_size(),
            y < self.spec_size(),
        ensures
            v == self.at(x as int, y as int),
            v < self.spec_size(),
    {
        let c = self.square_coord(x, y);
        proof {
            grid_index_bounds(self.n(), x as int, y as int);
        }
        self.squares[c]
    }

    /// The deterministic base square: `cell(x, y) = (x + y) mod size`.
    pub fn base(size: u8) -> (r: LatinSquare)
        requires
            1 <= size <= 9,
        ensures
            r.wf(),
            r.spec_size() == size,
            forall|x: int, y: int|
                0 <= x < size && 0 <= y < size ==> (#[trigger] r.at(x, y)) as int == (x + y) % (
                size as int),
    {
        let mut squares: Vec<u8> = Vec::new();
        let n = size as usize;
        for y in 0..size
            invariant
                1 <= size <= 9,
                squares@.len() == y * (size as int),
                forall|i: int| 0 <= i < squares@.len() ==> (#[trigger] squares@[i]) < size,
                forall|xx: int, yy: int|
                    0 <= xx < size && 0 <= yy < y ==> (#[trigger] squares@[xx + yy * (size as int)])
                        as int == (xx + yy) % (size as int),
        {
            for x in 0..size
                invariant
                    1 <= size <= 9,
                    y < size,
                    squares@.len() == y * (size as int) + x,
                    forall|i: int| 0 <= i < squares@.len() ==> (#[trigger] squares@[i]) < size,
                    forall|xx: int, yy: int|
                        0 <= xx < size && 0 <= yy < y ==> (#[trigger] squares@[xx + yy * (
                        size as int)]) as int == (xx + yy) % (size as int),
                    forall|xx: int|
                        0 <= xx < x ==> (#[trigger] squares@[xx + y * (size as int)]) as int == (xx
                            + y) % (size as int),
            {
                squares.push((x + y) % size);
                proof {
                    assert forall|xx: int, yy: int| 0 <= xx < size && 0 <= yy < y implies (
                    #[trigger] squares@[xx + yy * (size as int)]) as int == (xx + yy) % (
                    size as int) by {
                        lemma_prefix_index(size as int, y as int, xx, yy);
                    }
                }
            }
            proof {
                lemma_row_extend(size as int, y as int);
            }
        }
        let r = LatinSquare { size, squares };
        proof {
            assert forall|x: int, y: int| 0 <= x < size && 0 <= y < size implies (#[trigger] r.at(
                x,
                y,
            )) as int == (x + y) % (size as int) by {
                assert(r.at(x, y) == r.squares@[x + y * (size as int)]);
            }
        }
        r
    }

    /// A new square whose row `y` is this square's row `p[y]`.
    pub fn permute_rows(&self, p: &Vec<u8>) -> (r: LatinSquare)
        requires
            self.wf(),
            p@.len() == self.n(),
            forall|i: int| 0 <= i < p@.len() ==> (#[trigger] p@[i]) < self.spec_size(),
        ensures
            r.wf(),
            r.spec_size() == self.spec_size(),
            forall|x: int, y: int|
                0 <= x < r.n() && 0 <= y < r.n() ==> #[trigger] r.at(x, y) == self.at(
                    x,
                    p@[y] as int,
                ),
    {
        let size = self.size;
        let mut squares: Vec<u8> = Vec::new();
        for y in 0..size
            invariant
                self.wf(),
                size == self.spec_size(),
                p@.len() == self.n(),
                forall|i: int| 0 <= i < p@.len() ==> (#[trigger] p@[i]) < size,
                squares@.len() == y * (size as int),
                forall|i: int| 0 <= i < squares@.len() ==> (#[trigger] squares@[i]) < size,
                forall|xx: int, yy: int|
                    0 <= xx < size && 0 <= yy < y ==> #[trigger] squares@[xx + yy * (size as int)]
                        == self.at(xx, p@[yy] as int),
        {
            let py = p[y as usize];
            for x in 0..size
                invariant
                    self.wf(),
                    size == self.spec_size(),
                    p@.len() == self.n(),
                    forall|i: int| 0 <= i < p@.len() ==> (#[trigger] p@[i]) < size,
                    y < size,
                    py == p@[y as int],
                    squares@.len() == y * (size as int) + x,
                    forall|i: int| 0 <= i < squares@.len() ==> (#[trigger] squares@[i]) < size,
                    forall|xx: int, yy: int|
                        0 <= xx < size && 0 <= yy < y ==> #[trigger] squares@[xx + yy * (
                        size as int)] == self.at(xx, p@[yy] as int),
                    forall|xx: int|
                        0 <= xx < x ==> #[trigger] squares@[xx + y * (size as int)] == self.at(
                            xx,
                            p@[y as int] as int,
                        ),
            {
                let v = self.square(x, py);
                squares.push(v);
                proof {
                    assert forall|xx: int, yy: int| 0 <= xx < size && 0 <= yy < y implies #[trigger] squares@[xx
                        + yy * (size as int)] == self.at(xx, p@[yy] as int) by {
                        lemma_prefix_index(size as int, y as int, xx, yy);
                    }
                }
            }
            proof {
                lemma_row_extend(size as int, y as int);
            }
        }
        let r = LatinSquare { size, squares };
        proof {
            assert forall|x: int, y: int| 0 <= x < r.n() && 0 <= y < r.n() implies #[trigger] r.at(
                x,
                y,
            ) == self.at(x, p@[y] as int) by {
                assert(r.at(x, y) == r.squares@[x + y * (size as int)]);
            }
        }
        r
    }

    /// The mirrored square: cell `(x, y)` holds this square's cell `(y, x)`.
    pub fn transpose(&self) -> (r: LatinSquare)
        requires
            self.wf(),
        ensures
            r.wf(),
            r.spec_size() == self.spec_size(),
            forall|x: int, y: int|
                0 <= x < r.n() && 0 <= y < r.n() ==> #[trigger] r.at(x, y) == self.at(y, x),
    {
        let size = self.size;
        let mut squares: Vec<u8> = Vec::new();
        for y in 0..size
            invariant
                self.wf(),
                size == self.spec_size(),
                squares@.len() == y * (size as int),
                forall|i: int| 0 <= i < squares@.len() ==> (#[trigger] squares@[i]) < size,
                forall|xx: int, yy: int|
                    0 <= xx < size && 0 <= yy < y ==> #[trigger] squares@[xx + yy * (size as int)]
                        == self.at(yy, xx),
        {
            for x in 0..size
                invariant
                    self.wf(),
                    size == self.spec_size(),
                    y < size,
                    squares@.len() == y * (size as int) + x,
                    forall|i: int| 0 <= i < squares@.len() ==> (#[trigger] squares@[i]) < size,
                    forall|xx: int, yy: int|
                        0 <= xx < size && 0 <= yy < y ==> #[trigger] squares@[xx + yy * (
                        size as int)] == self.at(yy, xx),
                    forall|xx: int|
                        0 <= xx < x ==> #[trigger] squares@[xx + y * (size as int)] == self.at(
                            y as int,
                            xx,
                        ),
            {
                let v = self.square(y, x);
                squares.push(v);
                proof {
                    assert forall|xx: int, yy: int| 0 <= xx < size && 0 <= yy < y implies #[trigger] squares@[xx
                        + yy * (size as int)] == self.at(yy, xx) by {
                        lemma_prefix_index(size as int, y as int, xx, yy);
                    }
                }
            }
            proof {
                lemma_row_extend(size as int, y as int);
            }
        }
        let r = LatinSquare { size, squares };
        proof {
            assert forall|x: int, y: int| 0 <= x < r.n() && 0 <= y < r.n() implies #[trigger] r.at(
                x,
                y,
            ) == self.at(y, x) by {
                assert(r.at(x, y) == r.squares@[x + y * (size as int)]);
            }
        }
        r
    }

    /// A random, fully valid Latin square: the base square with rows and
    /// columns permuted uniformly at random.
    pub fn random(size: u8) -> (r: LatinSquare)
        requires
            1 <= size <= 9,
        ensures
            r.wf(),
            r.spec_size() == size,
            is_latin(&r),
    {
        let mut rng = fresh_rng();
        let mut p = identity_permutation(size);
        shuffle_bytes(&mut rng, &mut p);
        if !check_permutation(&p, size) {
            // rand promises a reordering, so this branch is unreachable; the
            // unshuffled order keeps the construction total either way.
            p = identity_permutation(size);
        }
        let mut q = identity_permutation(size);
        shuffle_bytes(&mut rng, &mut q);
        if !check_permutation(&q, size) {
            q = identity_permutation(size);
        }
        let b = LatinSquare::base(size);
        proof {
            lemma_base_is_latin(&b);
        }
        let rows = b.permute_rows(&p);
        proof {
            lemma_permute_rows_latin(&b, &rows, p@);
        }
        let t = rows.transpose();
        proof {
            lemma_transpose_latin(&rows, &t);
        }
        let r = t.permute_rows(&q);
        proof {
            lemma_permute_rows_latin(&t, &r, q@);
        }
        r
    }
}

/// In a grid of side `n`, the linear index of an in-bounds cell lies below
/// `n * n`.
pub proof fn grid_index_bounds(n: int, x: int, y: int)
    requires
        0 <= x < n,
        0 <= y < n,
    ensures
        0 <= x + y * n < n * n,
{
    assert(0 <= x + y * n < n * n) by (nonlinear_arith)
        requires
            0 <= x < n,
            0 <= y < n,
    ;
}

/// Cells of the rows before row `y` lie below the index `y * s`.
pub proof fn lemma_prefix_index(s: int, y: int, xx: int, yy: int)
    requires
        1 <= s,
        0 <= xx < s,
        0 <= yy < y,
    ensures
        0 <= xx + yy * s && xx + yy * s < y * s,
{
    assert(0 <= xx + yy * s && xx + yy * s < y * s) by (nonlinear_arith)
        requires
            1 <= s,
            0 <= xx < s,
            0 <= yy < y,
    ;
}

/// One more full row of `s` cells ends at `(y + 1) * s`.
pub proof fn lemma_row_extend(s: int, y: int)
    ensures
        (y + 1) * s == y * s + s,
{
    assert((y + 1) * s == y * s + s) by (nonlinear_arith);
}

/// For sums below `2n`, the remainder is the sum itself or the sum less `n`.
proof fn lemma_wrap_mod(a: int, n: int)
    requires
        0 <= a < 2 * n,
        1 <= n,
    ensures
        a % n == if a < n {
            a
        } else {
            a - n
        },
{
    if a < n {
        vstd::arithmetic::div_mod::lemma_small_mod(a as nat, n as nat);
    } else {
        vstd::arithmetic::div_mod::lemma_mod_add_multiples_vanish(a - n, n);
        vstd::arithmetic::div_mod::lemma_small_mod((a - n) as nat, n as nat);
    }
}

/// The base square is a Latin square.
proof fn lemma_base_is_latin(ls: &LatinSquare)
    requires
        ls.wf(),
        forall|x: int, y: int|
            0 <= x < ls.n() && 0 <= y < ls.n() ==> (#[trigger] ls.at(x, y)) as int == (x + y) % (
            ls.n()),
    ensures
        is_latin(ls),
{
    let n = ls.n();
    assert forall|y: int, x1: int, x2: int|
        0 <= y < n && 0 <= x1 < n && 0 <= x2 < n && x1 != x2 implies #[trigger] ls.at(x1, y)
        != #[trigger] ls.at(x2, y) by {
        lemma_wrap_mod(x1 + y, n);
        lemma_wrap_mod(x2 + y, n);
    }
    assert forall|x: int, y1: int, y2: int|
        0 <= x < n && 0 <= y1 < n && 0 <= y2 < n && y1 != y2 implies #[trigger] ls.at(x, y1)
        != #[trigger] ls.at(x, y2) by {
        lemma_wrap_mod(x + y1, n);
        lemma_wrap_mod(x + y2, n);
    }
    assert forall|y: int, v: u8| 0 <= y < n && v < n implies #[trigger] row_contains(
        ls,
        y,
        v,
    ) by {
        let x = if v >= y {
            v - y
        } else {
            v + n - y
        };
        lemma_wrap_mod(x + y, n);
        assert(ls.at(x, y) == v);
    }
    assert forall|x: int, v: u8| 0 <= x < n && v < n implies #[trigger] col_contains(
        ls,
        x,
        v,
    ) by {
        let y = if v >= x {
            v - x
        } else {
            v + n - x
        };
        lemma_wrap_mod(x + y, n);
        assert(ls.at(x, y) == v);
    }
}

/// Permuting whole rows by a permutation keeps a square Latin.
proof fn lemma_permute_rows_latin(a: &LatinSquare, b: &LatinSquare, p: Seq<u8>)
    requires
        a.wf(),
        b.wf(),
        a.n() == b.n(),
        is_latin(a),
        is_permutation(p, a.n()),
        forall|x: int, y: int|
            0 <= x < b.n() && 0 <= y < b.n() ==> #[trigger] b.at(x, y) == a.at(x, p[y] as int),
    ensures
        is_latin(b),
{
    let n = b.n();
    assert forall|y: int, v: u8| 0 <= y < n && v < n implies #[trigger] row_contains(b, y, v) by {
        assert(row_contains(a, p[y] as int, v));
        let x = choose|x: int| 0 <= x < n && #[trigger] a.at(x, p[y] as int) == v;
        assert(b.at(x, y) == v);
    }
    assert forall|x: int, v: u8| 0 <= x < n && v < n implies #[trigger] col_contains(b, x, v) by {
        assert(col_contains(a, x, v));
        let y0 = choose|y: int| 0 <= y < n && #[trigger] a.at(x, y) == v;
        assert(p.contains(y0 as u8));
        let i = choose|i: int| 0 <= i < p.len() && p[i] == y0 as u8;
        assert(p[i] as int == y0);
        assert(b.at(x, i) == v);
    }
}

/// Mirroring a square along its diagonal keeps it Latin.
proof fn lemma_transpose_latin(a: &LatinSquare, b: &LatinSquare)
    requires
        a.wf(),
        b.wf(),
        a.n() == b.n(),
        is_latin(a),
        forall|x: int, y: int|
            0 <= x < b.n() && 0 <= y < b.n() ==> #[trigger] b.at(x, y) == a.at(y, x),
    ensures
        is_latin(b),
{
    let n = b.n();
    assert forall|y: int, v: u8| 0 <= y < n && v < n implies #[trigger] row_contains(b, y, v) by {
        assert(col_contains(a, y, v));
        let yy = choose|yy: int| 0 <= yy < n && #[trigger] a.at(y, yy) == v;
        assert(b.at(yy, y) == v);
    }
    assert forall|x: int, v: u8| 0 <= x < n && v < n implies #[trigger] col_contains(b, x, v) by {
        assert(row_contains(a, x, v));
        let xx = choose|xx: int| 0 <= xx < n && #[trigger] a.at(xx, x) == v;
        assert(b.at(x, xx) == v);
    }
}

/// Builds the permutation `0, 1, ..., size - 1`.
fn identity_permutation(size: u8) -> (p: Vec<u8>)
    requires
        size >= 1,
    ensures
        is_permutation(p@, size as int),
{
    let mut p: Vec<u8> = Vec::new();
    for i in 0..size
        invariant
            p@.len() == i,
            forall|j: int| 0 <= j < i ==> (#[trigger] p@[j]) == j,
    {
        p.push(i);
    }
    proof {
        assert forall|v: u8| v < size implies #[trigger] p@.contains(v) by {
            assert(p@[v as int] == v);
        }
    }
    p
}

/// Decides whether `p` lists each value of `[0, size)` exactly once.
fn check_permutation(p: &Vec<u8>, size: u8) -> (r: bool)
    requires
        size >= 1,
    ensures
        r == is_permutation(p@, size as int),
{
    if p.len() != size as usize {
        return false;
    }
    let mut seen: Vec<bool> = Vec::new();
    for _i in 0..size
        invariant
            seen@.len() == _i,
            forall|j: int| 0 <= j < _i ==> !(#[trigger] seen@[j]),
    {
        seen.push(false);
    }
    let n = size as usize;
    for i in 0..n
        invariant
            n == size as usize,
            p@.len() == size,
            seen@.len() == size,
            forall|j1: int, j2: int|
                0 <= j1 < i && 0 <= j2 < i && j1 != j2 ==> p@[j1] != p@[j2],
            forall|j: int| 0 <= j < i ==> (#[trigger] p@[j]) < size,
            forall|v: u8|
                v < size ==> ((#[trigger] seen@[v as int]) <==> exists|j: int|
                    0 <= j < i && p@[j] == v),
    {
        let v = p[i];
        if v >= size {
            return false;
        }
        if seen[v as usize] {
            proof {
                let j = choose|j: int| 0 <= j < i && p@[j] == v;
                assert(p@[j] == p@[i as int]);
            }
            return false;
        }
        seen.set(v as usize, true);
        proof {
            assert forall|w: u8| w < size implies ((#[trigger] seen@[w as int]) <==> exists|j: int|
                0 <= j < i + 1 && p@[j] == w) by {
                if w == v {
                    assert(p@[i as int] == w);
                } else {
                    if exists|j: int| 0 <= j < i + 1 && p@[j] == w {
                        let j = choose|j: int| 0 <= j < i + 1 && p@[j] == w;
                        assert(j < i);
                    }
                }
            }
        }
    }
    for v in 0..n
        invariant
            n == size as usize,
            p@.len() == size,
            seen@.len() == size,
            forall|j1: int, j2: int|
                0 <= j1 < size && 0 <= j2 < size && j1 != j2 ==> p@[j1] != p@[j2],
            forall|j: int| 0 <= j < size ==> (#[trigger] p@[j]) < size,
            forall|w: u8|
                w < size ==> ((#[trigger] seen@[w as int]) <==> exists|j: int|
                    0 <= j < size && p@[j] == w),
            forall|w: u8| w < v ==> #[trigger] p@.contains(w),
    {
        if !seen[v] {
            proof {
                assert(!seen@[v as int]);
                if p@.contains(v as u8) {
                    let j = choose|j: int| 0 <= j < p@.len() && p@[j] == v as u8;
                    assert(exists|j: int| 0 <= j < size && p@[j] == v as u8);
                }
            }
            return false;
        }
        proof {
            assert(seen@[v as int]);
            let j = choose|j: int| 0 <= j < size && p@[j] == v as u8;
            assert(p@[j] == v as u8);
            assert(p@.contains(v as u8));
        }
    }
    true
}

} // verus!
