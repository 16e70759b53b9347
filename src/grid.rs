use vstd::prelude::*;

verus! {

/// `s` is the ceiling of the square root of `n`: the least natural number whose square reaches `n`.
pub open spec fn is_ceil_sqrt(n: int, s: int) -> bool {
    0 <= s && n <= s * s && (s == 0 || (s - 1) * (s - 1) < n)
}

/// `i / s` rounded to the nearest integer, halves rounded up.
pub open spec fn round_quotient(i: int, s: int) -> int {
    (2 * i + s) / (2 * s)
}

/// A canvas for `n` entries fits in `u32` pixels both ways.
pub open spec fn canvas_fits(n: int, cell_width: int, cell_height: int) -> bool {
    forall|s: int|
        is_ceil_sqrt(n, s) ==> #[trigger] (s * cell_width) <= u32::MAX && s * cell_height <= u32::MAX
}

/// The square grid laid out for a catalog: cells per side, cell size and canvas size.
#[derive(Debug, Clone, Copy, PartialEq, Eq, Structural)]
pub struct GridGeometry {
    pub side: u64,
    pub cell_width: u32,
    pub cell_height: u32,
    pub canvas_width: u32,
    pub canvas_height: u32,
}

impl GridGeometry {
    /// The geometry of a catalog of `n` entries with cells of `cell_width` by `cell_height`.
    pub open spec fn is_geometry_of(&self, n: int, cell_width: int, cell_height: int) -> bool {
        &&& is_ceil_sqrt(n, self.side as int)
        &&& self.cell_width == cell_width
        &&& self.cell_height == cell_height
        &&& self.canvas_width == self.side * cell_width
        &&& self.canvas_height == self.side * cell_height
    }
}

/// The ceiling of the square root is unique.
pub proof fn lemma_ceil_sqrt_unique(n: int, s: int, t: int)
    requires
        is_ceil_sqrt(n, s),
        is_ceil_sqrt(n, t),
    ensures
        s == t,
{
    if s < t {
        assert(s * s <= (t - 1) * (t - 1)) by (nonlinear_arith)
            requires 0 <= s <= t - 1;
    } else if t < s {
        assert(t * t <= (s - 1) * (s - 1)) by (nonlinear_arith)
            requires 0 <= t <= s - 1;
    }
}

/// The number of cells on each side of the grid for `n` entries: `ceil(sqrt(n))`, and 0 for none.
pub fn grid_side(n: usize) -> (r: u64)
    ensures
        is_ceil_sqrt(n as int, r as int),
        r <= n,
{
    let mut s: u64 = 0;
    loop
        invariant
            s <= n,
            s == 0 || (s - 1) * (s - 1) < n,
        ensures
            s <= n,
            s == 0 || (s - 1) * (s - 1) < n,
            n <= s * s,
        decreases n - s,
    {
        assert((s as u128) * (s as u128) <= 0xffff_ffff_ffff_ffff_u128 * 0xffff_ffff_ffff_ffff_u128) by (nonlinear_arith)
            requires s <= 0xffff_ffff_ffff_ffff_u64;
        if (s as u128) * (s as u128) >= n as u128 {
            break;
        }
        assert(s < n) by (nonlinear_arith)
            requires s * s < n, 0 <= s;
        s = s + 1;
    }
    s
}

/// Lays out the grid for `n` entries; `None` when the canvas would not fit in `u32` pixels.
pub fn compute_geometry(n: usize, cell_width: u32, cell_height: u32) -> (r: Option<GridGeometry>)
    ensures
        r matches Some(g) ==> g.is_geometry_of(n as int, cell_width as int, cell_height as int),
        r is Some <==> canvas_fits(n as int, cell_width as int, cell_height as int),
{
    let side = grid_side(n);
    assert((side as u128) * (cell_width as u128) <= 0xffff_ffff_ffff_ffff_u128 * 0xffff_ffff_u128
        && (side as u128) * (cell_height as u128) <= 0xffff_ffff_ffff_ffff_u128 * 0xffff_ffff_u128) by (nonlinear_arith)
        requires side <= 0xffff_ffff_ffff_ffff_u64, cell_width <= 0xffff_ffff_u32, cell_height <= 0xffff_ffff_u32;
    let w = (side as u128) * (cell_width as u128);
    let h = (side as u128) * (cell_height as u128);
    if w > u32::MAX as u128 || h > u32::MAX as u128 {
        assert(!canvas_fits(n as int, cell_width as int, cell_height as int)) by {
            let s = side as int;
            assert(is_ceil_sqrt(n as int, s));
            assert(s * cell_width == w);
        }
        return None;
    }
    assert(canvas_fits(n as int, cell_width as int, cell_height as int)) by {
        assert forall|s: int| is_ceil_sqrt(n as int, s) implies #[trigger] (s * cell_width) <= u32::MAX
            && s * cell_height <= u32::MAX by {
            lemma_ceil_sqrt_unique(n as int, s, side as int);
        }
    }
    Some(GridGeometry {
        side,
        cell_width,
        cell_height,
        canvas_width: w as u32,
        canvas_height: h as u32,
    })
}

/// The `(row, column)` cell of the catalog entry at `index` in a grid of `side` cells per side:
/// the column is `index mod side`, the row is `index / side` rounded to nearest, halves up.
pub fn cell_position(index: u64, side: u64) -> (r: (u64, u64))
    requires
        side > 0,
    ensures
        r.0 == round_quotient(index as int, side as int),
        (2 * r.0 - 1) * side <= 2 * index < (2 * r.0 + 1) * side,
        r.1 == index % side,
{
    let t: u128 = 2 * (index as u128) + side as u128;
    let d: u128 = 2 * (side as u128);
    let row: u128 = t / d;
    proof {
        let q = row as int;
        let m = (t % d) as int;
        vstd::arithmetic::div_mod::lemma_fundamental_div_mod(t as int, d as int);
        assert(t == d * q + m);
        assert(0 <= m < d);
        assert((2 * q - 1) * side <= 2 * index < (2 * q + 1) * side) by (nonlinear_arith)
            requires t == d * q + m, 0 <= m < d, t == 2 * index + side, d == 2 * side;
        assert(q <= index) by (nonlinear_arith)
            requires (2 * q - 1) * side <= 2 * index, side >= 1, index >= 0, q >= 0;
    }
    (row as u64, index % side)
}

/// Distinct catalog indices land in distinct cells.
pub proof fn lemma_cell_position_injective(i: int, j: int, side: int)
    requires
        side > 0,
        0 <= i,
        0 <= j,
        i != j,
    ensures
        (round_quotient(i, side), i % side) != (round_quotient(j, side), j % side),
{
    let ri = round_quotient(i, side);
    let rj = round_quotient(j, side);
    if ri == rj && i % side == j % side {
        vstd::arithmetic::div_mod::lemma_fundamental_div_mod(2 * i + side, 2 * side);
        vstd::arithmetic::div_mod::lemma_fundamental_div_mod(2 * j + side, 2 * side);
        vstd::arithmetic::div_mod::lemma_fundamental_div_mod(i, side);
        vstd::arithmetic::div_mod::lemma_fundamental_div_mod(j, side);
        let mi = (2 * i + side) % (2 * side);
        let mj = (2 * j + side) % (2 * side);
        assert(2 * i - 2 * j == mi - mj) by (nonlinear_arith)
            requires
                2 * i + side == (2 * side) * ri + mi,
                2 * j + side == (2 * side) * rj + mj,
                ri == rj;
        let qi = i / side;
        let qj = j / side;
        assert(i - j == side * (qi - qj)) by (nonlinear_arith)
            requires i == side * qi + i % side, j == side * qj + j % side, i % side == j % side;
        assert(false) by (nonlinear_arith)
            requires
                i - j == side * (qi - qj),
                -2 * side < 2 * i - 2 * j < 2 * side,
                i != j,
                side > 0;
    }
}

} // verus!
