//! Cell selections of the SmoothLife grid: the blob painted by a click and
//! the seeded noise of the randomize action.
//!
//! The grid is `GRID_W x GRID_H` cells in row-major order and wraps around
//! at its edges (a torus).
use vstd::prelude::*;
use vstd::arithmetic::div_mod::{
    lemma_fundamental_div_mod,
    lemma_fundamental_div_mod_converse,
};

verus! {

/// Grid dimensions for the simulation
pub const GRID_W: usize = 256;

pub const GRID_H: usize = 256;

pub const N: usize = GRID_W * GRID_H;

/// The flat index of the cell `(gx + dx, gy + dy)` on the torus.
pub open spec fn wrapped_index(gx: int, gy: int, dx: int, dy: int) -> int {
    ((gy + dy) % (GRID_H as int)) * (GRID_W as int) + (gx + dx) % (GRID_W as int)
}

/// `(dx, dy)` is an offset of the painted disc of radius `r`: within the
/// square `[-r, r]^2` and at distance at most `r` from its centre.
pub open spec fn in_paint_disc(dx: int, dy: int, r: int) -> bool {
    &&& -r <= dx <= r
    &&& -r <= dy <= r
    &&& dx * dx + dy * dy <= r * r
}

/// `v * v`, for `|v| <= 32767`.
fn square(v: i64) -> (s: i64)
    requires
        -32767 <= v <= 32767,
    ensures
        s == v * v,
        0 <= s <= 32767 * 32767,
{
    proof {
        assert(0 <= v * v <= 32767 * 32767) by (nonlinear_arith)
            requires
                -32767 <= v <= 32767,
        ;
    }
    v * v
}

/// `v mod 256` (Euclidean), computed from `v > -32768`.
fn wrap256(v: i64) -> (w: usize)
    requires
        -32768 <= v <= 0x7fff_0000,
    ensures
        w == v % 256,
        w < 256,
{
    let u = (v + 32768) as u64;
    proof {
        lemma_fundamental_div_mod(v as int, 256);
        lemma_fundamental_div_mod_converse(u as int, 256, v as int / 256 + 128, v as int % 256);
    }
    (u % 256) as usize
}

/// Offset `t` of the square `[-r, r]^2`, in row-major order.
pub open spec fn paint_offset(r: int, t: int) -> (int, int) {
    (-r + t % (2 * r + 1), -r + t / (2 * r + 1))
}

/// The painted indices among the first `t` offsets of the square.
pub open spec fn paint_cells(gx: int, gy: int, r: int, t: nat) -> Seq<usize>
    decreases t,
{
    if t == 0 {
        Seq::empty()
    } else {
        let o = paint_offset(r, t - 1);
        if o.0 * o.0 + o.1 * o.1 <= r * r {
            paint_cells(gx, gy, r, (t - 1) as nat).push(wrapped_index(gx, gy, o.0, o.1) as usize)
        } else {
            paint_cells(gx, gy, r, (t - 1) as nat)
        }
    }
}

/// Offset `t + 1` of the square extends the painted cells by `(dx, dy)` when it is in the disc.
proof fn lemma_paint_step(gx: int, gy: int, r: int, t: int, dx: int, dy: int)
    requires
        r >= 0,
        -r <= dx <= r,
        -r <= dy <= r,
        t == (dy + r) * (2 * r + 1) + dx + r,
    ensures
        t >= 0,
        paint_cells(gx, gy, r, (t + 1) as nat) == if dx * dx + dy * dy <= r * r {
            paint_cells(gx, gy, r, t as nat).push(wrapped_index(gx, gy, dx, dy) as usize)
        } else {
            paint_cells(gx, gy, r, t as nat)
        },
{
    assert(t >= 0) by (nonlinear_arith)
        requires
            r >= 0,
            dy + r >= 0,
            dx + r >= 0,
            t == (dy + r) * (2 * r + 1) + dx + r,
    ;
    lemma_fundamental_div_mod_converse(t, 2 * r + 1, dy + r, dx + r);
    assert(paint_offset(r, t) == (dx, dy));
}

/// The cells painted by a click at grid cell `(gx, gy)`: every cell whose
/// offset from `(gx, gy)` lies in the disc of radius `r`, wrapping at the
/// edges.  A negative radius paints nothing.
pub fn paint_disc(gx: usize, gy: usize, r: i32) -> (cells: Vec<usize>)
    requires
        gx < GRID_W,
        gy < GRID_H,
        r <= 32767,
    ensures
        cells@ == if r < 0 {
            Seq::<usize>::empty()
        } else {
            paint_cells(gx as int, gy as int, r as int, ((2 * r + 1) * (2 * r + 1)) as nat)
        },
        forall|i: int|
            0 <= i < cells@.len() ==> #[trigger] cells@[i] < N && exists|dx: int, dy: int|
                in_paint_disc(dx, dy, r as int) && cells@[i] == wrapped_index(
                    gx as int,
                    gy as int,
                    dx,
                    dy,
                ),
        forall|dx: int, dy: int|
            #![trigger in_paint_disc(dx, dy, r as int)]
            in_paint_disc(dx, dy, r as int) ==> cells@.contains(
                wrapped_index(gx as int, gy as int, dx, dy) as usize,
            ),
{
    let mut cells: Vec<usize> = Vec::new();
    if r < 0 {
        proof {
            assert forall|dx: int, dy: int|
                #![trigger in_paint_disc(dx, dy, r as int)]
                in_paint_disc(dx, dy, r as int) implies cells@.contains(
                wrapped_index(gx as int, gy as int, dx, dy) as usize,
            ) by {}
        }
        return cells;
    }
    let ghost ri = r as int;
    let mut dy: i32 = -r;
    assert((dy + ri) * (2 * ri + 1) == 0) by (nonlinear_arith)
        requires
            dy == -ri,
    ;
    assert(cells@ =~= paint_cells(gx as int, gy as int, ri, 0));
    while dy <= r
        invariant
            0 <= ri <= 32767,
            ri == r,
            -ri <= dy <= ri + 1,
            gx < GRID_W,
            gy < GRID_H,
            cells@ == paint_cells(gx as int, gy as int, ri, ((dy + ri) * (2 * ri + 1)) as nat),
            forall|i: int|
                0 <= i < cells@.len() ==> #[trigger] cells@[i] < N && exists|ex: int, ey: int|
                    in_paint_disc(ex, ey, ri) && cells@[i] == wrapped_index(
                        gx as int,
                        gy as int,
                        ex,
                        ey,
                    ),
            forall|ex: int, ey: int|
                #![trigger in_paint_disc(ex, ey, ri)]
                in_paint_disc(ex, ey, ri) && ey < dy ==> cells@.contains(
                    wrapped_index(gx as int, gy as int, ex, ey) as usize,
                ),
        decreases ri + 1 - dy,
    {
        let mut dx: i32 = -r;
        while dx <= r
            invariant
                0 <= ri <= 32767,
                ri == r,
                -ri <= dy <= ri,
                -ri <= dx <= ri + 1,
                gx < GRID_W,
                gy < GRID_H,
                cells@ == paint_cells(
                    gx as int,
                    gy as int,
                    ri,
                    ((dy + ri) * (2 * ri + 1) + dx + ri) as nat,
                ),
                forall|i: int|
                    0 <= i < cells@.len() ==> #[trigger] cells@[i] < N && exists|ex: int, ey: int|
                        in_paint_disc(ex, ey, ri) && cells@[i] == wrapped_index(
                            gx as int,
                            gy as int,
                            ex,
                            ey,
                        ),
                forall|ex: int, ey: int|
                    #![trigger in_paint_disc(ex, ey, ri)]
                    in_paint_disc(ex, ey, ri) && (ey < dy || (ey == dy && ex < dx))
                        ==> cells@.contains(wrapped_index(gx as int, gy as int, ex, ey) as usize),
            decreases ri + 1 - dx,
        {
            proof {
                lemma_paint_step(
                    gx as int,
                    gy as int,
                    ri,
                    (dy + ri) * (2 * ri + 1) + dx + ri,
                    dx as int,
                    dy as int,
                );
            }
            let ghost before = cells@;
            if square(dx as i64) + square(dy as i64) <= square(r as i64) {
                let nx = wrap256(gx as i64 + dx as i64);
                let ny = wrap256(gy as i64 + dy as i64);
                let k = ny * 256 + nx;
                cells.push(k);
                proof {
                    assert(in_paint_disc(dx as int, dy as int, ri));
                    assert(cells@[cells@.len() - 1] == k);
                    assert(k == wrapped_index(gx as int, gy as int, dx as int, dy as int));
                    assert forall|i: int| 0 <= i < cells@.len() implies #[trigger] cells@[i] < N
                        && exists|ex: int, ey: int|
                        in_paint_disc(ex, ey, ri) && cells@[i] == wrapped_index(
                            gx as int,
                            gy as int,
                            ex,
                            ey,
                        ) by {
                        if i < before.len() {
                            assert(cells@[i] == before[i]);
                        } else {
                            assert(in_paint_disc(dx as int, dy as int, ri) && cells@[i]
                                == wrapped_index(gx as int, gy as int, dx as int, dy as int));
                        }
                    }
                }
            }
            proof {
                assert forall|ex: int, ey: int|
                    #![trigger in_paint_disc(ex, ey, ri)]
                    in_paint_disc(ex, ey, ri) && (ey < dy || (ey == dy && ex < dx + 1))
                        implies cells@.contains(
                    wrapped_index(gx as int, gy as int, ex, ey) as usize,
                ) by {
                    if ey < dy || (ey == dy && ex < dx) {
                        let w = wrapped_index(gx as int, gy as int, ex, ey) as usize;
                        assert(before.contains(w));
                        let i = choose|i: int| 0 <= i < before.len() && before[i] == w;
                        assert(cells@[i] == w);
                    } else {
                        assert(ex == dx && ey == dy);
                        assert(cells@[cells@.len() - 1] == wrapped_index(
                            gx as int,
                            gy as int,
                            ex,
                            ey,
                        ) as usize);
                    }
                }
            }
            dx += 1;
        }
        proof {
            assert((dy + ri) * (2 * ri + 1) + (ri + 1) + ri == (dy + 1 + ri) * (2 * ri + 1))
                by (nonlinear_arith);
        }
        dy += 1;
    }
    proof {
        assert((ri + 1 + ri) * (2 * ri + 1) == (2 * r + 1) * (2 * r + 1)) by (nonlinear_arith)
            requires
                ri == r,
        ;
    }
    cells
}

// ---------------------------------------------------------------------------
// Discs about the grid centre
// ---------------------------------------------------------------------------

/// Cell `t` of the square `[128 - r, 128 + r)^2` about the grid centre, in
/// row-major order.
pub open spec fn square_cell(r: int, t: int) -> (int, int) {
    (128 - r + t % (2 * r), 128 - r + t / (2 * r))
}

/// Whether `(x, y)` lies strictly within distance `r` of the grid centre.
pub open spec fn in_centre_disc(r: int, x: int, y: int) -> bool {
    (x - 128) * (x - 128) + (y - 128) * (y - 128) < r * r
}

/// The flat indices of the disc among the first `t` cells of the square.
pub open spec fn disc_cells(r: int, t: nat) -> Seq<usize>
    decreases t,
{
    if t == 0 {
        Seq::empty()
    } else {
        let c = square_cell(r, t - 1);
        if in_centre_disc(r, c.0, c.1) {
            disc_cells(r, (t - 1) as nat).push((c.1 * 256 + c.0) as usize)
        } else {
            disc_cells(r, (t - 1) as nat)
        }
    }
}

/// The cells of the disc of radius `r` in the square, in row-major order.
pub open spec fn centre_disc_spec(r: int) -> Seq<usize> {
    disc_cells(r, (4 * r * r) as nat)
}

/// Cell `t + 1` of the square extends the disc cells by `(x, y)` when it is in the disc.
proof fn lemma_disc_step(r: int, t: int, x: int, y: int)
    requires
        1 <= r <= 128,
        128 - r <= x < 128 + r,
        128 - r <= y < 128 + r,
        t == (y - (128 - r)) * (2 * r) + x - (128 - r),
    ensures
        t >= 0,
        disc_cells(r, (t + 1) as nat) == if in_centre_disc(r, x, y) {
            disc_cells(r, t as nat).push((y * 256 + x) as usize)
        } else {
            disc_cells(r, t as nat)
        },
{
    assert(t >= 0) by (nonlinear_arith)
        requires
            r >= 1,
            y - (128 - r) >= 0,
            x - (128 - r) >= 0,
            t == (y - (128 - r)) * (2 * r) + x - (128 - r),
    ;
    lemma_fundamental_div_mod_converse(t, 2 * r, y - (128 - r), x - (128 - r));
    assert(square_cell(r, t) == (x, y));
}

/// Whether `(x, y)` lies in the square `[128 - r, 128 + r)^2` about the grid centre.
pub open spec fn in_centre_square(r: int, x: int, y: int) -> bool {
    &&& 128 - r <= x < 128 + r
    &&& 128 - r <= y < 128 + r
}

/// Whether `k` is the flat index of a cell strictly within distance `r` of
/// the grid centre.
pub open spec fn is_centre_cell(r: int, k: usize) -> bool {
    exists|x: int, y: int|
        #![trigger in_centre_disc(r, x, y)]
        in_centre_square(r, x, y) && in_centre_disc(r, x, y) && k == y * 256 + x
}

/// A point strictly within distance `r` of the centre lies in the square about it.
proof fn lemma_disc_in_square(r: int, x: int, y: int)
    requires
        r >= 1,
        in_centre_disc(r, x, y),
    ensures
        in_centre_square(r, x, y),
{
    let a = x - 128;
    let b = y - 128;
    assert(-r < a < r) by (nonlinear_arith)
        requires
            r >= 1,
            a * a + b * b < r * r,
    {
        assert(b * b >= 0);
        if a >= r {
            assert(a * a >= r * r);
        }
        if a <= -r {
            assert(a * a >= r * r);
        }
    }
    assert(-r < b < r) by (nonlinear_arith)
        requires
            r >= 1,
            a * a + b * b < r * r,
    {
        assert(a * a >= 0);
        if b >= r {
            assert(b * b >= r * r);
        }
        if b <= -r {
            assert(b * b >= r * r);
        }
    }
}

/// Cell `t` of the square lies in the square, for `t < 4 r^2`.
proof fn lemma_square_cell_in(r: int, t: int)
    requires
        1 <= r <= 128,
        0 <= t < 4 * r * r,
    ensures
        in_centre_square(r, square_cell(r, t).0, square_cell(r, t).1),
{
    let d = 2 * r;
    let q = t / d;
    let m = t % d;
    lemma_fundamental_div_mod(t, d);
    assert(4 * r * r == d * d) by (nonlinear_arith)
        requires
            d == 2 * r,
    ;
    assert(0 <= m < d);
    assert(0 <= q < d) by (nonlinear_arith)
        requires
            d >= 2,
            t == d * q + m,
            0 <= m < d,
            0 <= t < d * d,
    {
        if q < 0 {
            assert(d * q <= -d);
        }
        if q >= d {
            assert(d * q >= d * d);
        }
    }
}

/// Every entry of the disc cells is the index of a cell of the disc.
proof fn lemma_disc_cells_sound(r: int, t: nat)
    requires
        1 <= r <= 128,
        t <= 4 * r * r,
    ensures
        forall|i: int|
            0 <= i < disc_cells(r, t).len() ==> is_centre_cell(r, #[trigger] disc_cells(r, t)[i]),
    decreases t,
{
    if t > 0 {
        lemma_disc_cells_sound(r, (t - 1) as nat);
        let c = square_cell(r, t - 1);
        if in_centre_disc(r, c.0, c.1) {
            lemma_square_cell_in(r, t - 1);
            let prev = disc_cells(r, (t - 1) as nat);
            assert forall|i: int|
                0 <= i < disc_cells(r, t).len() implies is_centre_cell(
                r,
                #[trigger] disc_cells(r, t)[i],
            ) by {
                if i < prev.len() {
                    assert(disc_cells(r, t)[i] == prev[i]);
                } else {
                    assert(disc_cells(r, t)[i] == (c.1 * 256 + c.0) as usize);
                    assert(in_centre_disc(r, c.0, c.1));
                }
            }
        } else {
            assert(disc_cells(r, t) == disc_cells(r, (t - 1) as nat));
        }
    }
}

/// Every cell of the disc among the first `t` cells of the square is among
/// the disc cells.
proof fn lemma_disc_cells_complete(r: int, t: nat)
    requires
        1 <= r <= 128,
    ensures
        forall|j: int|
            0 <= j < t && in_centre_disc(r, (#[trigger] square_cell(r, j)).0, square_cell(r, j).1)
                ==> disc_cells(r, t).contains(
                (square_cell(r, j).1 * 256 + square_cell(r, j).0) as usize,
            ),
    decreases t,
{
    if t > 0 {
        lemma_disc_cells_complete(r, (t - 1) as nat);
        let prev = disc_cells(r, (t - 1) as nat);
        let cur = disc_cells(r, t);
        assert forall|j: int|
            0 <= j < t && in_centre_disc(r, (#[trigger] square_cell(r, j)).0, square_cell(r, j).1)
                implies cur.contains((square_cell(r, j).1 * 256 + square_cell(r, j).0) as usize) by {
            let k = (square_cell(r, j).1 * 256 + square_cell(r, j).0) as usize;
            if j < t - 1 {
                assert(prev.contains(k));
                let i = choose|i: int| 0 <= i < prev.len() && prev[i] == k;
                assert(cur[i] == k);
            } else {
                assert(cur[cur.len() - 1] == k);
            }
        }
    }
}

/// The cells strictly within distance `r` of the grid centre `(128, 128)`,
/// scanning the square `[128 - r, 128 + r)^2` row by row.
pub fn centre_disc(r: usize) -> (cells: Vec<usize>)
    requires
        1 <= r <= 128,
    ensures
        cells@ == centre_disc_spec(r as int),
        forall|i: int| 0 <= i < cells@.len() ==> is_centre_cell(r as int, #[trigger] cells@[i]),
        forall|x: int, y: int|
            #[trigger] in_centre_disc(r as int, x, y) ==> cells@.contains((y * 256 + x) as usize),
{
    let mut cells: Vec<usize> = Vec::new();
    let lo = 128 - r;
    let hi = 128 + r;
    let side = 2 * r;
    let mut y: usize = lo;
    assert((y - lo) * side == 0) by (nonlinear_arith)
        requires
            y == lo,
    ;
    assert(cells@ =~= disc_cells(r as int, 0));
    while y < hi
        invariant
            1 <= r <= 128,
            lo == 128 - r,
            hi == 128 + r,
            side == 2 * r,
            lo <= y <= hi,
            cells@ == disc_cells(r as int, ((y - lo) * side) as nat),
        decreases hi - y,
    {
        let mut x: usize = lo;
        while x < hi
            invariant
                1 <= r <= 128,
                lo == 128 - r,
                hi == 128 + r,
                side == 2 * r,
                lo <= y < hi,
                lo <= x <= hi,
                cells@ == disc_cells(r as int, ((y - lo) * side + x - lo) as nat),
            decreases hi - x,
        {
            proof {
                lemma_disc_step(r as int, ((y - lo) * side + x - lo) as int, x as int, y as int);
            }
            let dx: i64 = x as i64 - 128;
            let dy: i64 = y as i64 - 128;
            if square(dx) + square(dy) < square(r as i64) {
                cells.push(y * 256 + x);
            }
            x += 1;
        }
        proof {
            assert((y - lo) * side + hi - lo == (y + 1 - lo) * side) by (nonlinear_arith)
                requires
                    hi - lo == side,
            ;
        }
        y += 1;
    }
    proof {
        assert((hi - lo) * side == 4 * r * r) by (nonlinear_arith)
            requires
                hi - lo == side,
                side == 2 * r,
        ;
        let ri = r as int;
        let t = (4 * ri * ri) as nat;
        lemma_disc_cells_sound(ri, t);
        lemma_disc_cells_complete(ri, t);
        assert forall|x: int, y: int|
            #[trigger] in_centre_disc(ri, x, y) implies cells@.contains((y * 256 + x) as usize) by {
            lemma_disc_in_square(ri, x, y);
            let j = (y - (128 - ri)) * (2 * ri) + x - (128 - ri);
            lemma_disc_step(ri, j, x, y);
            assert(j < 4 * ri * ri) by (nonlinear_arith)
                requires
                    1 <= ri,
                    0 <= y - (128 - ri) < 2 * ri,
                    0 <= x - (128 - ri) < 2 * ri,
                    j == (y - (128 - ri)) * (2 * ri) + x - (128 - ri),
            {
                assert((y - (128 - ri)) * (2 * ri) <= (2 * ri - 1) * (2 * ri));
            }
            lemma_fundamental_div_mod_converse(j, 2 * ri, y - (128 - ri), x - (128 - ri));
            assert(square_cell(ri, j) == (x, y));
        }
    }
    cells
}

// ---------------------------------------------------------------------------
// Seeded noise
// ---------------------------------------------------------------------------

/// Radius of the randomized disc about the grid centre.
pub const NOISE_RADIUS: usize = 30;

/// One step of the linear congruential generator.
pub open spec fn lcg_next(s: u64) -> u64 {
    s.wrapping_mul(6364136223846793005u64).wrapping_add(1u64)
}

/// The generator's state after `n` steps from the seed 42.
pub open spec fn lcg_state(n: nat) -> u64
    decreases n,
{
    if n == 0 {
        42
    } else {
        lcg_next(lcg_state((n - 1) as nat))
    }
}

/// The randomize action: the cells of the disc of radius 30 about the grid
/// centre, in row-major order, each with a value drawn from the generator
/// seeded with 42: the top 31 bits of the generator's state after one more
/// step per cell.  (The cell's new state is that value divided by `2^31`.)
pub fn noise_disc() -> (v: Vec<(usize, u32)>)
    ensures
        v@.len() == centre_disc_spec(NOISE_RADIUS as int).len(),
        forall|i: int|
            0 <= i < v@.len() ==> #[trigger] v@[i] == (
                centre_disc_spec(NOISE_RADIUS as int)[i],
                (lcg_state((i + 1) as nat) >> 33u64) as u32,
            ),
        forall|i: int|
            0 <= i < v@.len() ==> is_centre_cell(NOISE_RADIUS as int, #[trigger] v@[i].0) && v@[i].1
                < 0x8000_0000,
        forall|x: int, y: int|
            #[trigger] in_centre_disc(NOISE_RADIUS as int, x, y) ==> exists|i: int|
                0 <= i < v@.len() && #[trigger] v@[i].0 == (y * 256 + x) as usize,
{
    let cells = centre_disc(NOISE_RADIUS);
    let mut v: Vec<(usize, u32)> = Vec::new();
    let mut seed: u64 = 42;
    let mut i: usize = 0;
    while i < cells.len()
        invariant
            cells@ == centre_disc_spec(NOISE_RADIUS as int),
            i <= cells@.len(),
            v@.len() == i,
            seed == lcg_state(i as nat),
            forall|j: int|
                0 <= j < i ==> #[trigger] v@[j] == (
                    cells@[j],
                    (lcg_state((j + 1) as nat) >> 33u64) as u32,
                ) && v@[j].1 < 0x8000_0000,
        decreases cells@.len() - i,
    {
        seed = seed.wrapping_mul(6364136223846793005).wrapping_add(1);
        let value = (seed >> 33) as u32;
        assert(value < 0x8000_0000) by (bit_vector)
            requires
                value == (seed >> 33) as u32,
        ;
        v.push((cells[i], value));
        i += 1;
    }
    proof {
        assert forall|x: int, y: int|
            #[trigger] in_centre_disc(NOISE_RADIUS as int, x, y) implies exists|i: int|
                0 <= i < v@.len() && #[trigger] v@[i].0 == (y * 256 + x) as usize by {
            assert(cells@.contains((y * 256 + x) as usize));
            let i = choose|i: int| 0 <= i < cells@.len() && cells@[i] == (y * 256 + x) as usize;
            assert(v@[i].0 == cells@[i]);
        }
    }
    v
}

} // verus!
