//! Terrain noise: an integer hash of grid corners, refined by repeated
//! averaging (a diamond-square scheme without random displacement).
use vstd::prelude::*;

verus! {

/// Width of a chunk in tiles.
pub const CW: i32 = 128;

/// Width of the refinement grid: three chunks and one closing edge.
pub const BW: i32 = 385;

/// Number of grid points.
pub const GRID_LEN: usize = 148225;

/// One round of the mixing step of the hash.
pub open spec fn mix_spec(h: u32) -> u32 {
    vstd::wrapping::u32_specs::wrapping_mul((h >> 16u32) ^ h, 0x45d9f3bu32)
}

/// The integer hash of a world coordinate pair and a seed.
pub open spec fn coord_hash_spec(x: i32, y: i32, m: u32) -> u32 {
    let h0 = (x as u32) ^ ((y as u32) << 16u32) ^ ((y as u32) >> 16u32) ^ m;
    let h2 = mix_spec(mix_spec(h0));
    (h2 >> 16u32) ^ h2
}

/// Rust's `/` on signed integers: the quotient rounded toward zero.
pub open spec fn trunc_div(a: int, d: int) -> int {
    if a >= 0 {
        a / d
    } else {
        -((-a) / d)
    }
}

/// The sum of the four quarters (each rounded toward zero).
pub open spec fn avg4(a: int, b: int, c: int, d: int) -> int {
    trunc_div(a, 4) + trunc_div(b, 4) + trunc_div(c, 4) + trunc_div(d, 4)
}

/// Index of grid point `(x, y)` in the row-major grid.
pub open spec fn gidx(x: int, y: int) -> int {
    y * 385 + x
}

pub open spec fn in_grid(x: int, y: int) -> bool {
    0 <= x <= 384 && 0 <= y <= 384
}

/// The spacing of the finest lattice that holds the point: the greatest
/// power of two (at most 128) that divides both coordinates.
pub open spec fn step_of(x: int, y: int) -> int {
    if x % 128 == 0 && y % 128 == 0 {
        128
    } else if x % 64 == 0 && y % 64 == 0 {
        64
    } else if x % 32 == 0 && y % 32 == 0 {
        32
    } else if x % 16 == 0 && y % 16 == 0 {
        16
    } else if x % 8 == 0 && y % 8 == 0 {
        8
    } else if x % 4 == 0 && y % 4 == 0 {
        4
    } else if x % 2 == 0 && y % 2 == 0 {
        2
    } else {
        1
    }
}

/// How a refined point is computed: 0 from its diagonal neighbours (both
/// coordinates odd multiples of the step), 1 from its orthogonal neighbours
/// with `y` an odd multiple, 2 with `x` an odd multiple. Lattice corners are 0.
pub open spec fn kind_of(x: int, y: int) -> int {
    let p = step_of(x, y);
    if p == 128 {
        0
    } else if x % (2 * p) == p && y % (2 * p) == p {
        0
    } else if y % (2 * p) == p {
        1
    } else {
        2
    }
}

/// Order in which the points are computed: coarser first, and within one
/// step, diagonal points before orthogonal ones.
pub open spec fn rank_of(x: int, y: int) -> int {
    let p = step_of(x, y);
    let r = if p == 128 {
        0
    } else if p == 64 {
        2
    } else if p == 32 {
        4
    } else if p == 16 {
        6
    } else if p == 8 {
        8
    } else if p == 4 {
        10
    } else if p == 2 {
        12
    } else {
        14
    };
    if p == 128 {
        0
    } else if kind_of(x, y) == 0 {
        r
    } else {
        r + 1
    }
}

/// The hashed value of a lattice corner of the grid whose origin is the
/// world point `(cx, cy)`.
pub open spec fn corner_value(cx: i32, cy: i32, seed: u32, x: int, y: int) -> int {
    trunc_div((coord_hash_spec((x + cx) as i32, (y + cy) as i32, seed) as i32) as int, 16)
}

/// The value of grid point `(x, y)`: corners are hashed; a refined point
/// inside the band where it is computed is the quarter-sum of its four
/// neighbours at distance `step_of`; every other point is 0.
pub open spec fn grid(cx: i32, cy: i32, seed: u32, x: int, y: int) -> int
    decreases rank_of(x, y),
{
    if !in_grid(x, y) {
        0
    } else {
        let p = step_of(x, y);
        if p == 128 {
            corner_value(cx, cy, seed, x, y)
        } else if kind_of(x, y) == 0 {
            if 128 - p <= x <= 256 + p && 128 - p <= y <= 256 + p {
                proof {
                    lemma_neighbours(p, x, y);
                }
                avg4(
                    grid(cx, cy, seed, x - p, y - p),
                    grid(cx, cy, seed, x - p, y + p),
                    grid(cx, cy, seed, x + p, y - p),
                    grid(cx, cy, seed, x + p, y + p),
                )
            } else {
                0
            }
        } else if kind_of(x, y) == 1 {
            if 128 - p <= y <= 256 + p && 128 <= x <= 256 {
                proof {
                    lemma_neighbours(p, x, y);
                }
                avg4(
                    grid(cx, cy, seed, x - p, y),
                    grid(cx, cy, seed, x, y + p),
                    grid(cx, cy, seed, x, y - p),
                    grid(cx, cy, seed, x + p, y),
                )
            } else {
                0
            }
        } else {
            if 128 <= y <= 256 && 128 - p <= x <= 256 + p {
                proof {
                    lemma_neighbours(p, x, y);
                }
                avg4(
                    grid(cx, cy, seed, x - p, y),
                    grid(cx, cy, seed, x, y + p),
                    grid(cx, cy, seed, x, y - p),
                    grid(cx, cy, seed, x + p, y),
                )
            } else {
                0
            }
        }
    }
}

pub open spec fn is_step(l: int) -> bool {
    l == 64 || l == 32 || l == 16 || l == 8 || l == 4 || l == 2 || l == 1
}

pub open spec fn dv(q: int, x: int, y: int) -> bool {
    x % q == 0 && y % q == 0
}

pub open spec fn rank_at(p: int) -> int {
    if p == 128 {
        0
    } else if p == 64 {
        2
    } else if p == 32 {
        4
    } else if p == 16 {
        6
    } else if p == 8 {
        8
    } else if p == 4 {
        10
    } else if p == 2 {
        12
    } else {
        14
    }
}

pub proof fn lemma_dv_chain(x: int)
    ensures
        x % 128 == 0 ==> x % 64 == 0,
        x % 64 == 0 ==> x % 32 == 0,
        x % 32 == 0 ==> x % 16 == 0,
        x % 16 == 0 ==> x % 8 == 0,
        x % 8 == 0 ==> x % 4 == 0,
        x % 4 == 0 ==> x % 2 == 0,
        x % 2 == 0 ==> x % 1 == 0,
        x % 1 == 0,
{
    vstd::arithmetic::div_mod::lemma_mod_mod(x, 64, 2);
    assert((x % 128) % 64 == x % 64);
    vstd::arithmetic::div_mod::lemma_mod_mod(x, 32, 2);
    assert((x % 64) % 32 == x % 32);
    vstd::arithmetic::div_mod::lemma_mod_mod(x, 16, 2);
    assert((x % 32) % 16 == x % 16);
    vstd::arithmetic::div_mod::lemma_mod_mod(x, 8, 2);
    assert((x % 16) % 8 == x % 8);
    vstd::arithmetic::div_mod::lemma_mod_mod(x, 4, 2);
    assert((x % 8) % 4 == x % 4);
    vstd::arithmetic::div_mod::lemma_mod_mod(x, 2, 2);
    assert((x % 4) % 2 == x % 2);
    vstd::arithmetic::div_mod::lemma_mod_mod(x, 1, 2);
    assert((x % 2) % 1 == x % 1);
}

proof fn lemma_residues_64(x: int)
    ensures
        x % 64 == 0 ==> (x % 128 == 0 || x % 128 == 64),
        x % 128 == 0 ==> x % 64 == 0,
        x % 128 == 64 ==> x % 64 == 0,
        x % 128 == 64 ==> (x + 64) % 128 == 0 && (x - 64) % 128 == 0,
        x % 128 == 0 ==> (x + 64) % 128 == 64 && (x - 64) % 128 == 64,
        (x + 128) % 128 == x % 128,
        128int % 128 == 0,
        256int % 128 == 0,
{
}

proof fn lemma_step_64(x: int, y: int)
    ensures
        step_of(x, y) == 64 <==> (x % 64 == 0 && y % 64 == 0 && !(x % 128 == 0 && y % 128 == 0)),
        (x % 128 == 0 && y % 128 == 0) ==> step_of(x, y) >= 128,
{
    lemma_dv_chain(x);
    lemma_dv_chain(y);
}

proof fn lemma_residues_32(x: int)
    ensures
        x % 32 == 0 ==> (x % 64 == 0 || x % 64 == 32),
        x % 64 == 0 ==> x % 32 == 0,
        x % 64 == 32 ==> x % 32 == 0,
        x % 64 == 32 ==> (x + 32) % 64 == 0 && (x - 32) % 64 == 0,
        x % 64 == 0 ==> (x + 32) % 64 == 32 && (x - 32) % 64 == 32,
        (x + 64) % 64 == x % 64,
        128int % 64 == 0,
        256int % 64 == 0,
{
}

proof fn lemma_step_32(x: int, y: int)
    ensures
        step_of(x, y) == 32 <==> (x % 32 == 0 && y % 32 == 0 && !(x % 64 == 0 && y % 64 == 0)),
        (x % 64 == 0 && y % 64 == 0) ==> step_of(x, y) >= 64,
{
    lemma_dv_chain(x);
    lemma_dv_chain(y);
}

proof fn lemma_residues_16(x: int)
    ensures
        x % 16 == 0 ==> (x % 32 == 0 || x % 32 == 16),
        x % 32 == 0 ==> x % 16 == 0,
        x % 32 == 16 ==> x % 16 == 0,
        x % 32 == 16 ==> (x + 16) % 32 == 0 && (x - 16) % 32 == 0,
        x % 32 == 0 ==> (x + 16) % 32 == 16 && (x - 16) % 32 == 16,
        (x + 32) % 32 == x % 32,
        128int % 32 == 0,
        256int % 32 == 0,
{
}

proof fn lemma_step_16(x: int, y: int)
    ensures
        step_of(x, y) == 16 <==> (x % 16 == 0 && y % 16 == 0 && !(x % 32 == 0 && y % 32 == 0)),
        (x % 32 == 0 && y % 32 == 0) ==> step_of(x, y) >= 32,
{
    lemma_dv_chain(x);
    lemma_dv_chain(y);
}

proof fn lemma_residues_8(x: int)
    ensures
        x % 8 == 0 ==> (x % 16 == 0 || x % 16 == 8),
        x % 16 == 0 ==> x % 8 == 0,
        x % 16 == 8 ==> x % 8 == 0,
        x % 16 == 8 ==> (x + 8) % 16 == 0 && (x - 8) % 16 == 0,
        x % 16 == 0 ==> (x + 8) % 16 == 8 && (x - 8) % 16 == 8,
        (x + 16) % 16 == x % 16,
        128int % 16 == 0,
        256int % 16 == 0,
{
}

proof fn lemma_step_8(x: int, y: int)
    ensures
        step_of(x, y) == 8 <==> (x % 8 == 0 && y % 8 == 0 && !(x % 16 == 0 && y % 16 == 0)),
        (x % 16 == 0 && y % 16 == 0) ==> step_of(x, y) >= 16,
{
    lemma_dv_chain(x);
    lemma_dv_chain(y);
}

proof fn lemma_residues_4(x: int)
    ensures
        x % 4 == 0 ==> (x % 8 == 0 || x % 8 == 4),
        x % 8 == 0 ==> x % 4 == 0,
        x % 8 == 4 ==> x % 4 == 0,
        x % 8 == 4 ==> (x + 4) % 8 == 0 && (x - 4) % 8 == 0,
        x % 8 == 0 ==> (x + 4) % 8 == 4 && (x - 4) % 8 == 4,
        (x + 8) % 8 == x % 8,
        128int % 8 == 0,
        256int % 8 == 0,
{
}

proof fn lemma_step_4(x: int, y: int)
    ensures
        step_of(x, y) == 4 <==> (x % 4 == 0 && y % 4 == 0 && !(x % 8 == 0 && y % 8 == 0)),
        (x % 8 == 0 && y % 8 == 0) ==> step_of(x, y) >= 8,
{
    lemma_dv_chain(x);
    lemma_dv_chain(y);
}

proof fn lemma_residues_2(x: int)
    ensures
        x % 2 == 0 ==> (x % 4 == 0 || x % 4 == 2),
        x % 4 == 0 ==> x % 2 == 0,
        x % 4 == 2 ==> x % 2 == 0,
        x % 4 == 2 ==> (x + 2) % 4 == 0 && (x - 2) % 4 == 0,
        x % 4 == 0 ==> (x + 2) % 4 == 2 && (x - 2) % 4 == 2,
        (x + 4) % 4 == x % 4,
        128int % 4 == 0,
        256int % 4 == 0,
{
}

proof fn lemma_step_2(x: int, y: int)
    ensures
        step_of(x, y) == 2 <==> (x % 2 == 0 && y % 2 == 0 && !(x % 4 == 0 && y % 4 == 0)),
        (x % 4 == 0 && y % 4 == 0) ==> step_of(x, y) >= 4,
{
    lemma_dv_chain(x);
    lemma_dv_chain(y);
}

proof fn lemma_residues_1(x: int)
    ensures
        x % 1 == 0 ==> (x % 2 == 0 || x % 2 == 1),
        x % 2 == 0 ==> x % 1 == 0,
        x % 2 == 1 ==> x % 1 == 0,
        x % 2 == 1 ==> (x + 1) % 2 == 0 && (x - 1) % 2 == 0,
        x % 2 == 0 ==> (x + 1) % 2 == 1 && (x - 1) % 2 == 1,
        (x + 2) % 2 == x % 2,
        128int % 2 == 0,
        256int % 2 == 0,
{
}

proof fn lemma_step_1(x: int, y: int)
    ensures
        step_of(x, y) == 1 <==> (x % 1 == 0 && y % 1 == 0 && !(x % 2 == 0 && y % 2 == 0)),
        (x % 2 == 0 && y % 2 == 0) ==> step_of(x, y) >= 2,
{
    lemma_dv_chain(x);
    lemma_dv_chain(y);
}

/// Residues modulo twice a step.
pub proof fn lemma_residues(p: int, x: int)
    requires
        is_step(p),
    ensures
        x % p == 0 ==> (x % (2 * p) == 0 || x % (2 * p) == p),
        x % (2 * p) == 0 ==> x % p == 0,
        x % (2 * p) == p ==> x % p == 0,
        x % (2 * p) == p ==> (x + p) % (2 * p) == 0 && (x - p) % (2 * p) == 0,
        x % (2 * p) == 0 ==> (x + p) % (2 * p) == p && (x - p) % (2 * p) == p,
        (x + 2 * p) % (2 * p) == x % (2 * p),
        128int % (2 * p) == 0,
        256int % (2 * p) == 0,
{
    if p == 64 {
        lemma_residues_64(x);
    } else if p == 32 {
        lemma_residues_32(x);
    } else if p == 16 {
        lemma_residues_16(x);
    } else if p == 8 {
        lemma_residues_8(x);
    } else if p == 4 {
        lemma_residues_4(x);
    } else if p == 2 {
        lemma_residues_2(x);
    } else {
        lemma_residues_1(x);
    }
}

/// The step of a point is `p` exactly when both coordinates are multiples
/// of `p` and not both multiples of `2p`.
pub proof fn lemma_step_exact(p: int, x: int, y: int)
    requires
        is_step(p),
    ensures
        step_of(x, y) == p <==> (dv(p, x, y) && !dv(2 * p, x, y)),
        dv(2 * p, x, y) ==> step_of(x, y) >= 2 * p,
        step_of(x, y) >= 2 * p ==> rank_of(x, y) <= rank_at(2 * p) + 1,
        rank_at(2 * p) + 1 < rank_at(p),
{
    if p == 64 {
        lemma_step_64(x, y);
    } else if p == 32 {
        lemma_step_32(x, y);
    } else if p == 16 {
        lemma_step_16(x, y);
    } else if p == 8 {
        lemma_step_8(x, y);
    } else if p == 4 {
        lemma_step_4(x, y);
    } else if p == 2 {
        lemma_step_2(x, y);
    } else {
        lemma_step_1(x, y);
    }
}

proof fn lemma_unique_64(a: int, b: int)
    ensures
        (a % 128 == b % 128 && a <= b < a + 128) ==> a == b,
{
}

proof fn lemma_unique_32(a: int, b: int)
    ensures
        (a % 64 == b % 64 && a <= b < a + 64) ==> a == b,
{
}

proof fn lemma_unique_16(a: int, b: int)
    ensures
        (a % 32 == b % 32 && a <= b < a + 32) ==> a == b,
{
}

proof fn lemma_unique_8(a: int, b: int)
    ensures
        (a % 16 == b % 16 && a <= b < a + 16) ==> a == b,
{
}

proof fn lemma_unique_4(a: int, b: int)
    ensures
        (a % 8 == b % 8 && a <= b < a + 8) ==> a == b,
{
}

proof fn lemma_unique_2(a: int, b: int)
    ensures
        (a % 4 == b % 4 && a <= b < a + 4) ==> a == b,
{
}

proof fn lemma_unique_1(a: int, b: int)
    ensures
        (a % 2 == b % 2 && a <= b < a + 2) ==> a == b,
{
}

/// Within one period of `2p` a residue occurs once.
pub proof fn lemma_unique(p: int, a: int, b: int)
    requires
        is_step(p),
    ensures
        (a % (2 * p) == b % (2 * p) && a <= b < a + 2 * p) ==> a == b,
{
    if p == 64 {
        lemma_unique_64(a, b);
    } else if p == 32 {
        lemma_unique_32(a, b);
    } else if p == 16 {
        lemma_unique_16(a, b);
    } else if p == 8 {
        lemma_unique_8(a, b);
    } else if p == 4 {
        lemma_unique_4(a, b);
    } else if p == 2 {
        lemma_unique_2(a, b);
    } else {
        lemma_unique_1(a, b);
    }
}

/// Facts about the neighbours that a refined point reads.
pub proof fn lemma_neighbours(p: int, x: int, y: int)
    requires
        in_grid(x, y),
        p == step_of(x, y),
        p < 128,
    ensures
        is_step(p),
        rank_of(x, y) == rank_at(p) + (if kind_of(x, y) == 0 { 0int } else { 1int }),
        kind_of(x, y) == 0 <==> (x % (2 * p) == p && y % (2 * p) == p),
        kind_of(x, y) == 1 <==> (x % (2 * p) == 0 && y % (2 * p) == p),
        kind_of(x, y) == 2 <==> (x % (2 * p) == p && y % (2 * p) == 0),
        kind_of(x, y) == 0 ==> {
            &&& step_of(x - p, y - p) > p
            &&& step_of(x - p, y + p) > p
            &&& step_of(x + p, y - p) > p
            &&& step_of(x + p, y + p) > p
            &&& rank_of(x - p, y - p) < rank_of(x, y)
            &&& rank_of(x - p, y + p) < rank_of(x, y)
            &&& rank_of(x + p, y - p) < rank_of(x, y)
            &&& rank_of(x + p, y + p) < rank_of(x, y)
        },
        kind_of(x, y) == 1 ==> {
            &&& step_of(x - p, y) == p && kind_of(x - p, y) == 0
            &&& step_of(x + p, y) == p && kind_of(x + p, y) == 0
            &&& step_of(x, y - p) > p
            &&& step_of(x, y + p) > p
            &&& rank_of(x - p, y) < rank_of(x, y)
            &&& rank_of(x + p, y) < rank_of(x, y)
            &&& rank_of(x, y - p) < rank_of(x, y)
            &&& rank_of(x, y + p) < rank_of(x, y)
        },
        kind_of(x, y) == 2 ==> {
            &&& step_of(x, y - p) == p && kind_of(x, y - p) == 0
            &&& step_of(x, y + p) == p && kind_of(x, y + p) == 0
            &&& step_of(x - p, y) > p
            &&& step_of(x + p, y) > p
            &&& rank_of(x - p, y) < rank_of(x, y)
            &&& rank_of(x + p, y) < rank_of(x, y)
            &&& rank_of(x, y - p) < rank_of(x, y)
            &&& rank_of(x, y + p) < rank_of(x, y)
        },
{
    lemma_dv_chain(x);
    lemma_dv_chain(y);
    assert(is_step(p));
    lemma_step_exact(p, x, y);
    lemma_residues(p, x);
    lemma_residues(p, y);
    lemma_residues(p, x + p);
    lemma_residues(p, x - p);
    lemma_residues(p, y + p);
    lemma_residues(p, y - p);
    lemma_step_exact(p, x - p, y - p);
    lemma_step_exact(p, x - p, y + p);
    lemma_step_exact(p, x + p, y - p);
    lemma_step_exact(p, x + p, y + p);
    lemma_step_exact(p, x - p, y);
    lemma_step_exact(p, x + p, y);
    lemma_step_exact(p, x, y - p);
    lemma_step_exact(p, x, y + p);
}


proof fn lemma_xorshift_inj(a: u32, b: u32)
    requires
        (a >> 16u32) ^ a == (b >> 16u32) ^ b,
    ensures
        a == b,
{
    assert((a >> 16u32) ^ a == (b >> 16u32) ^ b ==> a == b) by (bit_vector);
}

proof fn lemma_mul_inj(a: u32, b: u32)
    requires
        vstd::wrapping::u32_specs::wrapping_mul(a, 0x45d9f3bu32) == vstd::wrapping::u32_specs::wrapping_mul(b, 0x45d9f3bu32),
    ensures
        a == b,
{
    let pa = (a as int * 0x45d9f3b) % 0x1_0000_0000;
    let pb = (b as int * 0x45d9f3b) % 0x1_0000_0000;
    assert(0 <= pa < 0x1_0000_0000 && 0 <= pb < 0x1_0000_0000);
    assert(pa == pb);
    assert(a == b) by (bit_vector)
        requires
            (a * 0x45d9f3bu32) % 0x1_0000_0000 == (b * 0x45d9f3bu32) % 0x1_0000_0000,
    ;
}

/// The coordinate hash is one to one in each of its arguments with the
/// others fixed: its first step puts `x`, `y` rotated by 16 bits, and the
/// seed together by exclusive or, and each later step (a shift-and-xor,
/// a multiplication by an odd constant modulo 2^32) can be undone.
pub proof fn law_hash_injective(x1: i32, y1: i32, m1: u32, x2: i32, y2: i32, m2: u32)
    requires
        coord_hash_spec(x1, y1, m1) == coord_hash_spec(x2, y2, m2),
    ensures
        (y1 as u32) << 16u32 ^ (y1 as u32) >> 16u32 == ((y1 as u32) << 16u32 | (y1 as u32) >> 16u32),
        (x1 == x2 && y1 == y2) ==> m1 == m2,
        (x1 == x2 && m1 == m2) ==> y1 == y2,
        (y1 == y2 && m1 == m2) ==> x1 == x2,
{
    let u = y1 as u32;
    assert(u << 16u32 ^ u >> 16u32 == (u << 16u32 | u >> 16u32)) by (bit_vector);
    let h1 = (x1 as u32) ^ ((y1 as u32) << 16u32) ^ ((y1 as u32) >> 16u32) ^ m1;
    let h2 = (x2 as u32) ^ ((y2 as u32) << 16u32) ^ ((y2 as u32) >> 16u32) ^ m2;
    let g1 = mix_spec(mix_spec(h1));
    let g2 = mix_spec(mix_spec(h2));
    lemma_xorshift_inj(g1, g2);
    lemma_mul_inj((mix_spec(h1) >> 16u32) ^ mix_spec(h1), (mix_spec(h2) >> 16u32) ^ mix_spec(h2));
    lemma_xorshift_inj(mix_spec(h1), mix_spec(h2));
    lemma_mul_inj((h1 >> 16u32) ^ h1, (h2 >> 16u32) ^ h2);
    lemma_xorshift_inj(h1, h2);
    let (a1, a2) = (x1 as u32, x2 as u32);
    let (r1, r2) = ((y1 as u32) << 16u32 ^ (y1 as u32) >> 16u32, (y2 as u32) << 16u32 ^ (y2 as u32) >> 16u32);
    let (u1, u2) = (y1 as u32, y2 as u32);
    assert(h1 == a1 ^ r1 ^ m1) by (bit_vector)
        requires
            h1 == a1 ^ (u1 << 16u32) ^ (u1 >> 16u32) ^ m1,
            r1 == u1 << 16u32 ^ u1 >> 16u32,
    ;
    assert(h2 == a2 ^ r2 ^ m2) by (bit_vector)
        requires
            h2 == a2 ^ (u2 << 16u32) ^ (u2 >> 16u32) ^ m2,
            r2 == u2 << 16u32 ^ u2 >> 16u32,
    ;
    if x1 == x2 && y1 == y2 {
        assert(a1 ^ r1 ^ m1 == a1 ^ r1 ^ m2 ==> m1 == m2) by (bit_vector);
    }
    if x1 == x2 && m1 == m2 {
        assert(a1 ^ r1 ^ m1 == a1 ^ r2 ^ m1 ==> r1 == r2) by (bit_vector);
        assert(u1 << 16u32 ^ u1 >> 16u32 == u2 << 16u32 ^ u2 >> 16u32 ==> u1 == u2) by (bit_vector);
        assert(u1 == u2 ==> y1 == y2) by (bit_vector)
            requires
                u1 == y1 as u32,
                u2 == y2 as u32,
        ;
    }
    if y1 == y2 && m1 == m2 {
        assert(a1 ^ r1 ^ m1 == a2 ^ r1 ^ m1 ==> a1 == a2) by (bit_vector);
        assert(a1 == a2 ==> x1 == x2) by (bit_vector)
            requires
                a1 == x1 as u32,
                a2 == x2 as u32,
        ;
    }
}

/// The integer hash of a coordinate pair and a seed.
pub fn coord_hash(x: i32, y: i32, m: u32) -> (h: u32)
    ensures
        h == coord_hash_spec(x, y, m),
{
    let mut h: u32 = x as u32;
    h = h ^ ((y as u32) << 16u32);
    h = h ^ ((y as u32) >> 16u32);
    h = h ^ m;
    h = u32::wrapping_mul((h >> 16u32) ^ h, 0x45d9f3bu32);
    h = u32::wrapping_mul((h >> 16u32) ^ h, 0x45d9f3bu32);
    h = (h >> 16u32) ^ h;
    h
}

/// Residue of the `x` coordinate of the points that pass `ph` computes.
pub open spec fn xres(ph: int, l: int) -> int {
    if ph == 1 {
        0
    } else {
        l
    }
}

/// Residue of the `y` coordinate of the points that pass `ph` computes.
pub open spec fn yres(ph: int, l: int) -> int {
    if ph == 2 {
        0
    } else {
        l
    }
}

/// What the grid holds while the points of step `l` are being computed:
/// coarser points are final, finer points are still 0, and of the points of
/// step `l` those of an earlier pass, and those of pass `ph` before row
/// `yy`, column `xx`, are final.
pub open spec fn stage_val(
    cx: i32,
    cy: i32,
    seed: u32,
    l: int,
    ph: int,
    yy: int,
    xx: int,
    px: int,
    py: int,
) -> int {
    let p = step_of(px, py);
    if p > l {
        grid(cx, cy, seed, px, py)
    } else if p < l {
        0
    } else {
        let k = kind_of(px, py);
        if k < ph || (k == ph && (py < yy || (py == yy && px < xx))) {
            grid(cx, cy, seed, px, py)
        } else {
            0
        }
    }
}

pub open spec fn at_stage(
    data: Seq<i32>,
    cx: i32,
    cy: i32,
    seed: u32,
    l: int,
    ph: int,
    yy: int,
    xx: int,
) -> bool {
    &&& data.len() == GRID_LEN
    &&& forall|px: int, py: int|
        in_grid(px, py) ==> #[trigger] data[gidx(px, py)] == stage_val(cx, cy, seed, l, ph, yy, xx, px, py)
}

proof fn lemma_gidx(px: int, py: int)
    requires
        in_grid(px, py),
    ensures
        0 <= gidx(px, py) < GRID_LEN,
        forall|qx: int, qy: int| in_grid(qx, qy) && gidx(qx, qy) == gidx(px, py) ==> qx == px && qy == py,
{
}


/// The points of one step and pass, in the band where they are computed.
pub open spec fn band_y0(ph: int, l: int) -> int {
    if ph == 2 {
        128
    } else {
        128 - l
    }
}

pub open spec fn band_y1(ph: int, l: int) -> int {
    if ph == 2 {
        256
    } else {
        256 + l
    }
}

pub open spec fn band_x0(ph: int, l: int) -> int {
    if ph == 1 {
        128
    } else {
        128 - l
    }
}

pub open spec fn band_x1(ph: int, l: int) -> int {
    if ph == 1 {
        256
    } else {
        256 + l
    }
}

/// A point of step `l` computed in pass `ph` has the pass's residues, and
/// outside the pass's band its value is 0.
proof fn lemma_point_class(cx: i32, cy: i32, seed: u32, l: int, px: int, py: int)
    requires
        is_step(l),
        in_grid(px, py),
        step_of(px, py) == l,
    ensures
        0 <= kind_of(px, py) <= 2,
        px % (2 * l) == xres(kind_of(px, py), l),
        py % (2 * l) == yres(kind_of(px, py), l),
        !(band_x0(kind_of(px, py), l) <= px <= band_x1(kind_of(px, py), l) && band_y0(
            kind_of(px, py),
            l,
        ) <= py <= band_y1(kind_of(px, py), l)) ==> grid(cx, cy, seed, px, py) == 0,
{
    lemma_neighbours(l, px, py);
}

/// Computes one point from its four neighbours.
fn refine_point(data: &[i32; 148225], l: i32, ph: i32, x: i32, y: i32) -> (v: i32)
    requires
        is_step(l as int),
        0 <= ph <= 2,
        l <= x <= 384 - l,
        l <= y <= 384 - l,
    ensures
        ph == 0 ==> v == avg4(
            data@[gidx(x - l, y - l)] as int,
            data@[gidx(x - l, y + l)] as int,
            data@[gidx(x + l, y - l)] as int,
            data@[gidx(x + l, y + l)] as int,
        ),
        ph != 0 ==> v == avg4(
            data@[gidx(x - l, y as int)] as int,
            data@[gidx(x as int, y + l)] as int,
            data@[gidx(x as int, y - l)] as int,
            data@[gidx(x + l, y as int)] as int,
        ),
{
    if ph == 0 {
        let v0 = data[((y - l) * BW + x - l) as usize];
        let v1 = data[((y + l) * BW + x - l) as usize];
        let v2 = data[((y - l) * BW + x + l) as usize];
        let v3 = data[((y + l) * BW + x + l) as usize];
        v0 / 4 + v1 / 4 + v2 / 4 + v3 / 4
    } else {
        let v0 = data[((y) * BW + x - l) as usize];
        let v1 = data[((y + l) * BW + x) as usize];
        let v2 = data[((y - l) * BW + x) as usize];
        let v3 = data[((y) * BW + x + l) as usize];
        v0 / 4 + v1 / 4 + v2 / 4 + v3 / 4
    }
}


/// Computes, in row-major order, every point of step `l` of pass `ph`
/// inside the pass's band.
fn refine_pass(data: &mut [i32; 148225], cx: i32, cy: i32, seed: u32, l: i32, ph: i32)
    requires
        is_step(l as int),
        0 <= ph <= 2,
        at_stage(old(data)@, cx, cy, seed, l as int, ph as int, 0, 0),
    ensures
        at_stage(final(data)@, cx, cy, seed, l as int, ph + 1, 0, 0),
{
    let y0: i32 = if ph == 2 { CW } else { CW - l };
    let y1: i32 = if ph == 2 { 2 * CW } else { 2 * CW + l };
    let x0: i32 = if ph == 1 { CW } else { CW - l };
    let x1: i32 = if ph == 1 { 2 * CW } else { 2 * CW + l };
    proof {
        lemma_residues(l as int, 128);
        lemma_residues(l as int, 256);
    }
    let mut y = y0;
    while y <= y1
        invariant
            is_step(l as int),
            0 <= ph <= 2,
            y0 == band_y0(ph as int, l as int),
            y1 == band_y1(ph as int, l as int),
            x0 == band_x0(ph as int, l as int),
            x1 == band_x1(ph as int, l as int),
            (x0 as int) % (2 * (l as int)) == xres(ph as int, l as int),
            y0 <= y <= y1 + 2 * l,
            (y as int) % (2 * (l as int)) == yres(ph as int, l as int),
            at_stage(data@, cx, cy, seed, l as int, ph as int, y as int, 0),
        decreases y1 + 2 * l - y,
    {
        let mut x = x0;
        while x <= x1
            invariant
                is_step(l as int),
                0 <= ph <= 2,
                y0 == band_y0(ph as int, l as int),
                y1 == band_y1(ph as int, l as int),
                x0 == band_x0(ph as int, l as int),
                x1 == band_x1(ph as int, l as int),
                y0 <= y <= y1,
                (y as int) % (2 * (l as int)) == yres(ph as int, l as int),
                x0 <= x <= x1 + 2 * l,
                (x as int) % (2 * (l as int)) == xres(ph as int, l as int),
                at_stage(data@, cx, cy, seed, l as int, ph as int, y as int, x as int),
            decreases x1 + 2 * l - x,
        {
            let ghost before = data@;
            let v = refine_point(data, l, ph, x, y);
            proof {
                let (xi, yi, li) = (x as int, y as int, l as int);
                lemma_residues(li, xi);
                lemma_residues(li, yi);
                lemma_step_exact(li, xi, yi);
                lemma_neighbours(li, xi, yi);
                assert(step_of(xi, yi) == li);
                assert(kind_of(xi, yi) == ph);
                lemma_gidx(xi - li, yi - li);
                lemma_gidx(xi - li, yi + li);
                lemma_gidx(xi + li, yi - li);
                lemma_gidx(xi + li, yi + li);
                lemma_gidx(xi - li, yi);
                lemma_gidx(xi + li, yi);
                lemma_gidx(xi, yi - li);
                lemma_gidx(xi, yi + li);
                if ph == 0 {
                    assert(before[gidx(xi - li, yi - li)] == grid(cx, cy, seed, xi - li, yi - li));
                    assert(before[gidx(xi - li, yi + li)] == grid(cx, cy, seed, xi - li, yi + li));
                    assert(before[gidx(xi + li, yi - li)] == grid(cx, cy, seed, xi + li, yi - li));
                    assert(before[gidx(xi + li, yi + li)] == grid(cx, cy, seed, xi + li, yi + li));
                } else {
                    assert(before[gidx(xi - li, yi)] == grid(cx, cy, seed, xi - li, yi));
                    assert(before[gidx(xi + li, yi)] == grid(cx, cy, seed, xi + li, yi));
                    assert(before[gidx(xi, yi - li)] == grid(cx, cy, seed, xi, yi - li));
                    assert(before[gidx(xi, yi + li)] == grid(cx, cy, seed, xi, yi + li));
                }
                assert(v == grid(cx, cy, seed, xi, yi));
            }
            data[(y * BW + x) as usize] = v;
            proof {
                let (xi, yi, li) = (x as int, y as int, l as int);
                lemma_gidx(xi, yi);
                assert forall|px: int, py: int| in_grid(px, py) implies #[trigger] data@[gidx(px, py)]
                    == stage_val(cx, cy, seed, li, ph as int, yi, xi + 2 * li, px, py) by {
                    lemma_gidx(px, py);
                    if px == xi && py == yi {
                    } else {
                        assert(data@[gidx(px, py)] == before[gidx(px, py)]);
                        if step_of(px, py) == li {
                            lemma_point_class(cx, cy, seed, li, px, py);
                            lemma_unique(li, xi, px);
                        }
                    }
                }
            }
            x = x + 2 * l;
        }
        proof {
            let (xi, yi, li) = (x as int, y as int, l as int);
            assert forall|px: int, py: int| in_grid(px, py) implies #[trigger] data@[gidx(px, py)]
                == stage_val(cx, cy, seed, li, ph as int, yi + 2 * li, 0, px, py) by {
                if step_of(px, py) == li {
                    lemma_point_class(cx, cy, seed, li, px, py);
                    lemma_unique(li, yi, py);
                }
            }
            lemma_residues(li, yi);
        }
        y = y + 2 * l;
    }
    proof {
        let (yi, li) = (y as int, l as int);
        assert forall|px: int, py: int| in_grid(px, py) implies #[trigger] data@[gidx(px, py)]
            == stage_val(cx, cy, seed, li, ph + 1, 0, 0, px, py) by {
            if step_of(px, py) == li {
                lemma_point_class(cx, cy, seed, li, px, py);
            }
        }
    }
}


/// The value of tile `(x, y)` of the chunk whose origin is `(cx, cy)`: the
/// quarter-sum of the four grid points around the tile's centre, the chunk
/// occupying the middle third of the grid.
pub open spec fn bq_value(cx: i32, cy: i32, seed: u32, x: int, y: int) -> int {
    avg4(
        grid(cx, cy, seed, x + 128, y + 128),
        grid(cx, cy, seed, x + 129, y + 128),
        grid(cx, cy, seed, x + 128, y + 129),
        grid(cx, cy, seed, x + 129, y + 129),
    )
}

/// Two grids whose lattice corners hold the same hashed values agree at
/// every point.
proof fn lemma_grid_same(cx: i32, cy: i32, seed: u32, dx: i32, dy: i32, dseed: u32, x: int, y: int)
    requires
        forall|a: int, b: int|
            in_grid(a, b) && a % 128 == 0 && b % 128 == 0 ==> #[trigger] corner_value(cx, cy, seed, a, b)
                == corner_value(dx, dy, dseed, a, b),
    ensures
        grid(cx, cy, seed, x, y) == grid(dx, dy, dseed, x, y),
    decreases rank_of(x, y),
{
    if in_grid(x, y) {
        let p = step_of(x, y);
        if p == 128 {
            assert(corner_value(cx, cy, seed, x, y) == corner_value(dx, dy, dseed, x, y));
        } else {
            lemma_neighbours(p, x, y);
            if kind_of(x, y) == 0 {
                lemma_grid_same(cx, cy, seed, dx, dy, dseed, x - p, y - p);
                lemma_grid_same(cx, cy, seed, dx, dy, dseed, x - p, y + p);
                lemma_grid_same(cx, cy, seed, dx, dy, dseed, x + p, y - p);
                lemma_grid_same(cx, cy, seed, dx, dy, dseed, x + p, y + p);
            } else {
                lemma_grid_same(cx, cy, seed, dx, dy, dseed, x - p, y);
                lemma_grid_same(cx, cy, seed, dx, dy, dseed, x + p, y);
                lemma_grid_same(cx, cy, seed, dx, dy, dseed, x, y - p);
                lemma_grid_same(cx, cy, seed, dx, dy, dseed, x, y + p);
            }
        }
    }
}

/// The noise of a chunk depends on nothing but the sixteen hashed values
/// of its 4 by 4 lattice of corners, 128 tiles apart: two chunks (or two
/// seeds) whose lattices agree get the same noise at every tile.
pub proof fn law_bq_lattice(cx: i32, cy: i32, seed: u32, dx: i32, dy: i32, dseed: u32, x: int, y: int)
    requires
        forall|i: int, j: int|
            0 <= i <= 3 && 0 <= j <= 3 ==> #[trigger] corner_value(cx, cy, seed, 128 * i, 128 * j) == corner_value(
                dx,
                dy,
                dseed,
                128 * i,
                128 * j,
            ),
    ensures
        bq_value(cx, cy, seed, x, y) == bq_value(dx, dy, dseed, x, y),
{
    assert forall|a: int, b: int|
        in_grid(a, b) && a % 128 == 0 && b % 128 == 0 implies #[trigger] corner_value(cx, cy, seed, a, b)
            == corner_value(dx, dy, dseed, a, b) by {
        let i = a / 128;
        let j = b / 128;
        assert(a == 128 * i && b == 128 * j);
        assert(0 <= i <= 3 && 0 <= j <= 3);
        assert(corner_value(cx, cy, seed, 128 * i, 128 * j) == corner_value(dx, dy, dseed, 128 * i, 128 * j));
    }
    lemma_grid_same(cx, cy, seed, dx, dy, dseed, x + 128, y + 128);
    lemma_grid_same(cx, cy, seed, dx, dy, dseed, x + 129, y + 128);
    lemma_grid_same(cx, cy, seed, dx, dy, dseed, x + 128, y + 129);
    lemma_grid_same(cx, cy, seed, dx, dy, dseed, x + 129, y + 129);
}

/// Fills the grid corners with hashed values.
fn fill_corners(data: &mut [i32; 148225], cx: i32, cy: i32, seed: u32)
    requires
        cx <= i32::MAX - 384,
        cy <= i32::MAX - 384,
        at_stage(old(data)@, cx, cy, seed, 128, 0, 0, 0),
    ensures
        at_stage(final(data)@, cx, cy, seed, 64, 0, 0, 0),
{
    let mut y: i32 = 0;
    while y <= 3 * CW
        invariant
            cx <= i32::MAX - 384,
            cy <= i32::MAX - 384,
            0 <= y <= 512,
            y % 128 == 0,
            at_stage(data@, cx, cy, seed, 128, 0, y as int, 0),
        decreases 512 - y,
    {
        let mut x: i32 = 0;
        while x <= 3 * CW
            invariant
                cx <= i32::MAX - 384,
                cy <= i32::MAX - 384,
                0 <= y <= 384,
                y % 128 == 0,
                0 <= x <= 512,
                x % 128 == 0,
                at_stage(data@, cx, cy, seed, 128, 0, y as int, x as int),
            decreases 512 - x,
        {
            let ghost before = data@;
            let h = coord_hash(x + cx, y + cy, seed);
            let v = (h as i32) / 16;
            data[(y * BW + x) as usize] = v;
            proof {
                let (xi, yi) = (x as int, y as int);
                lemma_gidx(xi, yi);
                assert(v == grid(cx, cy, seed, xi, yi));
                assert forall|px: int, py: int| in_grid(px, py) implies #[trigger] data@[gidx(px, py)]
                    == stage_val(cx, cy, seed, 128, 0, yi, xi + 128, px, py) by {
                    lemma_gidx(px, py);
                    if px == xi && py == yi {
                    } else {
                        assert(data@[gidx(px, py)] == before[gidx(px, py)]);
                    }
                }
            }
            x = x + CW;
        }
        y = y + CW;
    }
    proof {
        assert forall|px: int, py: int| in_grid(px, py) implies #[trigger] data@[gidx(px, py)]
            == stage_val(cx, cy, seed, 64, 0, 0, 0, px, py) by {
            if step_of(px, py) < 128 {
                lemma_neighbours(step_of(px, py), px, py);
            }
        }
    }
}

/// The terrain noise of the chunk whose origin is `(cx, cy)` for `seed`:
/// entry `y * 128 + x` is `bq_value(cx, cy, seed, x, y)`.
pub fn generate_noise_bq(cx: i32, cy: i32, seed: u32) -> (td: [i32; 16384])
    requires
        cx <= i32::MAX - 384,
        cy <= i32::MAX - 384,
    ensures
        forall|x: int, y: int|
            0 <= x < 128 && 0 <= y < 128 ==> #[trigger] td@[y * 128 + x] == bq_value(
                cx,
                cy,
                seed,
                x,
                y,
            ),
{
    let mut data: [i32; 148225] = [0i32; 148225];
    proof {
        assert forall|px: int, py: int| in_grid(px, py) implies #[trigger] data@[gidx(px, py)]
            == stage_val(cx, cy, seed, 128, 0, 0, 0, px, py) by {
            lemma_gidx(px, py);
        }
    }
    fill_corners(&mut data, cx, cy, seed);
    let mut l: i32 = CW / 2;
    while l > 0
        invariant
            is_step(l as int) || l == 0,
            at_stage(data@, cx, cy, seed, l as int, 0, 0, 0),
        decreases l,
    {
        refine_pass(&mut data, cx, cy, seed, l, 0);
        refine_pass(&mut data, cx, cy, seed, l, 1);
        refine_pass(&mut data, cx, cy, seed, l, 2);
        proof {
            let li = l as int;
            assert forall|px: int, py: int| in_grid(px, py) implies #[trigger] data@[gidx(px, py)]
                == stage_val(cx, cy, seed, li / 2, 0, 0, 0, px, py) by {
                if step_of(px, py) == li {
                    lemma_point_class(cx, cy, seed, li, px, py);
                }
            }
        }
        l = l / 2;
    }
    let mut td: [i32; 16384] = [0i32; 16384];
    let mut y: i32 = 0;
    while y < CW
        invariant
            0 <= y <= 128,
            at_stage(data@, cx, cy, seed, 0, 0, 0, 0),
            forall|px: int, py: int|
                0 <= px < 128 && 0 <= py < y ==> #[trigger] td@[py * 128 + px] == bq_value(
                    cx,
                    cy,
                    seed,
                    px,
                    py,
                ),
        decreases 128 - y,
    {
        let mut x: i32 = 0;
        while x < CW
            invariant
                0 <= y < 128,
                0 <= x <= 128,
                at_stage(data@, cx, cy, seed, 0, 0, 0, 0),
                forall|px: int, py: int|
                    0 <= px < 128 && 0 <= py < y ==> #[trigger] td@[py * 128 + px] == bq_value(
                        cx,
                        cy,
                        seed,
                        px,
                        py,
                    ),
                forall|px: int| 0 <= px < x ==> #[trigger] td@[y * 128 + px] == bq_value(cx, cy, seed, px, y as int),
            decreases 128 - x,
        {
            let g = ((y + CW) * BW + (x + CW)) as usize;
            let v = data[g] / 4 + data[g + 1] / 4 + data[g + (BW as usize)] / 4 + data[g + (BW as usize) + 1] / 4;
            proof {
                let (xi, yi) = (x as int, y as int);
                assert(data@[gidx(xi + 128, yi + 128)] == grid(cx, cy, seed, xi + 128, yi + 128));
                assert(data@[gidx(xi + 129, yi + 128)] == grid(cx, cy, seed, xi + 129, yi + 128));
                assert(data@[gidx(xi + 128, yi + 129)] == grid(cx, cy, seed, xi + 128, yi + 129));
                assert(data@[gidx(xi + 129, yi + 129)] == grid(cx, cy, seed, xi + 129, yi + 129));
            }
            td[(y * CW + x) as usize] = v;
            x = x + 1;
        }
        y = y + 1;
    }
    td
}

} // verus!
