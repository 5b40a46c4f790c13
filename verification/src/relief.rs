//! Random terrain relief by midpoint displacement over a 129 by 129 grid,
//! followed by four passes of smoothing. The random numbers come from a
//! seeded generator of the `rand` crate.
use vstd::prelude::*;
use rand::distributions::Distribution;
use rand::SeedableRng;
use std::ops::RangeInclusive;
use crate::chunk::Chunk;
use crate::noise::{avg4, trunc_div};

verus! {

/// `RangeInclusive::start`: the lower bound of the range.
#[verifier::external_body]
fn range_start(r: &RangeInclusive<i32>) -> (v: i32)
    ensures
        v == r@.start,
{
    *r.start()
}

/// `RangeInclusive::end`: the upper bound of the range.
#[verifier::external_body]
fn range_end(r: &RangeInclusive<i32>) -> (v: i32)
    ensures
        v == r@.end,
{
    *r.end()
}

/// The values that `Uniform::from(lo..=hi).sample_iter(&mut rng).take(n)`
/// yields for `rng = StdRng::seed_from_u64(seed)`: `StdRng` is ChaCha with
/// twelve rounds in this version of rand, so the values depend on the four
/// arguments alone.
pub uninterp spec fn relief_draws_spec(seed: u64, lo: i32, hi: i32, n: nat) -> Seq<i32>;

/// Draws `n` values uniformly from `lo..=hi` with a generator seeded from
/// `seed` (`StdRng::seed_from_u64`, then `Distribution::sample_iter` of
/// `Uniform::from(lo..=hi)`, whose construction panics when `lo > hi`, hence
/// the `requires`). `UniformInt::sample` returns `low` plus an offset below
/// the size of the range, so each value lies in `lo..=hi`; which values
/// come is named, not stated.
#[verifier::external_body]
fn relief_draws(seed: u64, lo: i32, hi: i32, n: usize) -> (v: Vec<i32>)
    requires
        lo <= hi,
    ensures
        v@ == relief_draws_spec(seed, lo, hi, n as nat),
        v@.len() == n,
        forall|i: int| 0 <= i < v@.len() ==> lo <= #[trigger] v@[i] <= hi,
{
    let mut rng = rand::rngs::StdRng::seed_from_u64(seed);
    rand::distributions::Uniform::from(lo..=hi).sample_iter(&mut rng).take(n).collect()
}

/// The size of `v`.
pub open spec fn abs_i(v: int) -> int {
    if v < 0 {
        -v
    } else {
        v
    }
}

/// The largest size of a value of the range.
pub open spec fn die_size(lo: int, hi: int) -> int {
    if abs_i(lo) >= abs_i(hi) {
        abs_i(lo)
    } else {
        abs_i(hi)
    }
}

/// The widths of the cells that midpoint displacement goes through.
pub open spec fn is_width(w: int) -> bool {
    w == 128 || w == 64 || w == 32 || w == 16 || w == 8 || w == 4 || w == 2
}

/// The bound on the grid values once the levels of width above `w` are
/// done: one die size per level.
pub open spec fn level_bound(w: int, m: int) -> int {
    if w == 128 {
        0
    } else if w == 64 {
        m
    } else if w == 32 {
        2 * m
    } else if w == 16 {
        3 * m
    } else if w == 8 {
        4 * m
    } else if w == 4 {
        5 * m
    } else if w == 2 {
        6 * m
    } else {
        7 * m
    }
}

/// Index of grid point `(x, y)` in the 129 by 129 row-major grid.
pub open spec fn widx(x: int, y: int) -> int {
    y * 129 + x
}

proof fn lemma_width(w: int, a: int)
    requires
        is_width(w),
        a % w == 0,
        0 <= a < 128,
    ensures
        a + w <= 128,
        (a + w / 2) % w == w / 2,
        (a + w) % w == 0,
        w / 2 > 0,
        level_bound(w / 2, 1) == level_bound(w, 1) + 1,
        level_bound(w, 1) <= 6,
{
    vstd::arithmetic::div_mod::lemma_fundamental_div_mod(a, w);
    let k = a / w;
    assert(a == w * k);
    assert((a + w / 2) == w * k + w / 2);
    assert((a + w / 2) % w == w / 2) by {
        vstd::arithmetic::div_mod::lemma_mod_multiples_vanish(k, w / 2, w);
    }
    assert((a + w) % w == 0) by {
        vstd::arithmetic::div_mod::lemma_mod_multiples_vanish(k + 1, 0, w);
    }
    if w == 128 {
    } else if w == 64 {
    } else if w == 32 {
    } else if w == 16 {
    } else if w == 8 {
    } else if w == 4 {
    } else {
    }
}

proof fn lemma_level_bound(w: int, m: int)
    requires
        is_width(w) || w == 1,
        m >= 0,
    ensures
        level_bound(w, m) == level_bound(w, 1) * m,
        0 <= level_bound(w, m) <= 7 * m,
        is_width(w) ==> level_bound(w / 2, m) == level_bound(w, m) + m,
{
}

/// Whether a value fits in an `i32`.
pub open spec fn fits(v: int) -> bool {
    i32::MIN <= v <= i32::MAX
}

/// Every value of `s` has size at most `bnd`.
pub open spec fn all_within(s: Seq<i32>, bnd: int) -> bool {
    forall|i: int| 0 <= i < s.len() ==> abs_i(#[trigger] s[i] as int) <= bnd
}

/// Every grid point whose coordinates are multiples of `w` has size at
/// most `bnd`.
pub open spec fn corners_within(s: Seq<i32>, w: int, bnd: int) -> bool {
    forall|a: int, b: int|
        0 <= a <= 128 && 0 <= b <= 128 && a % w == 0 && b % w == 0 ==> abs_i(
            #[trigger] s[widx(a, b)] as int,
        ) <= bnd
}

/// The midpoint of `a` and `b` (their sum halved toward zero) plus `d`, as
/// `i32` arithmetic computes it: `None` where a step leaves the range.
pub open spec fn mid2_spec(a: i32, b: i32, d: i32) -> Option<i32> {
    if fits(a + b) && fits(trunc_div(a + b, 2) + d) {
        Some((trunc_div(a + b, 2) + d) as i32)
    } else {
        None
    }
}

/// The mean of four values (summed left to right, the sum quartered toward
/// zero) plus `d`, as `i32` arithmetic computes it: `None` where a step
/// leaves the range.
pub open spec fn mid4_spec(a: i32, b: i32, c: i32, e: i32, d: i32) -> Option<i32> {
    if fits(a + b) && fits(a + b + c) && fits(a + b + c + e) && fits(trunc_div(a + b + c + e, 4) + d) {
        Some((trunc_div(a + b + c + e, 4) + d) as i32)
    } else {
        None
    }
}

/// The midpoint of two values plus a displacement, as `i32` arithmetic
/// computes it: `None` where a step leaves the range of `i32`.
fn mid2(a: i32, b: i32, d: i32) -> (r: Option<i32>)
    ensures
        r == mid2_spec(a, b, d),
{
    let s: i64 = a as i64 + b as i64;
    if s < i32::MIN as i64 || s > i32::MAX as i64 {
        return None;
    }
    let h: i32 = (s as i32) / 2;
    let t: i64 = h as i64 + d as i64;
    if t < i32::MIN as i64 || t > i32::MAX as i64 {
        return None;
    }
    Some(t as i32)
}

/// The mean of four values plus a displacement, summed left to right as
/// `i32` arithmetic computes it: `None` where a step leaves the range of
/// `i32`.
fn mid4(a: i32, b: i32, c: i32, e: i32, d: i32) -> (r: Option<i32>)
    ensures
        r == mid4_spec(a, b, c, e, d),
{
    let s1: i64 = a as i64 + b as i64;
    if s1 < i32::MIN as i64 || s1 > i32::MAX as i64 {
        return None;
    }
    let s2: i64 = s1 + c as i64;
    if s2 < i32::MIN as i64 || s2 > i32::MAX as i64 {
        return None;
    }
    let s3: i64 = s2 + e as i64;
    if s3 < i32::MIN as i64 || s3 > i32::MAX as i64 {
        return None;
    }
    let q: i32 = (s3 as i32) / 4;
    let t: i64 = q as i64 + d as i64;
    if t < i32::MIN as i64 || t > i32::MAX as i64 {
        return None;
    }
    Some(t as i32)
}

proof fn lemma_div_bound(s: int, k: int, bnd: int)
    requires
        k == 2 || k == 4,
        bnd >= 0,
        abs_i(s) <= k * bnd,
    ensures
        abs_i(trunc_div(s, k)) <= bnd,
{
}

proof fn lemma_quarter(v: int, bnd: int)
    requires
        bnd >= 0,
        abs_i(v) <= bnd,
    ensures
        abs_i(trunc_div(v, 4)) <= bnd / 4,
        4 * (bnd / 4) <= bnd,
{
}

/// A write at a point that is no corner of width `w` keeps the corners,
/// and a value within `bnd + m` keeps every value within `bnd + m`.
proof fn lemma_write(s: Seq<i32>, p: int, q: int, v: i32, w: int, bnd: int, m: int)
    requires
        s.len() == 16641,
        is_width(w),
        0 <= p <= 128,
        0 <= q <= 128,
        p % w != 0 || q % w != 0,
        corners_within(s, w, bnd),
        all_within(s, bnd + m),
        abs_i(v as int) <= bnd + m,
    ensures
        corners_within(s.update(widx(p, q), v), w, bnd),
        all_within(s.update(widx(p, q), v), bnd + m),
        s.update(widx(p, q), v).len() == 16641,
{
    let t = s.update(widx(p, q), v);
    assert forall|a: int, b: int|
        0 <= a <= 128 && 0 <= b <= 128 && a % w == 0 && b % w == 0 implies abs_i(
            #[trigger] t[widx(a, b)] as int,
        ) <= bnd by {
        assert(widx(a, b) != widx(p, q));
        assert(s[widx(a, b)] == t[widx(a, b)]);
    }
    assert forall|i: int| 0 <= i < t.len() implies abs_i(#[trigger] t[i] as int) <= bnd + m by {
        if i != widx(p, q) {
            assert(s[i] == t[i]);
        }
    }
}

proof fn lemma_mid2(a: int, b: int, d: int, bnd: int, m: int)
    requires
        abs_i(a) <= bnd,
        abs_i(b) <= bnd,
        abs_i(d) <= m,
        bnd >= 0,
    ensures
        abs_i(trunc_div(a + b, 2) + d) <= bnd + m,
        m <= 0x400_0000 && bnd <= 6 * m ==> fits(a + b) && fits(trunc_div(a + b, 2) + d),
{
    lemma_div_bound(a + b, 2, bnd);
}

proof fn lemma_mid4(a: int, b: int, c: int, e: int, d: int, bnd: int, m: int)
    requires
        abs_i(a) <= bnd,
        abs_i(b) <= bnd,
        abs_i(c) <= bnd,
        abs_i(e) <= bnd,
        abs_i(d) <= m,
        bnd >= 0,
    ensures
        abs_i(trunc_div(a + b + c + e, 4) + d) <= bnd + m,
        m <= 0x400_0000 && bnd <= 6 * m ==> fits(a + b) && fits(a + b + c) && fits(a + b + c + e)
            && fits(trunc_div(a + b + c + e, 4) + d),
{
    lemma_div_bound(a + b + c + e, 4, bnd);
}

/// How many values the relief draws: five for each cell of each width
/// from 128 down to 2.
pub const RELIEF_DRAWS: usize = 27305;

/// Every value of `ds` has size at most `m`.
pub open spec fn bounded_by(ds: Seq<i32>, m: int) -> bool {
    forall|i: int| 0 <= i < ds.len() ==> abs_i(#[trigger] ds[i] as int) <= m
}

/// Every value of `s` is at least zero.
pub open spec fn nonneg_seq(s: Seq<i32>) -> bool {
    forall|i: int| 0 <= i < s.len() ==> #[trigger] s[i] >= 0
}

/// Every value of `ds` lies in `lo..=hi`.
pub open spec fn in_range(ds: Seq<i32>, lo: int, hi: int) -> bool {
    forall|i: int| 0 <= i < ds.len() ==> lo <= #[trigger] ds[i] <= hi
}

/// The grid that the relief starts from: all zero.
pub open spec fn zero_grid() -> Seq<i32> {
    Seq::new(16641, |i: int| 0i32)
}

/// The three grid corners other than `(0, 0)`, which the relief never
/// writes, are zero.
pub open spec fn outer_corners_zero(s: Seq<i32>) -> bool {
    s[widx(128, 0)] == 0 && s[widx(0, 128)] == 0 && s[widx(128, 128)] == 0
}

/// Displaces the five midpoints of the cell of width `w` whose top-left
/// corner is `(x, y)` by the draws `ds[k]` to `ds[k + 4]`. With `h = w / 2`,
/// the corners `c00 = (x, y)`, `c20 = (x + w, y)`, `c02 = (x, y + w)` and
/// `c22 = (x + w, y + w)` give, in this order of writing:
/// `(x, y + h)` the midpoint of `c00` and `c20` plus `ds[k]`,
/// `(x + w, y + h)` that of `c02` and `c22` plus `ds[k + 3]`,
/// `(x + h, y)` that of `c00` and `c02` plus `ds[k + 2]`,
/// `(x + h, y + w)` that of `c20` and `c22` plus `ds[k + 1]`, and
/// `(x + h, y + h)` the mean of the four plus `ds[k + 4]`.
/// `None` where a step of the `i32` arithmetic leaves its range.
pub open spec fn cell_spec(g: Seq<i32>, x: int, y: int, w: int, ds: Seq<i32>, k: int) -> Option<Seq<i32>> {
    let h = w / 2;
    let c00 = g[widx(x, y)];
    let c20 = g[widx(x + w, y)];
    let c02 = g[widx(x, y + w)];
    let c22 = g[widx(x + w, y + w)];
    match (
        mid2_spec(c00, c20, ds[k]),
        mid2_spec(c20, c22, ds[k + 1]),
        mid2_spec(c00, c02, ds[k + 2]),
        mid2_spec(c02, c22, ds[k + 3]),
        mid4_spec(c00, c02, c20, c22, ds[k + 4]),
    ) {
        (Some(v10), Some(v21), Some(v01), Some(v12), Some(v11)) => Some(
            g.update(widx(x, y + h), v10).update(widx(x + w, y + h), v12).update(widx(x + h, y), v01).update(
                widx(x + h, y + w),
                v21,
            ).update(widx(x + h, y + h), v11),
        ),
        _ => None,
    }
}

/// Midpoint displacement from cell `(x, y)` of width `w` on, using the
/// draws from `ds[k]` on: the cells of a width in row-major order, then
/// those of half the width, down to width 2. `None` where a step leaves
/// the range of `i32` or the draws run out.
pub open spec fn displace_from(g: Seq<i32>, w: int, y: int, x: int, ds: Seq<i32>, k: int) -> Option<Seq<i32>>
    decreases w, (if y < 128 { 128 - y } else { 0 }), (if x < 128 { 128 - x } else { 0 }),
{
    if w < 2 {
        Some(g)
    } else if y >= 128 {
        displace_from(g, w / 2, 0, 0, ds, k)
    } else if x >= 128 {
        displace_from(g, w, y + w, 0, ds, k)
    } else if k + 5 > ds.len() {
        None
    } else {
        match cell_spec(g, x, y, w, ds, k) {
            Some(g2) => displace_from(g2, w, y, x + w, ds, k + 5),
            None => None,
        }
    }
}

/// A smoothing pass from point `(x, y)` on, in row-major order over
/// `0..128` by `0..128`: each point becomes the sum of the quarters of
/// itself and its right, lower and lower-right neighbours.
pub open spec fn smooth_from(g: Seq<i32>, y: int, x: int) -> Seq<i32>
    decreases (if y < 128 { 128 - y } else { 0 }), (if x < 128 { 128 - x } else { 0 }),
{
    if y >= 128 {
        g
    } else if x >= 128 {
        smooth_from(g, y + 1, 0)
    } else {
        smooth_from(
            g.update(
                widx(x, y),
                avg4(
                    g[widx(x, y)] as int,
                    g[widx(x + 1, y)] as int,
                    g[widx(x, y + 1)] as int,
                    g[widx(x + 1, y + 1)] as int,
                ) as i32,
            ),
            y,
            x + 1,
        )
    }
}

/// `n` smoothing passes.
pub open spec fn smooth_n(g: Seq<i32>, n: nat) -> Seq<i32>
    decreases n,
{
    if n == 0 {
        g
    } else {
        smooth_n(smooth_from(g, 0, 0), (n - 1) as nat)
    }
}

/// The relief made with the draws `ds`: midpoint displacement of the zero
/// grid, then four smoothing passes.
pub open spec fn relief_spec(ds: Seq<i32>) -> Option<Seq<i32>> {
    match displace_from(zero_grid(), 128, 0, 0, ds, 0) {
        Some(g) => Some(smooth_n(g, 4)),
        None => None,
    }
}

/// A grid as a sequence.
pub open spec fn grid_of(r: Option<[i32; 16641]>) -> Option<Seq<i32>> {
    match r {
        Some(g) => Some(g@),
        None => None,
    }
}

/// The cells of the levels below width `w`.
pub open spec fn below(w: int) -> int {
    if w == 128 {
        5460
    } else if w == 64 {
        5456
    } else if w == 32 {
        5440
    } else if w == 16 {
        5376
    } else if w == 8 {
        5120
    } else if w == 4 {
        4096
    } else {
        0
    }
}

/// The cells that displacement still visits from cell `(x, y)` of width `w`.
pub open spec fn cells_left(w: int, y: int, x: int) -> int {
    if w < 2 {
        0
    } else {
        (128int / w) * ((128 - y) / w) - x / w + below(w)
    }
}

proof fn lemma_cells_end(w: int)
    requires
        is_width(w),
    ensures
        cells_left(w, 128, 0) == below(w),
{
    assert((128int - 128) / w == 0);
    assert(0int / w == 0);
    assert((128int / w) * 0 == 0);
}

proof fn lemma_cells(w: int, y: int, x: int)
    requires
        is_width(w),
        x % w == 0,
        y % w == 0,
        0 <= x <= 128,
        0 <= y <= 128,
    ensures
        x < 128 && y < 128 ==> cells_left(w, y, x) == cells_left(w, y, x + w) + 1 && cells_left(w, y, x) >= 1,
        y < 128 ==> cells_left(w, y, 128) == cells_left(w, y + w, 0),
        cells_left(w, 128, 0) == cells_left(w / 2, 0, 0),
        cells_left(128, 0, 0) == 5461,
{
    lemma_cells_end(w);
    assert(cells_left(128, 0, 0) == 5461) by {
        assert(128int / 128int == 1);
        assert(0int / 128int == 0);
    }
    vstd::arithmetic::div_mod::lemma_fundamental_div_mod(x, w);
    vstd::arithmetic::div_mod::lemma_fundamental_div_mod(y, w);
    let i = x / w;
    let j = y / w;
    assert(x == w * i);
    assert(y == w * j);
    assert((x + w) / w == i + 1) by {
        vstd::arithmetic::div_mod::lemma_div_multiples_vanish_fancy(i + 1, 0, w);
    }
    assert((128 - y) / w == 128int / w - j) by {
        assert(128 - y == w * (128int / w - j)) by {
            if w == 128 {} else if w == 64 {} else if w == 32 {} else if w == 16 {} else if w == 8 {} else if w == 4 {} else {}
        }
        vstd::arithmetic::div_mod::lemma_div_multiples_vanish_fancy(128int / w - j, 0, w);
    }
    assert((128 - y - w) / w == 128int / w - j - 1) by {
        assert(128 - y - w == w * (128int / w - j - 1)) by {
            if w == 128 {} else if w == 64 {} else if w == 32 {} else if w == 16 {} else if w == 8 {} else if w == 4 {} else {}
        }
        vstd::arithmetic::div_mod::lemma_div_multiples_vanish_fancy(128int / w - j - 1, 0, w);
    }
    if w == 128 {
        assert(128int / w == 1);
        assert(x < 128 ==> i < 1);
        assert(y < 128 ==> j < 1);
        assert(1 * (1 - j) - 1 == 1 * (1 - j - 1)) by (nonlinear_arith);
        assert(y < 128 ==> 1 * (1 - j) >= 1);
        assert(w / 2 == 64);
        assert(128int / (w / 2) == 2);
        assert(cells_left(w / 2, 0, 0) == 2 * 2 + below(w / 2));
    } else if w == 64 {
        assert(128int / w == 2);
        assert(x < 128 ==> i < 2);
        assert(y < 128 ==> j < 2);
        assert(2 * (2 - j) - 2 == 2 * (2 - j - 1)) by (nonlinear_arith);
        assert(y < 128 ==> 2 * (2 - j) >= 2);
        assert(w / 2 == 32);
        assert(128int / (w / 2) == 4);
        assert(cells_left(w / 2, 0, 0) == 4 * 4 + below(w / 2));
    } else if w == 32 {
        assert(128int / w == 4);
        assert(x < 128 ==> i < 4);
        assert(y < 128 ==> j < 4);
        assert(4 * (4 - j) - 4 == 4 * (4 - j - 1)) by (nonlinear_arith);
        assert(y < 128 ==> 4 * (4 - j) >= 4);
        assert(w / 2 == 16);
        assert(128int / (w / 2) == 8);
        assert(cells_left(w / 2, 0, 0) == 8 * 8 + below(w / 2));
    } else if w == 16 {
        assert(128int / w == 8);
        assert(x < 128 ==> i < 8);
        assert(y < 128 ==> j < 8);
        assert(8 * (8 - j) - 8 == 8 * (8 - j - 1)) by (nonlinear_arith);
        assert(y < 128 ==> 8 * (8 - j) >= 8);
        assert(w / 2 == 8);
        assert(128int / (w / 2) == 16);
        assert(cells_left(w / 2, 0, 0) == 16 * 16 + below(w / 2));
    } else if w == 8 {
        assert(128int / w == 16);
        assert(x < 128 ==> i < 16);
        assert(y < 128 ==> j < 16);
        assert(16 * (16 - j) - 16 == 16 * (16 - j - 1)) by (nonlinear_arith);
        assert(y < 128 ==> 16 * (16 - j) >= 16);
        assert(w / 2 == 4);
        assert(128int / (w / 2) == 32);
        assert(cells_left(w / 2, 0, 0) == 32 * 32 + below(w / 2));
    } else if w == 4 {
        assert(128int / w == 32);
        assert(x < 128 ==> i < 32);
        assert(y < 128 ==> j < 32);
        assert(32 * (32 - j) - 32 == 32 * (32 - j - 1)) by (nonlinear_arith);
        assert(y < 128 ==> 32 * (32 - j) >= 32);
        assert(w / 2 == 2);
        assert(128int / (w / 2) == 64);
        assert(cells_left(w / 2, 0, 0) == 64 * 64 + below(w / 2));
    } else {
        assert(128int / w == 64);
        assert(x < 128 ==> i < 64);
        assert(y < 128 ==> j < 64);
        assert(64 * (64 - j) - 64 == 64 * (64 - j - 1)) by (nonlinear_arith);
        assert(y < 128 ==> 64 * (64 - j) >= 64);
    }
}

/// What the five writes of a cell keep: the outer corners, and values
/// at least zero when the draws and the grid are.
proof fn lemma_cell_post(
    o: Seq<i32>,
    x: int,
    y: int,
    w: int,
    ds: Seq<i32>,
    k: int,
    v10: i32,
    v21: i32,
    v01: i32,
    v12: i32,
    v11: i32,
)
    requires
        o.len() == 16641,
        is_width(w),
        x % w == 0,
        y % w == 0,
        0 <= x,
        0 <= y,
        x + w <= 128,
        y + w <= 128,
        0 <= k,
        k + 5 <= ds.len(),
        Some(v10) == mid2_spec(o[widx(x, y)], o[widx(x + w, y)], ds[k]),
        Some(v21) == mid2_spec(o[widx(x + w, y)], o[widx(x + w, y + w)], ds[k + 1]),
        Some(v01) == mid2_spec(o[widx(x, y)], o[widx(x, y + w)], ds[k + 2]),
        Some(v12) == mid2_spec(o[widx(x, y + w)], o[widx(x + w, y + w)], ds[k + 3]),
        Some(v11) == mid4_spec(o[widx(x, y)], o[widx(x, y + w)], o[widx(x + w, y)], o[widx(x + w, y + w)], ds[k + 4]),
    ensures
        ({
            let h = w / 2;
            let f = o.update(widx(x, y + h), v10).update(widx(x + w, y + h), v12).update(widx(x + h, y), v01).update(
                widx(x + h, y + w),
                v21,
            ).update(widx(x + h, y + h), v11);
            &&& cell_spec(o, x, y, w, ds, k) == Some(f)
            &&& outer_corners_zero(o) ==> outer_corners_zero(f)
            &&& nonneg_seq(ds) && nonneg_seq(o) ==> nonneg_seq(f)
        }),
{
    let h = w / 2;
    assert(h > 0 && h < w);
    let f = o.update(widx(x, y + h), v10).update(widx(x + w, y + h), v12).update(widx(x + h, y), v01).update(
        widx(x + h, y + w),
        v21,
    ).update(widx(x + h, y + h), v11);
    if outer_corners_zero(o) {
        assert(f[widx(128, 0)] == o[widx(128, 0)]);
        assert(f[widx(0, 128)] == o[widx(0, 128)]);
        assert(f[widx(128, 128)] == o[widx(128, 128)]);
    }
    if nonneg_seq(ds) && nonneg_seq(o) {
        assert(ds[k] >= 0 && ds[k + 1] >= 0 && ds[k + 2] >= 0 && ds[k + 3] >= 0 && ds[k + 4] >= 0);
        assert(o[widx(x, y)] >= 0 && o[widx(x + w, y)] >= 0 && o[widx(x, y + w)] >= 0 && o[widx(x + w, y + w)] >= 0);
        assert(v10 >= 0 && v21 >= 0 && v01 >= 0 && v12 >= 0 && v11 >= 0);
        assert forall|i: int| 0 <= i < f.len() implies #[trigger] f[i] >= 0 by {
            assert(o[i] >= 0);
        }
    }
}

/// Displaces the cell of width `w` at `(x, y)` with the draws `ds[k]` to
/// `ds[k + 4]`, as `cell_spec` says; `false` (and the grid left in any
/// state) where a step of the `i32` arithmetic leaves its range.
#[verifier::rlimit(50)]
fn refine_cell(
    weights: &mut [i32; 16641],
    draws: &Vec<i32>,
    k: usize,
    x: usize,
    y: usize,
    w: usize,
    Ghost(m): Ghost<int>,
) -> (ok: bool)
    requires
        is_width(w as int),
        x % w == 0,
        y % w == 0,
        x < 128,
        y < 128,
        k + 5 <= draws@.len(),
        k + 5 <= 27305,
        m >= 0,
        bounded_by(draws@, m),
        corners_within(old(weights)@, w as int, level_bound(w as int, m)),
        all_within(old(weights)@, level_bound(w as int, m) + m),
    ensures
        ok == cell_spec(old(weights)@, x as int, y as int, w as int, draws@, k as int) is Some,
        ok ==> final(weights)@ == cell_spec(old(weights)@, x as int, y as int, w as int, draws@, k as int)->0,
        ok ==> corners_within(final(weights)@, w as int, level_bound(w as int, m)),
        ok ==> all_within(final(weights)@, level_bound(w as int, m) + m),
        ok ==> outer_corners_zero(old(weights)@) ==> outer_corners_zero(final(weights)@),
        ok ==> nonneg_seq(draws@) && nonneg_seq(old(weights)@) ==> nonneg_seq(final(weights)@),
        !ok ==> m > 0x400_0000,
{
    let ghost bnd = level_bound(w as int, m);
    let ghost o = weights@;
    proof {
        lemma_width(w as int, x as int);
        lemma_width(w as int, y as int);
        lemma_level_bound(w as int, m);
        assert(o.len() == 16641);
    }
    let h = w / 2;
    let v00 = weights[y * 129 + x];
    let v20 = weights[y * 129 + x + w];
    let v02 = weights[(y + w) * 129 + x];
    let v22 = weights[(y + w) * 129 + x + w];
    proof {
        assert(o[widx(x as int, y as int)] == v00);
        assert(o[widx(x + w, y as int)] == v20);
        assert(o[widx(x as int, y + w)] == v02);
        assert(o[widx(x + w, y + w)] == v22);
    }
    let d1 = draws[k];
    let d2 = draws[k + 1];
    let d3 = draws[k + 2];
    let d4 = draws[k + 3];
    let d5 = draws[k + 4];
    proof {
        assert(abs_i(draws@[k as int] as int) <= m);
        assert(abs_i(draws@[k + 1] as int) <= m);
        assert(abs_i(draws@[k + 2] as int) <= m);
        assert(abs_i(draws@[k + 3] as int) <= m);
        assert(abs_i(draws@[k + 4] as int) <= m);
        lemma_mid2(v00 as int, v20 as int, d1 as int, bnd, m);
        lemma_mid2(v20 as int, v22 as int, d2 as int, bnd, m);
        lemma_mid2(v00 as int, v02 as int, d3 as int, bnd, m);
        lemma_mid2(v02 as int, v22 as int, d4 as int, bnd, m);
        lemma_mid4(v00 as int, v02 as int, v20 as int, v22 as int, d5 as int, bnd, m);
    }
    proof {
        assert(draws@[k as int] == d1 && draws@[k + 1] == d2 && draws@[k + 2] == d3);
        assert(draws@[k + 3] == d4 && draws@[k + 4] == d5);
    }
    let v10 = match mid2(v00, v20, d1) {
        Some(v) => v,
        None => return false,
    };
    let v21 = match mid2(v20, v22, d2) {
        Some(v) => v,
        None => return false,
    };
    let v01 = match mid2(v00, v02, d3) {
        Some(v) => v,
        None => return false,
    };
    let v12 = match mid2(v02, v22, d4) {
        Some(v) => v,
        None => return false,
    };
    let v11 = match mid4(v00, v02, v20, v22, d5) {
        Some(v) => v,
        None => return false,
    };
    let ghost s0 = weights@;
    weights[(y + h) * 129 + x] = v10;
    proof {
        lemma_write(s0, x as int, y + h, v10, w as int, bnd, m);
    }
    let ghost s1 = weights@;
    weights[(y + h) * 129 + x + w] = v12;
    proof {
        lemma_write(s1, x + w, y + h, v12, w as int, bnd, m);
    }
    let ghost s2 = weights@;
    weights[y * 129 + x + h] = v01;
    proof {
        lemma_write(s2, x + h, y as int, v01, w as int, bnd, m);
    }
    let ghost s3 = weights@;
    weights[(y + w) * 129 + x + h] = v21;
    proof {
        lemma_write(s3, x + h, y + w, v21, w as int, bnd, m);
    }
    let ghost s4 = weights@;
    weights[(y + h) * 129 + x + h] = v11;
    proof {
        lemma_write(s4, x + h, y + h, v11, w as int, bnd, m);
        assert(weights@ == o.update(widx(x as int, y + h), v10).update(widx(x + w, y + h), v12).update(
            widx(x + h, y as int),
            v01,
        ).update(widx(x + h, y + w), v21).update(widx(x + h, y + h), v11));
        lemma_cell_post(o, x as int, y as int, w as int, draws@, k as int, v10, v21, v01, v12, v11);
    }
    true
}

/// One smoothing step at `(x, y)`: the point becomes the sum of the
/// quarters of itself and its right, lower and lower-right neighbours.
fn smooth_point(weights: &mut [i32; 16641], x: usize, y: usize, Ghost(bnd): Ghost<int>)
    requires
        x < 128,
        y < 128,
        bnd >= 0,
        all_within(old(weights)@, bnd),
    ensures
        all_within(final(weights)@, bnd),
        nonneg_seq(old(weights)@) ==> nonneg_seq(final(weights)@),
        final(weights)@ == old(weights)@.update(
            widx(x as int, y as int),
            avg4(
                old(weights)@[widx(x as int, y as int)] as int,
                old(weights)@[widx(x + 1, y as int)] as int,
                old(weights)@[widx(x as int, y + 1)] as int,
                old(weights)@[widx(x + 1, y + 1)] as int,
            ) as i32,
        ),
{
    let i = y * 129 + x;
    proof {
        assert(old(weights)@.len() == 16641);
        lemma_quarter(weights@[i as int] as int, bnd);
        lemma_quarter(weights@[i + 1] as int, bnd);
        lemma_quarter(weights@[i + 129] as int, bnd);
        lemma_quarter(weights@[i + 130] as int, bnd);
    }
    let v = weights[i] / 4 + weights[i + 1] / 4 + weights[i + 129] / 4 + weights[i + 130] / 4;
    let ghost s0 = weights@;
    weights[i] = v;
    proof {
        assert forall|j: int| 0 <= j < weights@.len() implies abs_i(
            #[trigger] weights@[j] as int,
        ) <= bnd by {
            if j != i {
                assert(weights@[j] == s0[j]);
            }
        }
        if nonneg_seq(s0) {
            assert(s0[i as int] >= 0 && s0[i + 1] >= 0 && s0[i + 129] >= 0 && s0[i + 130] >= 0);
            assert forall|j: int| 0 <= j < weights@.len() implies #[trigger] weights@[j] >= 0 by {
                if j != i {
                    assert(weights@[j] == s0[j]);
                }
            }
        }
    }
}

/// Midpoint displacement of the zero grid with `draws`, then four passes
/// of smoothing, as `relief_spec` says. With every draw of size at most
/// `m`, every value stays within `7 * m`, and with `m` at most 2^26 and
/// enough draws the result is owed.
#[verifier::rlimit(50)]
fn displace_and_smooth(draws: &Vec<i32>, Ghost(m): Ghost<int>) -> (r: Option<[i32; 16641]>)
    requires
        m >= 0,
        bounded_by(draws@, m),
    ensures
        grid_of(r) == relief_spec(draws@),
        m <= 0x400_0000 && draws@.len() >= RELIEF_DRAWS ==> r is Some,
        r matches Some(g) ==> all_within(g@, 7 * m),
        r matches Some(g) ==> outer_corners_zero(g@),
        nonneg_seq(draws@) ==> (r matches Some(g) ==> nonneg_seq(g@)),
{
    let mut weights: [i32; 16641] = [0; 16641];
    let ghost ds = draws@;
    let ghost target = displace_from(zero_grid(), 128, 0, 0, ds, 0);
    proof {
        assert(weights@ =~= zero_grid());
        assert forall|i: int| 0 <= i < weights@.len() implies abs_i(
            #[trigger] weights@[i] as int,
        ) <= level_bound(128, m) by {}
        assert forall|i: int| 0 <= i < weights@.len() implies #[trigger] weights@[i] >= 0 by {}
        lemma_cells(128, 0, 0);
    }
    let mut width: usize = 128;
    let mut k: usize = 0;
    while width >= 2
        invariant
            is_width(width as int) || width == 1,
            m >= 0,
            ds == draws@,
            target == displace_from(zero_grid(), 128, 0, 0, ds, 0),
            bounded_by(ds, m),
            weights@.len() == 16641,
            all_within(weights@, level_bound(width as int, m)),
            outer_corners_zero(weights@),
            nonneg_seq(ds) ==> nonneg_seq(weights@),
            displace_from(weights@, width as int, 0, 0, ds, k as int) == target,
            k + 5 * cells_left(width as int, 0, 0) == 27305,
        decreases width,
    {
        proof {
            lemma_level_bound(width as int, m);
        }
        let mut y: usize = 0;
        while y < 128
            invariant
                is_width(width as int),
                y % width == 0,
                y <= 128,
                m >= 0,
                ds == draws@,
                target == displace_from(zero_grid(), 128, 0, 0, ds, 0),
                bounded_by(ds, m),
                weights@.len() == 16641,
                corners_within(weights@, width as int, level_bound(width as int, m)),
                all_within(weights@, level_bound(width as int, m) + m),
                outer_corners_zero(weights@),
                nonneg_seq(ds) ==> nonneg_seq(weights@),
                displace_from(weights@, width as int, y as int, 0, ds, k as int) == target,
                k + 5 * cells_left(width as int, y as int, 0) == 27305,
            decreases 128 - y,
        {
            proof {
                lemma_width(width as int, y as int);
            }
            let mut x: usize = 0;
            while x < 128
                invariant
                    is_width(width as int),
                    x % width == 0,
                    x <= 128,
                    y % width == 0,
                    y < 128,
                    m >= 0,
                    ds == draws@,
                    target == displace_from(zero_grid(), 128, 0, 0, ds, 0),
                    bounded_by(ds, m),
                    weights@.len() == 16641,
                    corners_within(weights@, width as int, level_bound(width as int, m)),
                    all_within(weights@, level_bound(width as int, m) + m),
                    outer_corners_zero(weights@),
                    nonneg_seq(ds) ==> nonneg_seq(weights@),
                    displace_from(weights@, width as int, y as int, x as int, ds, k as int) == target,
                    k + 5 * cells_left(width as int, y as int, x as int) == 27305,
                decreases 128 - x,
            {
                proof {
                    lemma_width(width as int, x as int);
                    lemma_cells(width as int, y as int, x as int);
                }
                if k + 5 > draws.len() {
                    proof {
                        assert(target is None);
                    }
                    return None;
                }
                let ghost before = weights@;
                if !refine_cell(&mut weights, draws, k, x, y, width, Ghost(m)) {
                    proof {
                        assert(cell_spec(before, x as int, y as int, width as int, ds, k as int) is None);
                        assert(target is None);
                    }
                    return None;
                }
                x = x + width;
                k = k + 5;
            }
            proof {
                lemma_cells(width as int, y as int, 128);
                assert(displace_from(weights@, width as int, y as int, 128, ds, k as int) == displace_from(
                    weights@,
                    width as int,
                    y + width,
                    0,
                    ds,
                    k as int,
                ));
            }
            y = y + width;
        }
        proof {
            lemma_level_bound(width as int, m);
            lemma_cells(width as int, 128, 0);
            assert(displace_from(weights@, width as int, 128, 0, ds, k as int) == displace_from(
                weights@,
                width as int / 2,
                0,
                0,
                ds,
                k as int,
            ));
        }
        width = width / 2;
    }
    proof {
        lemma_level_bound(1, m);
        assert(target == Some(weights@));
    }
    let ghost g = weights@;
    let mut pass: usize = 0;
    while pass < 4
        invariant
            pass <= 4,
            m >= 0,
            ds == draws@,
            weights@.len() == 16641,
            all_within(weights@, 7 * m),
            outer_corners_zero(weights@),
            nonneg_seq(ds) ==> nonneg_seq(weights@),
            smooth_n(weights@, (4 - pass) as nat) == smooth_n(g, 4),
        decreases 4 - pass,
    {
        let mut y: usize = 0;
        while y < 128
            invariant
                y <= 128,
                pass < 4,
                m >= 0,
                ds == draws@,
                weights@.len() == 16641,
                all_within(weights@, 7 * m),
                outer_corners_zero(weights@),
                nonneg_seq(ds) ==> nonneg_seq(weights@),
                smooth_n(smooth_from(weights@, y as int, 0), (3 - pass) as nat) == smooth_n(g, 4),
            decreases 128 - y,
        {
            let mut x: usize = 0;
            while x < 128
                invariant
                    x <= 128,
                    y < 128,
                    pass < 4,
                    m >= 0,
                    ds == draws@,
                    weights@.len() == 16641,
                    all_within(weights@, 7 * m),
                    outer_corners_zero(weights@),
                    nonneg_seq(ds) ==> nonneg_seq(weights@),
                    smooth_n(smooth_from(weights@, y as int, x as int), (3 - pass) as nat) == smooth_n(g, 4),
                decreases 128 - x,
            {
                let ghost before = weights@;
                smooth_point(&mut weights, x, y, Ghost(7 * m));
                proof {
                    assert(smooth_from(before, y as int, x as int) == smooth_from(weights@, y as int, x + 1));
                    assert(weights@[widx(128, 0)] == before[widx(128, 0)]);
                    assert(weights@[widx(0, 128)] == before[widx(0, 128)]);
                    assert(weights@[widx(128, 128)] == before[widx(128, 128)]);
                }
                x = x + 1;
            }
            proof {
                assert(smooth_from(weights@, y as int, 128) == smooth_from(weights@, y + 1, 0));
            }
            y = y + 1;
        }
        proof {
            assert(smooth_from(weights@, 128, 0) == weights@);
        }
        pass = pass + 1;
    }
    Some(weights)
}

/// The relief made with `draws`: midpoint displacement of the zero grid,
/// five draws per cell for the cells of width 128, 64, ..., 2 in turn
/// (each width in row-major order), then four passes of smoothing; see
/// `relief_spec`. `None` where the draws run out or a step of the `i32`
/// arithmetic leaves its range. The three grid corners other than `(0, 0)`
/// stay zero, and with no draw below zero no value is below zero.
pub fn relief_from_draws(draws: &Vec<i32>) -> (r: Option<[i32; 16641]>)
    ensures
        grid_of(r) == relief_spec(draws@),
        r matches Some(g) ==> outer_corners_zero(g@),
        nonneg_seq(draws@) ==> (r matches Some(g) ==> nonneg_seq(g@)),
{
    proof {
        assert forall|i: int| 0 <= i < draws@.len() implies abs_i(#[trigger] draws@[i] as int) <= 0x8000_0000 by {}
    }
    displace_and_smooth(draws, Ghost(0x8000_0000))
}

impl Chunk {
    /// A 129 by 129 grid of random relief: `RELIEF_DRAWS` values drawn
    /// uniformly from `range` by a generator seeded with `seed` (so the
    /// grid depends on the range and the seed alone), then
    /// `relief_from_draws` of them (midpoint displacement of the zero grid
    /// from cells of width 128 down to width 2, then four passes of
    /// smoothing).
    ///
    /// Every value drawn has size at most `M = die_size(range)` and each
    /// level of displacement adds at most `M`, so every value of the result
    /// has size at most `7 * M`; with a range of values at least zero, no
    /// value is below zero. `None` comes where a step of the `i32`
    /// arithmetic leaves its range, which needs `M` over 2^26.
    pub fn generate_noise(range: RangeInclusive<i32>, seed: u64) -> (r: Option<[i32; 16641]>)
        requires
            range@.start <= range@.end,
        ensures
            grid_of(r) == relief_spec(relief_draws_spec(seed, range@.start, range@.end, RELIEF_DRAWS as nat)),
            die_size(range@.start as int, range@.end as int) <= 0x400_0000 ==> r is Some,
            r matches Some(w) ==> all_within(w@, 7 * die_size(range@.start as int, range@.end as int)),
            r matches Some(w) ==> outer_corners_zero(w@),
            range@.start >= 0 ==> (r matches Some(w) ==> nonneg_seq(w@)),
    {
        let lo = range_start(&range);
        let hi = range_end(&range);
        let ghost m = die_size(lo as int, hi as int);
        let draws = relief_draws(seed, lo, hi, RELIEF_DRAWS);
        proof {
            assert forall|i: int| 0 <= i < draws@.len() implies abs_i(#[trigger] draws@[i] as int) <= m by {
                assert(lo <= draws@[i] <= hi);
            }
            if lo >= 0 {
                assert forall|i: int| 0 <= i < draws@.len() implies #[trigger] draws@[i] >= 0 by {
                    assert(lo <= draws@[i]);
                }
            }
        }
        displace_and_smooth(&draws, Ghost(m))
    }
}

} // verus!
