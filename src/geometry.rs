//! Corner geometry and the rotation-invariant quadrilateral match.
use vstd::prelude::*;

verus! {

/// Coordinates are held in fixed point: this many units make one pixel.
pub const MILLI_PER_PIXEL: i64 = 1000;

/// The acceptance tolerance of the benchmark, fifty pixels, in fixed-point units.
pub const DEFAULT_TOLERANCE: u32 = 50_000;

/// A position in image pixel space, in thousandths of a pixel.
#[derive(Clone, Copy, Debug, PartialEq, Eq, Structural)]
pub struct Point {
    pub x: i64,
    pub y: i64,
}

/// The largest natural number whose square does not exceed `n`.
pub open spec fn sqrt_floor(n: nat) -> nat
    decreases n,
{
    if n == 0 {
        0
    } else {
        let r = sqrt_floor((n - 1) as nat);
        if (r + 1) * (r + 1) <= n {
            r + 1
        } else {
            r
        }
    }
}

/// Squared Euclidean distance between two points.
pub open spec fn dist_sq(p: Point, q: Point) -> nat {
    let dx = p.x - q.x;
    let dy = p.y - q.y;
    (dx * dx + dy * dy) as nat
}

/// Euclidean distance between two points, rounded down to a whole unit.
pub open spec fn dist(p: Point, q: Point) -> nat {
    sqrt_floor(dist_sq(p, q))
}

/// Sum of corner distances when corner `i` of `expected` is paired with
/// corner `(i + k) % 4` of `actual`.
#[verifier::opaque]
pub open spec fn rotation_total(expected: Seq<Point>, actual: Seq<Point>, k: int) -> nat {
    dist(expected[0], actual[(0 + k) % 4]) + dist(expected[1], actual[(1 + k) % 4]) + dist(
        expected[2],
        actual[(2 + k) % 4],
    ) + dist(expected[3], actual[(3 + k) % 4])
}

pub open spec fn min_nat(a: nat, b: nat) -> nat {
    if a <= b {
        a
    } else {
        b
    }
}

/// The smallest corner-distance sum over the four cyclic alignments.
pub open spec fn best_total(expected: Seq<Point>, actual: Seq<Point>) -> nat {
    min_nat(
        min_nat(rotation_total(expected, actual, 0), rotation_total(expected, actual, 1)),
        min_nat(rotation_total(expected, actual, 2), rotation_total(expected, actual, 3)),
    )
}

/// A quad matches when its best-aligned mean corner distance is below the
/// tolerance; the mean is a quarter of the sum, so the sum is held against
/// four times the tolerance.
pub open spec fn quad_matches(expected: Seq<Point>, actual: Seq<Point>, tolerance: nat) -> bool {
    expected.len() == 4 && best_total(expected, actual) < 4 * tolerance
}

/// A detection is correct when it has four corners and matches at least one
/// of the candidate quads.
pub open spec fn detection_correct(
    expected_sets: Seq<Seq<Point>>,
    actual: Seq<Point>,
    tolerance: nat,
) -> bool {
    actual.len() == 4 && exists|j: int|
        0 <= j < expected_sets.len() && quad_matches(
            #[trigger] expected_sets[j],
            actual,
            tolerance,
        )
}

proof fn lemma_square_monotone(a: int, b: int)
    requires
        0 <= a <= b,
    ensures
        a * a <= b * b,
{
    assert(a * a <= b * b) by (nonlinear_arith)
        requires
            0 <= a <= b,
    ;
}

/// `sqrt_floor(n)` squared stays within `n`, and its successor squared exceeds `n`.
pub proof fn lemma_sqrt_floor_bounds(n: nat)
    ensures
        sqrt_floor(n) * sqrt_floor(n) <= n,
        n < (sqrt_floor(n) + 1) * (sqrt_floor(n) + 1),
    decreases n,
{
    if n == 0 {
        let s = sqrt_floor(n);
        assert(s == 0);
        assert((s + 1) * (s + 1) == 1) by (nonlinear_arith)
            requires
                s == 0,
        ;
    } else {
        lemma_sqrt_floor_bounds((n - 1) as nat);
        let r = sqrt_floor((n - 1) as nat);
        if (r + 1) * (r + 1) <= n {
            assert(sqrt_floor(n) == r + 1);
            assert(n < (r + 2) * (r + 2)) by (nonlinear_arith)
                requires
                    (n - 1) < (r + 1) * (r + 1),
                    (r + 1) * (r + 1) <= n,
            ;
            assert((sqrt_floor(n) + 1) * (sqrt_floor(n) + 1) == (r + 2) * (r + 2));
        } else {
            assert(sqrt_floor(n) == r);
            assert(n < (r + 1) * (r + 1));
            assert((sqrt_floor(n) + 1) * (sqrt_floor(n) + 1) == (r + 1) * (r + 1));
        }
    }
}

/// Any `r` with `r * r <= n < (r + 1) * (r + 1)` is `sqrt_floor(n)`.
pub proof fn lemma_sqrt_floor_unique(n: nat, r: nat)
    requires
        r * r <= n,
        n < (r + 1) * (r + 1),
    ensures
        r == sqrt_floor(n),
{
    lemma_sqrt_floor_bounds(n);
    let s = sqrt_floor(n);
    if r < s {
        lemma_square_monotone((r + 1) as int, s as int);
    } else if s < r {
        lemma_square_monotone((s + 1) as int, r as int);
    }
}

/// `min(sqrt_floor(s), cap)`, found by bisection over `[0, cap]`.
fn sqrt_floor_capped(s: u128, cap: u64) -> (r: u64)
    requires
        cap < 0x1_0000_0000_0000,
    ensures
        r as nat == min_nat(sqrt_floor(s as nat), cap as nat),
{
    let mut lo: u64 = 0;
    let mut hi: u64 = cap;
    while lo < hi
        invariant
            lo <= hi <= cap,
            cap < 0x1_0000_0000_0000,
            (lo as int) * (lo as int) <= s,
            hi == cap || s < (hi as int + 1) * (hi as int + 1),
        decreases hi - lo,
    {
        let mid: u64 = lo + (hi - lo + 1) / 2;
        assert((mid as int) * (mid as int) <= (cap as int) * (cap as int)) by {
            lemma_square_monotone(mid as int, cap as int);
        }
        assert((cap as int) * (cap as int) < 0x1_0000_0000_0000_0000_0000_0000) by (nonlinear_arith)
            requires
                cap < 0x1_0000_0000_0000,
        ;
        let sq: u128 = (mid as u128) * (mid as u128);
        if sq <= s {
            lo = mid;
        } else {
            hi = mid - 1;
        }
    }
    proof {
        lemma_sqrt_floor_bounds(s as nat);
        if lo < cap {
            lemma_sqrt_floor_unique(s as nat, lo as nat);
        } else {
            let q = sqrt_floor(s as nat);
            if q < cap {
                lemma_square_monotone((q + 1) as int, cap as int);
            }
        }
    }
    lo
}

/// A square of at least `c * c` has a floor root of at least `c`.
pub proof fn lemma_sqrt_floor_at_least(n: nat, c: nat)
    requires
        c * c <= n,
    ensures
        c <= sqrt_floor(n),
{
    lemma_sqrt_floor_bounds(n);
    let q = sqrt_floor(n);
    if q < c {
        lemma_square_monotone((q + 1) as int, c as int);
    }
}

/// Magnitude of a difference of two `i64` values.
fn abs_diff(a: i64, b: i64) -> (r: u128)
    ensures
        r as int == if a >= b {
            a - b
        } else {
            b - a
        },
{
    if a >= b {
        ((a as i128) - (b as i128)) as u128
    } else {
        ((b as i128) - (a as i128)) as u128
    }
}

/// `min(dist(p, q), cap)`, without overflow for any pair of points.
fn capped_distance(p: Point, q: Point, cap: u64) -> (r: u64)
    requires
        cap < 0x1_0000_0000_0000,
    ensures
        r as nat == min_nat(dist(p, q), cap as nat),
{
    let ax = abs_diff(p.x, q.x);
    let ay = abs_diff(p.y, q.y);
    let ghost dx: int = p.x - q.x;
    let ghost dy: int = p.y - q.y;
    assert(ax * ax == dx * dx && ay * ay == dy * dy) by (nonlinear_arith)
        requires
            ax == dx || ax == -dx,
            ay == dy || ay == -dy,
    ;
    if ax >= cap as u128 || ay >= cap as u128 {
        proof {
            let c = cap as int;
            assert(c * c <= dx * dx + dy * dy) by (nonlinear_arith)
                requires
                    0 <= c,
                    (c <= ax && ax * ax == dx * dx) || (c <= ay && ay * ay == dy * dy),
                    dx * dx >= 0,
                    dy * dy >= 0,
            ;
            lemma_sqrt_floor_at_least(dist_sq(p, q), cap as nat);
        }
        return cap;
    }
    assert(ax * ax < 0x1_0000_0000_0000_0000_0000_0000 && ay * ay < 0x1_0000_0000_0000_0000_0000_0000)
        by (nonlinear_arith)
        requires
            ax < 0x1_0000_0000_0000,
            ay < 0x1_0000_0000_0000,
    ;
    let s: u128 = ax * ax + ay * ay;
    sqrt_floor_capped(s, cap)
}

/// `min(rotation_total(expected, actual, k), cap)`.
fn rotation_total_capped(expected: &Vec<Point>, actual: &Vec<Point>, k: usize, cap: u64) -> (r: u64)
    requires
        expected@.len() == 4,
        actual@.len() == 4,
        k < 4,
        cap < 0x1_0000_0000_0000,
    ensures
        r as nat == min_nat(rotation_total(expected@, actual@, k as int), cap as nat),
{
    reveal(rotation_total);
    let d0 = capped_distance(expected[0], actual[(0 + k) % 4], cap);
    let d1 = capped_distance(expected[1], actual[(1 + k) % 4], cap);
    let d2 = capped_distance(expected[2], actual[(2 + k) % 4], cap);
    let d3 = capped_distance(expected[3], actual[(3 + k) % 4], cap);
    let sum: u64 = d0 + d1 + d2 + d3;
    if sum < cap {
        sum
    } else {
        cap
    }
}

fn min_u64(a: u64, b: u64) -> (r: u64)
    ensures
        r as nat == min_nat(a as nat, b as nat),
{
    if a <= b {
        a
    } else {
        b
    }
}

/// View of a list of quads as a sequence of corner sequences.
pub open spec fn quads_view(sets: Seq<Vec<Point>>) -> Seq<Seq<Point>> {
    sets.map_values(|q: Vec<Point>| q@)
}

/// Judges a detected quad against the candidate ground-truth quads: correct
/// when it has four corners and, for some four-corner candidate, the best of
/// the four cyclic alignments has a mean corner distance below `tolerance`.
pub fn is_detection_correct(
    expected_points_sets: &Vec<Vec<Point>>,
    actual_points: &Vec<Point>,
    tolerance: u32,
) -> (r: bool)
    ensures
        r == detection_correct(quads_view(expected_points_sets@), actual_points@, tolerance as nat),
{
    let ghost sets = quads_view(expected_points_sets@);
    if actual_points.len() != 4 {
        return false;
    }
    let cap: u64 = 4 * (tolerance as u64);
    let mut j: usize = 0;
    while j < expected_points_sets.len()
        invariant
            j <= expected_points_sets@.len(),
            sets == quads_view(expected_points_sets@),
            actual_points@.len() == 4,
            cap == 4 * tolerance,
            forall|jj: int| 0 <= jj < j ==> !quad_matches(#[trigger] sets[jj], actual_points@, tolerance as nat),
        decreases expected_points_sets@.len() - j,
    {
        let expected = &expected_points_sets[j];
        assert(sets[j as int] == expected@);
        if expected.len() == 4 {
            let t0 = rotation_total_capped(expected, actual_points, 0, cap);
            let t1 = rotation_total_capped(expected, actual_points, 1, cap);
            let t2 = rotation_total_capped(expected, actual_points, 2, cap);
            let t3 = rotation_total_capped(expected, actual_points, 3, cap);
            let best = min_u64(min_u64(t0, t1), min_u64(t2, t3));
            if best < cap {
                assert(quad_matches(sets[j as int], actual_points@, tolerance as nat));
                return true;
            }
        }
        j += 1;
    }
    false
}

/// The quad `a` read from its corner `k` onward.
pub open spec fn rotate(a: Seq<Point>, k: int) -> Seq<Point> {
    Seq::new(4, |i: int| a[(i + k) % 4])
}

proof fn lemma_rotation_total_shift(e: Seq<Point>, a: Seq<Point>, k: int, j: int)
    requires
        a.len() == 4,
        0 <= k < 4,
        0 <= j < 4,
    ensures
        rotation_total(e, rotate(a, k), j) == rotation_total(e, a, (j + k) % 4),
{
    reveal(rotation_total);
    let r = rotate(a, k);
    assert forall|i: int| 0 <= i < 4 implies #[trigger] r[(i + j) % 4] == a[(i + (j + k) % 4) % 4] by {
        assert(((i + j) % 4 + k) % 4 == (i + (j + k) % 4) % 4);
    }
    assert(r[(0 + j) % 4] == a[(0 + (j + k) % 4) % 4]);
    assert(r[(1 + j) % 4] == a[(1 + (j + k) % 4) % 4]);
    assert(r[(2 + j) % 4] == a[(2 + (j + k) % 4) % 4]);
    assert(r[(3 + j) % 4] == a[(3 + (j + k) % 4) % 4]);
}

/// The best alignment does not depend on which corner a quad starts from.
pub proof fn lemma_best_total_rotation(e: Seq<Point>, a: Seq<Point>, k: int)
    requires
        a.len() == 4,
        0 <= k < 4,
    ensures
        best_total(e, rotate(a, k)) == best_total(e, a),
{
    lemma_rotation_total_shift(e, a, k, 0);
    lemma_rotation_total_shift(e, a, k, 1);
    lemma_rotation_total_shift(e, a, k, 2);
    lemma_rotation_total_shift(e, a, k, 3);
    let r = rotate(a, k);
    let t0 = rotation_total(e, a, 0);
    let t1 = rotation_total(e, a, 1);
    let t2 = rotation_total(e, a, 2);
    let t3 = rotation_total(e, a, 3);
    if k == 0 {
        assert(best_total(e, r) == min_nat(min_nat(t0, t1), min_nat(t2, t3)));
    } else if k == 1 {
        assert(best_total(e, r) == min_nat(min_nat(t1, t2), min_nat(t3, t0)));
    } else if k == 2 {
        assert(best_total(e, r) == min_nat(min_nat(t2, t3), min_nat(t0, t1)));
    } else {
        assert(best_total(e, r) == min_nat(min_nat(t3, t0), min_nat(t1, t2)));
    }
}

/// Rotating the detected corners by any cyclic offset leaves the judgement
/// unchanged: a detection is accepted from whichever corner it starts.
pub proof fn lemma_detection_rotation_invariant(
    expected_sets: Seq<Seq<Point>>,
    actual: Seq<Point>,
    tolerance: nat,
    k: int,
)
    requires
        actual.len() == 4,
        0 <= k < 4,
    ensures
        detection_correct(expected_sets, rotate(actual, k), tolerance) == detection_correct(
            expected_sets,
            actual,
            tolerance,
        ),
{
    assert forall|j: int| 0 <= j < expected_sets.len() implies quad_matches(
        #[trigger] expected_sets[j],
        rotate(actual, k),
        tolerance,
    ) == quad_matches(expected_sets[j], actual, tolerance) by {
        lemma_best_total_rotation(expected_sets[j], actual, k);
    }
}

} // verus!
