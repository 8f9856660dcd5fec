//! Fixed-point plane geometry: positions, squared distances, integer square
//! roots and the straight-line step of a moving robot.

use vstd::arithmetic::div_mod::{lemma_div_denominator, lemma_div_is_ordered, lemma_fundamental_div_mod};
use vstd::arithmetic::mul::lemma_mul_inequality;
use vstd::prelude::*;

verus! {

/// Largest magnitude of a coordinate that the steering arithmetic accepts.
pub const MAX_COORD: i64 = 1_000_000_000_000;

/// Milliseconds in one second: speeds are given per second, ticks in milliseconds.
pub const MILLIS_PER_SECOND: u64 = 1000;

/// A point of the plane in world units.
#[derive(Clone, Copy, Debug, PartialEq, Eq, Structural)]
pub struct Position {
    pub x: i64,
    pub y: i64,
}

impl Position {
    pub fn new(x: i64, y: i64) -> (r: Position)
        ensures
            r.x == x,
            r.y == y,
    {
        Position { x, y }
    }
}

/// Both coordinates lie within the range the steering arithmetic handles.
pub open spec fn in_range(p: Position) -> bool {
    -MAX_COORD <= p.x <= MAX_COORD && -MAX_COORD <= p.y <= MAX_COORD
}

/// Squared Euclidean distance between two positions.
pub open spec fn dist_sq(a: Position, b: Position) -> int {
    (b.x - a.x) * (b.x - a.x) + (b.y - a.y) * (b.y - a.y)
}

/// Squared distance between two positions within range.
pub fn distance_sq(a: Position, b: Position) -> (r: u128)
    requires
        in_range(a),
        in_range(b),
    ensures
        r == dist_sq(a, b),
        r < 0x10_0000_0000_0000_0000_0000,
{
    let dx: i64 = b.x - a.x;
    let dy: i64 = b.y - a.y;
    assert(0 <= dx * dx <= 0x4_0000_0000_0000_0000_0000) by (nonlinear_arith)
        requires
            -2_000_000_000_000 <= dx <= 2_000_000_000_000,
    ;
    assert(0 <= dy * dy <= 0x4_0000_0000_0000_0000_0000) by (nonlinear_arith)
        requires
            -2_000_000_000_000 <= dy <= 2_000_000_000_000,
    ;
    (dx as i128 * dx as i128) as u128 + (dy as i128 * dy as i128) as u128
}

/// `r` is the integer square root of `n`, rounded down.
pub open spec fn is_floor_sqrt(r: int, n: int) -> bool {
    0 <= r && r * r <= n < (r + 1) * (r + 1)
}

/// The integer square root of `n`, rounded down.
pub open spec fn floor_sqrt(n: nat) -> nat {
    choose|r: nat| is_floor_sqrt(r as int, n as int)
}

proof fn lemma_square_monotone(a: int, b: int)
    requires
        0 <= a <= b,
    ensures
        a * a <= b * b,
{
    lemma_mul_inequality(a, b, a);
    lemma_mul_inequality(a, b, b);
}

/// The rounded-down square root is unique.
pub proof fn lemma_floor_sqrt_unique(r: int, s: int, n: int)
    requires
        is_floor_sqrt(r, n),
        is_floor_sqrt(s, n),
    ensures
        r == s,
{
    if r < s {
        lemma_square_monotone(r + 1, s);
    } else if s < r {
        lemma_square_monotone(s + 1, r);
    }
}

/// Every natural number has a rounded-down square root.
pub proof fn lemma_floor_sqrt_exists(n: nat)
    ensures
        is_floor_sqrt(floor_sqrt(n) as int, n as int),
    decreases n,
{
    if n == 0 {
        assert(is_floor_sqrt(0, n as int));
    } else {
        lemma_floor_sqrt_exists((n - 1) as nat);
        let p = floor_sqrt((n - 1) as nat) as int;
        assert((p + 1) * (p + 1) < (p + 2) * (p + 2)) by (nonlinear_arith)
            requires
                p >= 0,
        ;
        if (p + 1) * (p + 1) <= n {
            assert(is_floor_sqrt(p + 1, n as int));
        } else {
            assert(is_floor_sqrt(p, n as int));
        }
    }
}

/// Any witness of the rounded-down square root is the one `floor_sqrt` names.
pub proof fn lemma_floor_sqrt_is(r: nat, n: nat)
    requires
        is_floor_sqrt(r as int, n as int),
    ensures
        floor_sqrt(n) == r,
{
    let s = floor_sqrt(n);
    assert(is_floor_sqrt(s as int, n as int));
    lemma_floor_sqrt_unique(r as int, s as int, n as int);
}

/// Integer square root, rounded down, by bisection.
pub fn isqrt(n: u128) -> (r: u64)
    requires
        n < 0x10_0000_0000_0000_0000_0000,
    ensures
        is_floor_sqrt(r as int, n as int),
        r == floor_sqrt(n as nat),
        r <= 0x400_0000_0000,
{
    let mut lo: u128 = 0;
    let mut hi: u128 = 0x400_0000_0000;
    assert(hi * hi == 0x10_0000_0000_0000_0000_0000) by (nonlinear_arith)
        requires
            hi == 0x400_0000_0000,
    ;
    while lo + 1 < hi
        invariant
            lo < hi <= 0x400_0000_0000,
            lo * lo <= n,
            n < hi * hi,
        decreases hi - lo,
    {
        let mid: u128 = lo + (hi - lo) / 2;
        assert(mid * mid <= 0x400_0000_0000 * 0x400_0000_0000) by {
            lemma_square_monotone(mid as int, 0x400_0000_0000);
        }
        if mid * mid <= n {
            lo = mid;
        } else {
            hi = mid;
        }
    }
    proof {
        lemma_floor_sqrt_is(lo as nat, n as nat);
    }
    lo as u64
}


/// The integer square root of `n`, rounded up: the least `r` with `n <= r * r`.
pub open spec fn ceil_sqrt(n: nat) -> nat {
    let f = floor_sqrt(n);
    if f * f == n {
        f
    } else {
        f + 1
    }
}

/// The rounded-up square root covers `n`, is positive for positive `n`, and
/// is at most `2^42` below `2^84`.
pub proof fn lemma_ceil_sqrt(n: nat)
    ensures
        n <= ceil_sqrt(n) * ceil_sqrt(n),
        n > 0 ==> ceil_sqrt(n) >= 1,
        n < 0x10_0000_0000_0000_0000_0000 ==> ceil_sqrt(n) <= 0x400_0000_0000,
{
    lemma_floor_sqrt_exists(n);
    let f = floor_sqrt(n) as int;
    if f * f != n {
        assert(n <= (f + 1) * (f + 1));
    }
    if n > 0 && f == 0 {
        assert(f * f == 0);
    }
    if n < 0x10_0000_0000_0000_0000_0000 && f >= 0x400_0000_0000 {
        lemma_square_monotone(0x400_0000_0000, f);
    }
}

/// No smaller natural number than the rounded-up square root has a square
/// that covers `n`.
pub proof fn lemma_ceil_sqrt_least(n: nat, m: int)
    requires
        0 <= m,
        n <= m * m,
    ensures
        ceil_sqrt(n) <= m,
{
    lemma_floor_sqrt_exists(n);
    let f = floor_sqrt(n) as int;
    if f * f == n {
        if m < f {
            lemma_square_monotone(m + 1, f);
            lemma_square_monotone(m, m + 1);
            assert(m * m < (m + 1) * (m + 1)) by (nonlinear_arith)
                requires
                    m >= 0,
            ;
        }
    } else {
        if m <= f {
            lemma_square_monotone(m, f);
        }
    }
}

/// Shift along one axis whose offset to the target is `d`: the offset scaled by
/// `travel / denom`, rounded toward zero.
pub open spec fn axis_shift(d: int, travel: int, denom: int) -> int {
    if d >= 0 {
        (d * travel) / denom
    } else {
        -(((-d) * travel) / denom)
    }
}

/// Coordinate `a` after one step toward `b`, where the squared distance to the
/// target is `dsq` and the step covers `travel` thousandths of a world unit.
/// Standing on the target is no movement; otherwise the step runs along the
/// offset normalised by the rounded-up distance, so that it never exceeds
/// `travel`.
pub open spec fn next_coord(a: int, b: int, dsq: int, travel: int) -> int {
    if dsq == 0 {
        a
    } else {
        a + axis_shift(b - a, travel, ceil_sqrt(dsq as nat) * MILLIS_PER_SECOND)
    }
}

/// The thousandths of a world unit covered at `speed` units per second in
/// `elapsed_ms` milliseconds.
pub open spec fn travel_of(speed: u32, elapsed_ms: u32) -> int {
    speed * elapsed_ms
}

/// Where a robot at `from` stands after one tick of steering toward `to`.
pub open spec fn stepped(from: Position, to: Position, speed: u32, elapsed_ms: u32) -> Position {
    let dsq = dist_sq(from, to);
    let travel = travel_of(speed, elapsed_ms);
    Position {
        x: next_coord(from.x as int, to.x as int, dsq, travel) as i64,
        y: next_coord(from.y as int, to.y as int, dsq, travel) as i64,
    }
}

/// An offset whose square does not exceed `c * c` is no longer than `c`.
proof fn lemma_offset_within(d: int, c: int)
    requires
        0 <= c,
        d * d <= c * c,
    ensures
        -c <= d <= c,
{
    if d > c {
        lemma_square_monotone(c + 1, d);
        lemma_square_monotone(c, c + 1);
        assert(c * c < (c + 1) * (c + 1)) by (nonlinear_arith)
            requires
                c >= 0,
        ;
    } else if -d > c {
        lemma_square_monotone(c + 1, -d);
        assert((-d) * (-d) == d * d) by (nonlinear_arith);
        assert(c * c < (c + 1) * (c + 1)) by (nonlinear_arith)
            requires
                c >= 0,
        ;
    }
}

/// Signed shift along one axis, as `axis_shift` states it.
fn axis_step(d: i64, travel: u64, len: u64) -> (s: i64)
    requires
        1 <= len <= 0x400_0000_0000,
        -(len as int) <= d <= len,
    ensures
        s == axis_shift(d as int, travel as int, len * MILLIS_PER_SECOND),
        -(travel / MILLIS_PER_SECOND) <= s <= travel / MILLIS_PER_SECOND,
{
    let m: u64 = if d >= 0 { d as u64 } else { (-d) as u64 };
    let denom: u128 = len as u128 * 1000;
    assert(m * travel <= len * travel) by {
        lemma_mul_inequality(m as int, len as int, travel as int);
    }
    assert(len * travel <= 0x400_0000_0000 * 0xffff_ffff_ffff_ffff) by {
        lemma_mul_inequality(len as int, 0x400_0000_0000, travel as int);
        lemma_mul_inequality(travel as int, 0xffff_ffff_ffff_ffff, 0x400_0000_0000);
    }
    let mag: u128 = m as u128 * travel as u128;
    let q: u128 = mag / denom;
    proof {
        lemma_div_is_ordered(mag as int, len * travel, denom as int);
        lemma_div_denominator((len * travel) as int, len as int, 1000);
        assert((len * travel) / (len as int) == travel as int) by {
            vstd::arithmetic::div_mod::lemma_div_multiples_vanish(travel as int, len as int);
        }
    }
    if d >= 0 {
        q as i64
    } else {
        -(q as i64)
    }
}

/// One tick of straight-line steering: the robot at `from` moves toward `to`
/// by `speed` units per second for `elapsed_ms` milliseconds, never further
/// than that. A robot already standing on its target does not move.
pub fn step_toward(from: Position, to: Position, speed: u32, elapsed_ms: u32) -> (r: Position)
    requires
        in_range(from),
        in_range(to),
    ensures
        r.x == next_coord(from.x as int, to.x as int, dist_sq(from, to), travel_of(speed, elapsed_ms)),
        r.y == next_coord(from.y as int, to.y as int, dist_sq(from, to), travel_of(speed, elapsed_ms)),
        r == stepped(from, to, speed, elapsed_ms),
        dist_sq(from, r) * 1_000_000 <= travel_of(speed, elapsed_ms) * travel_of(speed, elapsed_ms),
{
    proof {
        lemma_step_within_travel(from, to, speed, elapsed_ms);
    }
    let dsq: u128 = distance_sq(from, to);
    let dx: i64 = to.x - from.x;
    let dy: i64 = to.y - from.y;
    if dsq == 0 {
        return from;
    }
    let f: u64 = isqrt(dsq);
    let len: u64 = if f as u128 * f as u128 == dsq { f } else { f + 1 };
    proof {
        lemma_ceil_sqrt(dsq as nat);
        assert(len == ceil_sqrt(dsq as nat));
        assert(0 <= dx * dx) by (nonlinear_arith);
        assert(0 <= dy * dy) by (nonlinear_arith);
        lemma_offset_within(dx as int, len as int);
        lemma_offset_within(dy as int, len as int);
    }
    assert(speed * elapsed_ms <= 0xffff_ffff * 0xffff_ffff) by {
        lemma_mul_inequality(speed as int, 0xffff_ffff, elapsed_ms as int);
        lemma_mul_inequality(elapsed_ms as int, 0xffff_ffff, 0xffff_ffff);
    }
    let travel: u64 = speed as u64 * elapsed_ms as u64;
    let sx: i64 = axis_step(dx, travel, len);
    let sy: i64 = axis_step(dy, travel, len);
    Position { x: from.x + sx, y: from.y + sy }
}

/// Along one axis with offset `d`, the shift `s` is at most `|d| * travel`
/// shares of `denom`, has the sign of `d`, and its square is bounded
/// accordingly.
proof fn lemma_axis_shift_bound(d: int, travel: int, denom: int)
    requires
        denom > 0,
        travel >= 0,
    ensures
        ({
            let s = axis_shift(d, travel, denom);
            let a = if d >= 0 { d } else { -d };
            let q = if d >= 0 { s } else { -s };
            &&& 0 <= q
            &&& q * denom <= a * travel
            &&& a * travel < (q + 1) * denom
            &&& s * s * (denom * denom) <= d * d * (travel * travel)
        }),
{
    let a = if d >= 0 { d } else { -d };
    let q = (a * travel) / denom;
    assert(a * travel >= 0) by (nonlinear_arith)
        requires
            a >= 0,
            travel >= 0,
    ;
    lemma_fundamental_div_mod(a * travel, denom);
    vstd::arithmetic::div_mod::lemma_div_pos_is_pos(a * travel, denom);
    let r = (a * travel) % denom;
    assert(0 <= r < denom);
    assert(q * denom <= a * travel && a * travel < (q + 1) * denom) by (nonlinear_arith)
        requires
            a * travel == denom * q + r,
            0 <= r < denom,
    ;
    lemma_square_monotone(q * denom, a * travel);
    assert(q * q * (denom * denom) <= a * a * (travel * travel)) by (nonlinear_arith)
        requires
            (q * denom) * (q * denom) <= (a * travel) * (a * travel),
    ;
    assert(a * a == d * d) by (nonlinear_arith)
        requires
            a == d || a == -d,
    ;
    let s = axis_shift(d, travel, denom);
    assert(s * s == q * q) by (nonlinear_arith)
        requires
            s == q || s == -q,
    ;
}

/// A step never covers more than its travel: the squared length of the step,
/// in thousandths of a unit, is at most the squared travel.
pub proof fn lemma_step_within_travel(from: Position, to: Position, speed: u32, elapsed_ms: u32)
    requires
        in_range(from),
        in_range(to),
    ensures
        dist_sq(from, stepped(from, to, speed, elapsed_ms)) * 1_000_000 <= travel_of(speed, elapsed_ms)
            * travel_of(speed, elapsed_ms),
        -0x80_0000_0000_0000 <= next_coord(from.x as int, to.x as int, dist_sq(from, to), travel_of(speed, elapsed_ms))
            - from.x <= 0x80_0000_0000_0000,
        -0x80_0000_0000_0000 <= next_coord(from.y as int, to.y as int, dist_sq(from, to), travel_of(speed, elapsed_ms))
            - from.y <= 0x80_0000_0000_0000,
{
    let dsq = dist_sq(from, to);
    let t = travel_of(speed, elapsed_ms);
    assert(0 <= t <= 0xffff_ffff * 0xffff_ffff) by {
        lemma_mul_inequality(speed as int, 0xffff_ffff, elapsed_ms as int);
        lemma_mul_inequality(elapsed_ms as int, 0xffff_ffff, 0xffff_ffff);
    }
    assert(0 <= t * t) by (nonlinear_arith);
    let dx = to.x - from.x;
    let dy = to.y - from.y;
    assert(0 <= dx * dx && 0 <= dy * dy) by (nonlinear_arith);
    if dsq != 0 {
        lemma_ceil_sqrt(dsq as nat);
        let c = ceil_sqrt(dsq as nat) as int;
        let den = c * 1000;
        lemma_axis_shift_bound(dx, t, den);
        lemma_axis_shift_bound(dy, t, den);
        let sx = axis_shift(dx, t, den);
        let sy = axis_shift(dy, t, den);
        lemma_offset_within(dx, c);
        lemma_offset_within(dy, c);
        // each shift is at most travel / 1000
        assert(-t <= sx * 1000 <= t) by (nonlinear_arith)
            requires
                c >= 1,
                den == c * 1000,
                -c <= dx <= c,
                t >= 0,
                (if dx >= 0 { sx } else { -sx }) * den <= (if dx >= 0 { dx } else { -dx }) * t,
                0 <= (if dx >= 0 { sx } else { -sx }),
        ;
        assert(-t <= sy * 1000 <= t) by (nonlinear_arith)
            requires
                c >= 1,
                den == c * 1000,
                -c <= dy <= c,
                t >= 0,
                (if dy >= 0 { sy } else { -sy }) * den <= (if dy >= 0 { dy } else { -dy }) * t,
                0 <= (if dy >= 0 { sy } else { -sy }),
        ;
        assert((sx * sx + sy * sy) * 1_000_000 <= t * t) by (nonlinear_arith)
            requires
                c >= 1,
                den == c * 1000,
                sx * sx * (den * den) <= dx * dx * (t * t),
                sy * sy * (den * den) <= dy * dy * (t * t),
                dx * dx + dy * dy <= c * c,
                t * t >= 0,
        ;
        let st = stepped(from, to, speed, elapsed_ms);
        assert(next_coord(from.x as int, to.x as int, dsq, t) == from.x + sx);
        assert(next_coord(from.y as int, to.y as int, dsq, t) == from.y + sy);
        assert(st.x == from.x + sx);
        assert(st.y == from.y + sy);
        assert(dist_sq(from, st) == sx * sx + sy * sy);
    } else {
        assert(stepped(from, to, speed, elapsed_ms) == from);
        assert(dist_sq(from, from) == 0) by (nonlinear_arith);
    }
}

/// Along one axis, a step shorter than twice the rounded-up distance never
/// moves away from the target, and moves strictly closer once the offset is
/// at least half that distance and the travel at least two units.
proof fn lemma_axis_closer(d: int, travel: int, c: int)
    requires
        c >= 1,
        0 <= travel < 2000 * c,
    ensures
        ({
            let e = d - axis_shift(d, travel, c * 1000);
            &&& e * e <= d * d
            &&& (2 * d >= c || -2 * d >= c) && travel >= 2000 ==> e * e < d * d
        }),
{
    let den = c * 1000;
    lemma_axis_shift_bound(d, travel, den);
    let s = axis_shift(d, travel, den);
    let a = if d >= 0 { d } else { -d };
    let q = if d >= 0 { s } else { -s };
    let e = d - s;
    assert(e * e == (a - q) * (a - q)) by (nonlinear_arith)
        requires
            (d >= 0 && a == d && q == s) || (d < 0 && a == -d && q == -s),
            e == d - s,
    ;
    assert(a * a == d * d) by (nonlinear_arith)
        requires
            a == d || a == -d,
    ;
    assert(q <= 2 * a && (a > 0 ==> q < 2 * a)) by (nonlinear_arith)
        requires
            a >= 0,
            q >= 0,
            q * den <= a * travel,
            travel < 2000 * c,
            den == c * 1000,
            c >= 1,
    ;
    if q > 0 {
        assert((a - q) * (a - q) < a * a) by (nonlinear_arith)
            requires
                0 < q < 2 * a,
        ;
    }
    if 2 * a >= c && travel >= 2000 {
        assert(q >= 1) by (nonlinear_arith)
            requires
                a * travel < (q + 1) * den,
                den == c * 1000,
                2 * a >= c,
                travel >= 2000,
                c >= 1,
                q >= 0,
        ;
    }
}

/// A robot that is not yet on its target and travels at least two units, but
/// less than twice its distance, ends strictly closer to the target.
pub proof fn lemma_step_approaches(from: Position, to: Position, speed: u32, elapsed_ms: u32)
    requires
        in_range(from),
        in_range(to),
        dist_sq(from, to) > 0,
        2000 <= travel_of(speed, elapsed_ms),
        travel_of(speed, elapsed_ms) * travel_of(speed, elapsed_ms) < 4_000_000 * dist_sq(from, to),
    ensures
        dist_sq(stepped(from, to, speed, elapsed_ms), to) < dist_sq(from, to),
{
    lemma_step_within_travel(from, to, speed, elapsed_ms);
    let dsq = dist_sq(from, to);
    let t = travel_of(speed, elapsed_ms);
    lemma_ceil_sqrt(dsq as nat);
    let c = ceil_sqrt(dsq as nat) as int;
    assert(t < 2000 * c) by {
        if t >= 2000 * c {
            lemma_square_monotone(2000 * c, t);
            assert(4_000_000 * dsq <= (2000 * c) * (2000 * c)) by (nonlinear_arith)
                requires
                    dsq <= c * c,
            ;
        }
    }
    let dx = to.x - from.x;
    let dy = to.y - from.y;
    lemma_axis_closer(dx, t, c);
    lemma_axis_closer(dy, t, c);
    // one axis carries at least half the distance
    assert(4 * (dx * dx) >= dsq || 4 * (dy * dy) >= dsq) by (nonlinear_arith)
        requires
            dsq == dx * dx + dy * dy,
            dsq > 0,
    ;
    if 4 * (dx * dx) >= dsq {
        let a = if dx >= 0 { dx } else { -dx };
        assert((2 * a) * (2 * a) == 4 * (dx * dx)) by (nonlinear_arith)
            requires
                a == dx || a == -dx,
        ;
        lemma_ceil_sqrt_least(dsq as nat, 2 * a);
    } else {
        let a = if dy >= 0 { dy } else { -dy };
        assert((2 * a) * (2 * a) == 4 * (dy * dy)) by (nonlinear_arith)
            requires
                a == dy || a == -dy,
        ;
        lemma_ceil_sqrt_least(dsq as nat, 2 * a);
    }
    let nx = next_coord(from.x as int, to.x as int, dsq, t);
    let ny = next_coord(from.y as int, to.y as int, dsq, t);
    assert(to.x - nx == dx - axis_shift(dx, t, c * 1000));
    assert(to.y - ny == dy - axis_shift(dy, t, c * 1000));
    let st = stepped(from, to, speed, elapsed_ms);
    assert(st.x == nx && st.y == ny);
    assert(dist_sq(st, to) == (to.x - nx) * (to.x - nx) + (to.y - ny) * (to.y - ny));
}

/// With no elapsed time a robot stays where it is, whatever its target.
pub proof fn lemma_zero_time_no_move(from: Position, to: Position, speed: u32)
    ensures
        stepped(from, to, speed, 0) == from,
{
    let dsq = dist_sq(from, to);
    if dsq != 0 {
        assert(dsq >= 0) by (nonlinear_arith)
            requires
                dsq == (to.x - from.x) * (to.x - from.x) + (to.y - from.y) * (to.y - from.y),
        ;
        lemma_ceil_sqrt(dsq as nat);
        let denom = ceil_sqrt(dsq as nat) * MILLIS_PER_SECOND;
        assert(travel_of(speed, 0) == 0);
        assert((to.x - from.x) * 0 == 0);
        assert((to.y - from.y) * 0 == 0);
        assert(-(to.x - from.x) * 0 == 0);
        assert(-(to.y - from.y) * 0 == 0);
        assert(0int / denom == 0);
    }
}

} // verus!
