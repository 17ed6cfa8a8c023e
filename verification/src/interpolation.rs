//! One linear interpolation window ("line") between two values over a fixed
//! time length, with the overflow-carrying sampling contract that lets a
//! sequence of lines be played back to back without losing time.

use vstd::prelude::*;
use vstd::arithmetic::div_mod::{lemma_div_basics, lemma_div_is_ordered, lemma_div_multiples_vanish};
use vstd::arithmetic::mul::lemma_mul_inequality;

verus! {

/// A four-lane fixed-point value: enough lanes for a translation or scale
/// (three used) or a quaternion (all four, interpolated component-wise).
#[derive(Clone, Copy, Debug, PartialEq, Eq, Structural)]
pub struct Vec4 {
    pub x: i32,
    pub y: i32,
    pub z: i32,
    pub w: i32,
}

impl Vec4 {
    pub fn new(x: i32, y: i32, z: i32, w: i32) -> (r: Vec4)
        ensures
            r == (Vec4 { x, y, z, w }),
    {
        Vec4 { x, y, z, w }
    }
}

/// Mathematical one-lane interpolation: the convex combination of `s` and `e`
/// proportional to `t / l`, rounded towards `s`. Both divisions are on
/// non-negative dividends, so they agree with the machine division.
pub open spec fn lerp1(s: int, e: int, t: int, l: int) -> int
    recommends
        0 < l,
        0 <= t <= l,
{
    if e >= s {
        s + (e - s) * t / l
    } else {
        s - (s - e) * t / l
    }
}

/// Component-wise interpolation of the four lanes.
pub open spec fn lerp4(s: Vec4, e: Vec4, t: int, l: int) -> Vec4
    recommends
        0 < l,
        0 <= t <= l,
{
    Vec4 {
        x: lerp1(s.x as int, e.x as int, t, l) as i32,
        y: lerp1(s.y as int, e.y as int, t, l) as i32,
        z: lerp1(s.z as int, e.z as int, t, l) as i32,
        w: lerp1(s.w as int, e.w as int, t, l) as i32,
    }
}

/// The interpolated lane stays between its endpoints.
pub proof fn lemma_lerp1_bounds(s: int, e: int, t: int, l: int)
    requires
        0 < l,
        0 <= t <= l,
    ensures
        e >= s ==> s <= lerp1(s, e, t, l) <= e,
        e < s ==> e <= lerp1(s, e, t, l) <= s,
{
    if e >= s {
        lemma_lerp1_quotient_bounds(e - s, t, l);
    } else {
        lemma_lerp1_quotient_bounds(s - e, t, l);
    }
}

/// For a non-negative difference `d`, the quotient `d * t / l` lies in `[0, d]`.
proof fn lemma_lerp1_quotient_bounds(d: int, t: int, l: int)
    requires
        0 <= d,
        0 < l,
        0 <= t <= l,
    ensures
        0 <= d * t / l <= d,
{
    lemma_mul_inequality(0, t, d);
    vstd::arithmetic::mul::lemma_mul_is_commutative(t, d);
    vstd::arithmetic::mul::lemma_mul_is_commutative(l, d);
    lemma_mul_inequality(t, l, d);
    lemma_div_is_ordered(0, d * t, l);
    lemma_div_is_ordered(d * t, d * l, l);
    lemma_div_multiples_vanish(d, l);
    assert(l * d == d * l) by {
        vstd::arithmetic::mul::lemma_mul_is_commutative(l, d);
    }
}

/// Sampling at local time `0` yields the start value; sampling at the full
/// window length yields the end value.
pub proof fn lemma_lerp1_endpoints(s: int, e: int, l: int)
    requires
        0 < l,
    ensures
        lerp1(s, e, 0, l) == s,
        lerp1(s, e, l, l) == e,
{
    lemma_div_basics(l);
    if e >= s {
        lemma_div_multiples_vanish(e - s, l);
        assert(l * (e - s) == (e - s) * l) by {
            vstd::arithmetic::mul::lemma_mul_is_commutative(l, e - s);
        }
    } else {
        lemma_div_multiples_vanish(s - e, l);
        assert(l * (s - e) == (s - e) * l) by {
            vstd::arithmetic::mul::lemma_mul_is_commutative(l, s - e);
        }
    }
}

/// The difference between two lanes times a time fits well inside 128 bits.
proof fn lemma_lane_product_fits(d: int, t: int)
    requires
        0 <= d <= 4294967295,
        0 <= t <= 18446744073709551615,
    ensures
        d * t <= 4294967295 * 18446744073709551615,
{
    lemma_mul_inequality(t, 18446744073709551615, d);
    vstd::arithmetic::mul::lemma_mul_is_commutative(t, d);
    vstd::arithmetic::mul::lemma_mul_is_commutative(18446744073709551615, d);
}

/// One-lane interpolation on machine integers.
fn lerp1_exec(s: i32, e: i32, t: u64, l: u64) -> (r: i32)
    requires
        1 <= l,
        t <= l,
    ensures
        r as int == lerp1(s as int, e as int, t as int, l as int),
{
    proof {
        lemma_lerp1_bounds(s as int, e as int, t as int, l as int);
    }
    if e >= s {
        let d: u64 = (e as i64 - s as i64) as u64;
        proof {
            lemma_lerp1_quotient_bounds(d as int, t as int, l as int);
            lemma_lane_product_fits(d as int, t as int);
        }
        let q: u64 = ((d as u128 * t as u128) / (l as u128)) as u64;
        (s as i64 + q as i64) as i32
    } else {
        let d: u64 = (s as i64 - e as i64) as u64;
        proof {
            lemma_lerp1_quotient_bounds(d as int, t as int, l as int);
            lemma_lane_product_fits(d as int, t as int);
        }
        let q: u64 = ((d as u128 * t as u128) / (l as u128)) as u64;
        (s as i64 - q as i64) as i32
    }
}

/// One interpolation segment: over local times `0 ..= length` it yields the
/// convex combination of `start` and `end`; past `length` it reports by how
/// much the caller overshot, so playback can carry the remainder into the
/// next segment with no time lost or duplicated.
#[derive(Clone, Copy, Debug)]
pub struct Line {
    pub length: u64,
    pub start: Vec4,
    pub end: Vec4,
}

impl Line {
    /// A segment window must have a positive length: a zero-length window
    /// has no defined slope, and authoring is expected to reject it.
    pub open spec fn wf(self) -> bool {
        1 <= self.length
    }

    pub fn new(length: u64, start: Vec4, end: Vec4) -> (r: Line)
        requires
            1 <= length,
        ensures
            r == (Line { length, start, end }),
            r.wf(),
    {
        Line { length, start, end }
    }

    /// Sample the segment at local time `x`: the interpolated value while
    /// `x` is inside the window, otherwise the overshoot `x - length`.
    pub fn sample(&self, x: u64) -> (r: Result<Vec4, u64>)
        requires
            self.wf(),
        ensures
            x <= self.length ==> r == Ok::<Vec4, u64>(
                lerp4(self.start, self.end, x as int, self.length as int),
            ),
            x > self.length ==> r == Err::<Vec4, u64>((x - self.length) as u64),
    {
        if self.length < x {
            return Err(x - self.length);
        }
        Ok(Vec4 {
            x: lerp1_exec(self.start.x, self.end.x, x, self.length),
            y: lerp1_exec(self.start.y, self.end.y, x, self.length),
            z: lerp1_exec(self.start.z, self.end.z, x, self.length),
            w: lerp1_exec(self.start.w, self.end.w, x, self.length),
        })
    }

    pub fn len(&self) -> (r: u64)
        ensures
            r == self.length,
    {
        self.length
    }
}

/// Sampling a segment at its two window ends gives back its two endpoint
/// values exactly, and any overshoot `eps > 0` is reported unchanged.
pub proof fn lemma_sample_endpoints(line: Line)
    requires
        line.wf(),
    ensures
        lerp4(line.start, line.end, 0, line.length as int) == line.start,
        lerp4(line.start, line.end, line.length as int, line.length as int) == line.end,
{
    lemma_lerp1_endpoints(line.start.x as int, line.end.x as int, line.length as int);
    lemma_lerp1_endpoints(line.start.y as int, line.end.y as int, line.length as int);
    lemma_lerp1_endpoints(line.start.z as int, line.end.z as int, line.length as int);
    lemma_lerp1_endpoints(line.start.w as int, line.end.w as int, line.length as int);
}

} // verus!
