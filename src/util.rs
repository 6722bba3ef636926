use vstd::prelude::*;
use vstd::arithmetic::div_mod::{lemma_fundamental_div_mod, lemma_fundamental_div_mod_converse};
use vstd::arithmetic::mul::lemma_mul_is_commutative;

verus! {

/// The distance between two integers: `|x - y|`.
pub open spec fn spec_abs_diff(x: int, y: int) -> int {
    if x < y { y - x } else { x - y }
}

/// Bounds a value to the closed range `[min, max]`.
pub trait Clip: Sized {
    fn clip(self, min: Self, max: Self) -> Self;
}

impl Clip for i32 {
    fn clip(self, min: i32, max: i32) -> (r: i32)
        ensures
            r == (if self < min { min } else if self > max { max } else { self }),
    {
        if self < min {
            return min;
        }
        if self > max {
            return max;
        }
        self
    }
}

impl Clip for usize {
    fn clip(self, min: usize, max: usize) -> (r: usize)
        ensures
            r == (if self < min { min } else if self > max { max } else { self }),
    {
        if self < min {
            return min;
        }
        if self > max {
            return max;
        }
        self
    }
}

/// Wraps a value into the period `[0, period)`.
pub trait CyclicClip: Sized {
    fn cyclic_clip(self, period: Self) -> Self;
}

impl CyclicClip for usize {
    fn cyclic_clip(self, period: usize) -> (r: usize)
        ensures
            period > 0 ==> r as int == self as int % period as int,
            period == 0 ==> r == self,
    {
        if period == 0 {
            return self;
        }
        self % period
    }
}

impl CyclicClip for i32 {
    fn cyclic_clip(self, period: i32) -> (r: i32)
        ensures
            period > 0 ==> r as int == self as int % period as int,
            period <= 0 ==> r == self,
    {
        if period <= 0 {
            return self;
        }
        let p: u64 = period as u64;
        if self >= 0 {
            ((self as u64) % p) as i32
        } else {
            let q: u64 = ((-(self as i64)) as u64) % p;
            proof {
                let x = self as int;
                let pi = p as int;
                assert(q as int == (-x) % pi);
                let k = (-x) / pi;
                lemma_fundamental_div_mod(-x, pi);
                lemma_mul_is_commutative(pi, k);
                if q == 0 {
                    assert(x == (-k) * pi + 0) by (nonlinear_arith)
                        requires -x == pi * k + q, q == 0;
                    lemma_fundamental_div_mod_converse(x, pi, -k, 0);
                } else {
                    assert(x == (-k - 1) * pi + (pi - q)) by (nonlinear_arith)
                        requires -x == pi * k + q;
                    lemma_fundamental_div_mod_converse(x, pi, -k - 1, pi - q);
                }
            }
            if q == 0 {
                0
            } else {
                (p - q) as i32
            }
        }
    }
}

/// The row-major index of a cell lies within the buffer.
pub proof fn lemma_cell_index(w: int, h: int, x: int, y: int)
    requires
        0 <= x < w,
        0 <= y < h,
    ensures
        0 <= y * w + x < w * h,
{
    assert(0 <= y * w + x < w * h) by (nonlinear_arith)
        requires
            0 <= x < w,
            0 <= y < h,
    ;
}

/// Distinct cells have distinct row-major indices.
pub proof fn lemma_cell_index_distinct(w: int, x1: int, y1: int, x2: int, y2: int)
    requires
        0 <= x1 < w,
        0 <= x2 < w,
        0 <= y1,
        0 <= y2,
        y1 * w + x1 == y2 * w + x2,
    ensures
        x1 == x2,
        y1 == y2,
{
    assert(x1 == x2 && y1 == y2) by (nonlinear_arith)
        requires
            0 <= x1 < w,
            0 <= x2 < w,
            0 <= y1,
            0 <= y2,
            y1 * w + x1 == y2 * w + x2,
    ;
}

/// The distance between two integers.
pub fn abs_diff(x: i32, y: i32) -> (r: u32)
    ensures
        r as int == spec_abs_diff(x as int, y as int),
{
    if x < y {
        (y as i64 - x as i64) as u32
    } else {
        (x as i64 - y as i64) as u32
    }
}

} // verus!
