//! Fixed-point points and the integer arithmetic the engine rests on.

use vstd::prelude::*;

verus! {

/// Number of coordinate steps in one world unit.
pub const UNIT: i32 = 1024;

/// A point or an offset in the plane, in coordinate steps.
#[derive(Clone, Copy, Debug, PartialEq, Eq, Structural)]
pub struct Pt {
    pub x: i32,
    pub y: i32,
}

/// The coordinate nearest to `v`: `v` itself where it fits, else the edge of
/// the coordinate range on its side.
pub open spec fn clamp_coord(v: int) -> int {
    if v < i32::MIN {
        i32::MIN as int
    } else if v > i32::MAX {
        i32::MAX as int
    } else {
        v
    }
}

/// `base` moved by `(dx, dy)`, each coordinate stopping at the edge of the
/// coordinate range.
pub open spec fn shifted(base: Pt, dx: int, dy: int) -> Pt {
    Pt { x: clamp_coord(base.x + dx) as i32, y: clamp_coord(base.y + dy) as i32 }
}

/// `d` is the integer part of the square root of `s`.
pub open spec fn is_floor_sqrt(s: int, d: int) -> bool {
    0 <= d && d * d <= s && s < (d + 1) * (d + 1)
}

/// The integer part of the square root of `s`.
pub open spec fn floor_sqrt(s: int) -> int {
    choose|d: int| is_floor_sqrt(s, d)
}

/// Squaring is monotone on the naturals.
pub proof fn lemma_square_monotone(a: int, b: int)
    requires
        0 <= a <= b,
    ensures
        a * a <= b * b,
{
    assert(a * a <= b * b) by (nonlinear_arith)
        requires
            0 <= a <= b,
    ;
}

/// A natural number has at most one integer square root.
pub proof fn lemma_floor_sqrt_unique(s: int, d1: int, d2: int)
    requires
        is_floor_sqrt(s, d1),
        is_floor_sqrt(s, d2),
    ensures
        d1 == d2,
{
    if d1 < d2 {
        lemma_square_monotone(d1 + 1, d2);
    } else if d2 < d1 {
        lemma_square_monotone(d2 + 1, d1);
    }
}

/// Whatever satisfies `is_floor_sqrt` is the value of `floor_sqrt`.
pub proof fn lemma_floor_sqrt_is(s: int, d: int)
    requires
        is_floor_sqrt(s, d),
    ensures
        floor_sqrt(s) == d,
{
    lemma_floor_sqrt_unique(s, d, floor_sqrt(s));
}

/// Every natural number has an integer square root.
pub proof fn lemma_floor_sqrt_exists(s: int)
    requires
        0 <= s,
    ensures
        is_floor_sqrt(s, floor_sqrt(s)),
    decreases s,
{
    if s == 0 {
        assert(is_floor_sqrt(0, 0));
    } else {
        lemma_floor_sqrt_exists(s - 1);
        let d = floor_sqrt(s - 1);
        if (d + 1) * (d + 1) <= s {
            assert((d + 2) * (d + 2) > (d + 1) * (d + 1)) by (nonlinear_arith)
                requires
                    0 <= d,
            ;
            assert(is_floor_sqrt(s, d + 1));
        } else {
            assert(is_floor_sqrt(s, d));
        }
    }
}

/// Integer square root, by bisection.
pub fn isqrt(s: u128) -> (d: u64)
    ensures
        is_floor_sqrt(s as int, d as int),
        d as int == floor_sqrt(s as int),
{
    let mut lo: u128 = 0;
    let mut hi: u128 = 0x1_0000_0000_0000_0000;
    assert(0x1_0000_0000_0000_0000int * 0x1_0000_0000_0000_0000int > u128::MAX);
    while hi - lo > 1
        invariant
            lo < hi <= 0x1_0000_0000_0000_0000,
            lo * lo <= s,
            s < hi * hi,
        decreases hi - lo,
    {
        let mid: u128 = lo + (hi - lo) / 2;
        assert(mid * mid <= 0xffff_ffff_ffff_ffffint * 0xffff_ffff_ffff_ffffint) by {
            lemma_square_monotone(mid as int, 0xffff_ffff_ffff_ffffint);
        }
        assert(0xffff_ffff_ffff_ffffint * 0xffff_ffff_ffff_ffffint <= u128::MAX);
        if mid * mid <= s {
            lo = mid;
        } else {
            hi = mid;
        }
    }
    proof {
        assert(hi == lo + 1);
        lemma_floor_sqrt_is(s as int, lo as int);
    }
    lo as u64
}

/// Brings a wide integer into the coordinate range.
pub fn clamp_to_coord(v: i128) -> (c: i32)
    ensures
        c as int == clamp_coord(v as int),
{
    if v < i32::MIN as i128 {
        i32::MIN
    } else if v > i32::MAX as i128 {
        i32::MAX
    } else {
        v as i32
    }
}

/// A coordinate moved by `delta`, kept inside the coordinate range.
pub fn move_coord(v: i32, delta: i128) -> (c: i32)
    ensures
        c as int == clamp_coord(v + delta),
{
    if delta > 0x1_0000_0000 {
        i32::MAX
    } else if delta < -0x1_0000_0000 {
        i32::MIN
    } else {
        clamp_to_coord(v as i128 + delta)
    }
}

impl Pt {
    pub fn new(x: i32, y: i32) -> (p: Pt)
        ensures
            p == (Pt { x, y }),
    {
        Pt { x, y }
    }

    /// The origin, which is also the null offset.
    pub fn zero() -> (p: Pt)
        ensures
            p == (Pt { x: 0, y: 0 }),
    {
        Pt { x: 0, y: 0 }
    }

    /// This point moved by `(dx, dy)`, kept inside the coordinate range.
    pub fn shifted(self, dx: i128, dy: i128) -> (p: Pt)
        ensures
            p == shifted(self, dx as int, dy as int),
    {
        Pt { x: move_coord(self.x, dx), y: move_coord(self.y, dy) }
    }
}

} // verus!
