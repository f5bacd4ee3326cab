use vstd::prelude::*;

verus! {

/// Where the second of two vectors lies relative to the first, both
/// starting at the same point.
#[derive(Clone, Copy, Debug, PartialEq, Eq, Structural)]
pub enum Orientation {
    /// The second vector turns clockwise from the first: its slope is smaller.
    Clockwise,
    /// The second vector turns anticlockwise from the first: its slope is larger.
    AntiClockwise,
    /// Both vectors lie on one line.
    Colinear,
}

/// The cross product `p1.y * p2.x - p2.y * p1.x` of two vectors given as `(x, y)`.
pub open spec fn cross(p1: (int, int), p2: (int, int)) -> int {
    p1.1 * p2.0 - p2.1 * p1.0
}

/// The orientation of `p2` relative to `p1`, decided by the sign of their cross product.
pub open spec fn orientation_of(p1: (int, int), p2: (int, int)) -> Orientation {
    let c = cross(p1, p2);
    if c > 0 {
        Orientation::Clockwise
    } else if c < 0 {
        Orientation::AntiClockwise
    } else {
        Orientation::Colinear
    }
}

/// The limit, exclusive, on the magnitude of a vector's coordinates.
pub open spec fn coordinate_limit() -> int {
    0x4_0000_0000_0000_0000
}

/// The sign of an integer as -1, 0 or 1.
pub open spec fn sign_of(x: int) -> int {
    if x > 0 {
        1
    } else if x < 0 {
        -1
    } else {
        0
    }
}

proof fn lemma_split_product(a: int, b: int, a1: int, a0: int, b1: int, b0: int, q: int, r: int)
    by (nonlinear_arith)
    requires
        a == a1 * 0x1_0000_0000_0000_0000 + a0,
        b == b1 * 0x1_0000_0000_0000_0000 + b0,
        a0 * b0 == q * 0x1_0000_0000_0000_0000 + r,
    ensures
        a * b == (a1 * b1 * 0x1_0000_0000_0000_0000 + a1 * b0 + a0 * b1 + q)
            * 0x1_0000_0000_0000_0000 + r,
{
}

proof fn lemma_bounded_products(a1: int, a0: int, b1: int, b0: int)
    by (nonlinear_arith)
    requires
        0 <= a1 < 4,
        0 <= b1 < 4,
        0 <= a0 < 0x1_0000_0000_0000_0000,
        0 <= b0 < 0x1_0000_0000_0000_0000,
    ensures
        0 <= a0 * b0 < 0x1_0000_0000_0000_0000 * 0x1_0000_0000_0000_0000,
        0 <= a1 * b1 < 16,
        0 <= a1 * b0 < 4 * 0x1_0000_0000_0000_0000,
        0 <= a0 * b1 < 4 * 0x1_0000_0000_0000_0000,
{
}

/// `a * b` as its quotient and remainder by 2^64.
fn wide_mul(a: u128, b: u128) -> (r: (u128, u128))
    requires
        a < coordinate_limit(),
        b < coordinate_limit(),
    ensures
        r.1 < 0x1_0000_0000_0000_0000,
        r.0 * 0x1_0000_0000_0000_0000 + r.1 == a * b,
{
    let base: u128 = 0x1_0000_0000_0000_0000;
    let a1 = a / base;
    let a0 = a % base;
    let b1 = b / base;
    let b0 = b % base;
    proof {
        lemma_bounded_products(a1 as int, a0 as int, b1 as int, b0 as int);
    }
    let low = a0 * b0;
    let hi = a1 * b1 * base + a1 * b0 + a0 * b1 + low / base;
    proof {
        lemma_split_product(
            a as int,
            b as int,
            a1 as int,
            a0 as int,
            b1 as int,
            b0 as int,
            (low / base) as int,
            (low % base) as int,
        );
    }
    (hi, low % base)
}

proof fn lemma_compare_split(h1: int, l1: int, h2: int, l2: int)
    by (nonlinear_arith)
    requires
        0 <= l1 < 0x1_0000_0000_0000_0000,
        0 <= l2 < 0x1_0000_0000_0000_0000,
    ensures
        h1 > h2 ==> h1 * 0x1_0000_0000_0000_0000 + l1 > h2 * 0x1_0000_0000_0000_0000 + l2,
        h1 < h2 ==> h1 * 0x1_0000_0000_0000_0000 + l1 < h2 * 0x1_0000_0000_0000_0000 + l2,
{
}

/// The sign of `a * b - c * d`.
fn compare_products(a: u128, b: u128, c: u128, d: u128) -> (r: i8)
    requires
        a < coordinate_limit(),
        b < coordinate_limit(),
        c < coordinate_limit(),
        d < coordinate_limit(),
    ensures
        r == sign_of(a * b - c * d),
{
    let (h1, l1) = wide_mul(a, b);
    let (h2, l2) = wide_mul(c, d);
    proof {
        lemma_compare_split(h1 as int, l1 as int, h2 as int, l2 as int);
    }
    if h1 > h2 {
        1
    } else if h1 < h2 {
        -1
    } else if l1 > l2 {
        1
    } else if l1 < l2 {
        -1
    } else {
        0
    }
}

proof fn lemma_product_positive(m: int, n: int)
    by (nonlinear_arith)
    requires
        m >= 0,
        n >= 0,
    ensures
        m * n >= 0,
        m * n > 0 <==> (m > 0 && n > 0),
{
}

/// The magnitude of a coordinate.
fn magnitude(y: i128) -> (r: u128)
    requires
        -coordinate_limit() < y < coordinate_limit(),
    ensures
        r == (if y < 0 { -(y as int) } else { y as int }),
        r < coordinate_limit(),
{
    if y < 0 {
        (-y) as u128
    } else {
        y as u128
    }
}

/// The orientation of `p2` relative to `p1`, for vectors given as
/// `(x, y)` with a nonnegative `x`, computed exactly.
pub fn compute_orientation(p1: (u64, i128), p2: (u64, i128)) -> (r: Orientation)
    requires
        -coordinate_limit() < p1.1 < coordinate_limit(),
        -coordinate_limit() < p2.1 < coordinate_limit(),
    ensures
        r == orientation_of((p1.0 as int, p1.1 as int), (p2.0 as int, p2.1 as int)),
{
    let m1 = magnitude(p1.1);
    let m2 = magnitude(p2.1);
    let b = p2.0 as u128;
    let d = p1.0 as u128;
    let ghost x = p1.1 * p2.0;
    let ghost y = p2.1 * p1.0;
    proof {
        lemma_product_positive(m1 as int, b as int);
        lemma_product_positive(m2 as int, d as int);
        assert(p1.1 >= 0 ==> x == m1 * b);
        assert(p1.1 < 0 ==> x == -(m1 * b)) by (nonlinear_arith)
            requires
                p1.1 < 0 ==> m1 == -p1.1,
                x == p1.1 * p2.0,
                b == p2.0,
        ;
        assert(p2.1 < 0 ==> y == -(m2 * d)) by (nonlinear_arith)
            requires
                p2.1 < 0 ==> m2 == -p2.1,
                y == p2.1 * p1.0,
                d == p1.0,
        ;
    }
    let s: i8 = if p1.1 >= 0 && p2.1 >= 0 {
        compare_products(m1, b, m2, d)
    } else if p1.1 < 0 && p2.1 < 0 {
        compare_products(m2, d, m1, b)
    } else if p1.1 >= 0 {
        if (m1 > 0 && b > 0) || d > 0 {
            1
        } else {
            0
        }
    } else {
        if b > 0 || (m2 > 0 && d > 0) {
            -1
        } else {
            0
        }
    };
    if s > 0 {
        Orientation::Clockwise
    } else if s < 0 {
        Orientation::AntiClockwise
    } else {
        Orientation::Colinear
    }
}

} // verus!
