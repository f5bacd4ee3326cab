use vstd::prelude::*;

verus! {

use crate::orientation::{Orientation, orientation_of, cross};

/// The keys are in nondecreasing order.
pub open spec fn sorted(keys: Seq<u64>) -> bool {
    forall|i: int, j: int| 0 <= i <= j < keys.len() ==> keys[i] <= keys[j]
}

/// Index `j` holds the first occurrence of its key.
pub open spec fn is_first(keys: Seq<u64>, j: int) -> bool {
    0 <= j < keys.len() && (j == 0 || keys[j - 1] != keys[j])
}

/// The slope of `a` is at most that of `b`, for vectors `(x, y)` with a positive `x`.
pub open spec fn slope_le(a: (int, int), b: (int, int)) -> bool {
    a.1 * b.0 <= b.1 * a.0
}

/// The vector from the spline point `s` to the point `(x, y)`.
pub open spec fn rel(s: (u64, usize), x: u64, y: int) -> (int, int) {
    (x - s.0, y - s.1)
}

/// The top of the error corridor around position `p`.
pub open spec fn upper_y(p: int, err: u64) -> int {
    p + err
}

/// The bottom of the error corridor around position `p`, never below 0.
pub open spec fn lower_y(p: int, err: u64) -> int {
    if p >= err {
        p - err
    } else {
        0
    }
}

/// The line through the spline points `s` and `t`, evaluated at key `x`,
/// lies within `err` of position `p` (stated with the division multiplied out).
pub open spec fn fits(s: (u64, usize), t: (u64, usize), x: u64, p: int, err: u64) -> bool {
    let d = t.0 - s.0;
    let n = (t.1 - s.1) * (x - s.0);
    (p - err - s.1) * d <= n && n <= (p + err - s.1) * d
}

/// Every key that first occurs after `s` and no later than `t` is within
/// `err` of the segment from `s` to `t`.
pub open spec fn segment_fits(s: (u64, usize), t: (u64, usize), keys: Seq<u64>, err: u64) -> bool {
    forall|j: int|
        #![trigger is_first(keys, j)]
        is_first(keys, j) && s.0 < keys[j] <= t.0 ==> fits(s, t, keys[j], j, err)
}

/// Every segment between consecutive spline points fits the keys it spans.
pub open spec fn segments_fit(points: Seq<(u64, usize)>, keys: Seq<u64>, err: u64) -> bool {
    forall|k: int|
        0 <= k < points.len() - 1 ==> #[trigger] segment_fits(points[k], points[k + 1], keys, err)
}

/// The state of the greedy spline corridor after a run of keys.
pub struct Corridor {
    /// The spline points fixed so far, as `(key, position)`.
    pub points: Seq<(u64, usize)>,
    /// The last distinct key and its first position.
    pub last: (u64, usize),
    /// The point through which the corridor's upper edge passes.
    pub upper: (u64, u128),
    /// The point through which the corridor's lower edge passes.
    pub lower: (u64, usize),
    /// How many distinct keys were seen.
    pub distinct: nat,
}

/// The corridor before any key.
pub open spec fn initial_corridor() -> Corridor {
    Corridor { points: seq![], last: (0, 0), upper: (0, 0), lower: (0, 0), distinct: 0 }
}

/// The corridor after the key `x` at position `p` with the error bound `err`.
pub open spec fn corridor_step(c: Corridor, x: u64, p: usize, err: u64) -> Corridor {
    let up = (x, upper_y(p as int, err) as u128);
    let lo = (x, lower_y(p as int, err) as usize);
    if p == 0 {
        Corridor { points: seq![(x, p)], last: (x, p), upper: c.upper, lower: c.lower, distinct: 1 }
    } else if x == c.last.0 {
        c
    } else if c.distinct == 1 {
        Corridor { points: c.points, last: (x, p), upper: up, lower: lo, distinct: 2 }
    } else {
        let s = c.points.last();
        let u = rel(s, c.upper.0, c.upper.1 as int);
        let l = rel(s, c.lower.0, c.lower.1 as int);
        let d = rel(s, x, p as int);
        if orientation_of(u, d) != Orientation::Clockwise || orientation_of(l, d)
            != Orientation::AntiClockwise {
            Corridor {
                points: c.points.push(c.last),
                last: (x, p),
                upper: up,
                lower: lo,
                distinct: c.distinct + 1,
            }
        } else {
            let nu = if orientation_of(u, rel(s, x, up.1 as int)) == Orientation::Clockwise {
                up
            } else {
                c.upper
            };
            let nl = if orientation_of(l, rel(s, x, lo.1 as int)) == Orientation::AntiClockwise {
                lo
            } else {
                c.lower
            };
            Corridor { points: c.points, last: (x, p), upper: nu, lower: nl, distinct: c.distinct + 1 }
        }
    }
}

/// The corridor after all of `keys`, each at its index.
pub open spec fn corridor_of(keys: Seq<u64>, err: u64) -> Corridor
    decreases keys.len(),
{
    if keys.len() == 0 {
        initial_corridor()
    } else {
        corridor_step(
            corridor_of(keys.drop_last(), err),
            keys.last(),
            (keys.len() - 1) as usize,
            err,
        )
    }
}

/// The spline of `keys`: the corridor's points, closed by the last key at
/// its first position when the corridor has not reached it.
pub open spec fn spline_points_of(keys: Seq<u64>, err: u64) -> Seq<(u64, usize)> {
    let c = corridor_of(keys, err);
    if keys.len() > 0 && c.points.last().0 != keys.last() {
        c.points.push(c.last)
    } else {
        c.points
    }
}

/// The spline point is a first occurrence of its key in `keys`.
pub open spec fn on_first(keys: Seq<u64>, pt: (u64, usize)) -> bool {
    is_first(keys, pt.1 as int) && keys[pt.1 as int] == pt.0
}

/// The spline points' keys increase strictly.
pub open spec fn strictly_increasing(points: Seq<(u64, usize)>) -> bool {
    forall|a: int, b: int| 0 <= a < b < points.len() ==> points[a].0 < points[b].0
}

/// The corridor's open part: every key after the last spline point allows
/// a segment from it to end anywhere between the lower and the upper edge.
pub open spec fn corridor_open(c: Corridor, keys: Seq<u64>, err: u64) -> bool {
    let s = c.points.last();
    let u = rel(s, c.upper.0, c.upper.1 as int);
    let l = rel(s, c.lower.0, c.lower.1 as int);
    &&& s.0 < c.last.0
    &&& s.0 < c.upper.0 <= c.last.0
    &&& s.0 < c.lower.0 <= c.last.0
    &&& c.upper.1 >= s.1
    &&& slope_le(l, rel(s, c.last.0, c.last.1 as int))
    &&& slope_le(rel(s, c.last.0, c.last.1 as int), u)
    &&& forall|j: int|
        #![trigger is_first(keys, j)]
        is_first(keys, j) && s.0 < keys[j] <= c.last.0 ==> slope_le(
            u,
            rel(s, keys[j], upper_y(j, err)),
        ) && slope_le(rel(s, keys[j], lower_y(j, err)), l)
    &&& exists|j: int|
        #![trigger is_first(keys, j)]
        is_first(keys, j) && s.0 < keys[j] <= c.last.0 && c.upper == (
            keys[j],
            upper_y(j, err) as u128,
        )
    &&& exists|j: int|
        #![trigger is_first(keys, j)]
        is_first(keys, j) && s.0 < keys[j] <= c.last.0 && c.lower == (
            keys[j],
            lower_y(j, err) as usize,
        )
}

/// What holds of the corridor after the keys `keys`.
pub open spec fn corridor_inv(c: Corridor, keys: Seq<u64>, err: u64) -> bool {
    let n = keys.len();
    &&& c.distinct <= n
    &&& c.upper.1 <= usize::MAX + u64::MAX
    &&& n == 0 ==> c.points.len() == 0 && c.distinct == 0
    &&& n > 0 ==> {
        &&& c.points.len() > 0
        &&& c.points[0] == (keys[0], 0usize)
        &&& c.distinct >= 1
        &&& c.last.0 == keys.last()
        &&& on_first(keys, c.last)
    }
    &&& forall|k: int| 0 <= k < c.points.len() ==> #[trigger] on_first(keys, c.points[k])
    &&& forall|k: int| 0 <= k < c.points.len() ==> #[trigger] c.points[k].1 >= k
    &&& strictly_increasing(c.points)
    &&& c.distinct == 1 ==> c.points.len() == 1 && forall|i: int|
        0 <= i < n ==> #[trigger] keys[i] == keys[0]
    &&& c.distinct >= 2 ==> corridor_open(c, keys, err)
    &&& segments_fit(c.points, keys, err)
}

// ---------------------------------------------------------------------------
// Arithmetic on slopes.

proof fn lemma_slope_trans(a: (int, int), b: (int, int), c: (int, int))
    by (nonlinear_arith)
    requires
        a.0 > 0,
        b.0 > 0,
        c.0 > 0,
        slope_le(a, b),
        slope_le(b, c),
    ensures
        slope_le(a, c),
{
    assert(a.1 * b.0 * c.0 <= b.1 * a.0 * c.0);
    assert(b.1 * c.0 * a.0 <= c.1 * b.0 * a.0);
}

proof fn lemma_slope_same_x(x: int, y1: int, y2: int)
    by (nonlinear_arith)
    requires
        x > 0,
        y1 <= y2,
    ensures
        slope_le((x, y1), (x, y2)),
{
}

/// What the orientation of two vectors says of their slopes.
proof fn lemma_orientation_slopes(a: (int, int), b: (int, int))
    ensures
        orientation_of(a, b) == Orientation::Clockwise <==> !slope_le(a, b),
        orientation_of(a, b) == Orientation::AntiClockwise <==> !slope_le(b, a),
        orientation_of(a, b) == Orientation::Clockwise ==> slope_le(b, a),
        orientation_of(a, b) == Orientation::AntiClockwise ==> slope_le(a, b),
{
    assert(cross(a, b) == a.1 * b.0 - b.1 * a.0);
}

/// A segment whose slope lies between a key's lower and upper slope fits the key.
proof fn lemma_fits_from_slopes(s: (u64, usize), t: (u64, usize), x: u64, p: int, err: u64)
    requires
        s.0 < t.0,
        s.0 < x,
        slope_le(rel(s, t.0, t.1 as int), rel(s, x, upper_y(p, err))),
        slope_le(rel(s, x, lower_y(p, err)), rel(s, t.0, t.1 as int)),
    ensures
        fits(s, t, x, p, err),
{
    let d = t.0 - s.0;
    let dx = x - s.0;
    let n = (t.1 - s.1) * dx;
    assert((p - err - s.1) * d <= (lower_y(p, err) - s.1) * d) by (nonlinear_arith)
        requires
            d > 0,
            p - err <= lower_y(p, err),
    ;
}

// ---------------------------------------------------------------------------
// The corridor's invariant, step by step.

/// Closing the open corridor at its last key gives a segment that fits.
pub proof fn lemma_close_corridor(c: Corridor, keys: Seq<u64>, err: u64)
    requires
        c.points.len() > 0,
        corridor_open(c, keys, err),
    ensures
        segment_fits(c.points.last(), c.last, keys, err),
{
    let s = c.points.last();
    let q = rel(s, c.last.0, c.last.1 as int);
    let u = rel(s, c.upper.0, c.upper.1 as int);
    let l = rel(s, c.lower.0, c.lower.1 as int);
    assert forall|j: int|
        #![trigger is_first(keys, j)]
        is_first(keys, j) && s.0 < keys[j] <= c.last.0 implies fits(
            s,
            c.last,
            keys[j],
            j,
            err,
        ) by {
        let up = rel(s, keys[j], upper_y(j, err));
        let lo = rel(s, keys[j], lower_y(j, err));
        lemma_slope_trans(q, u, up);
        lemma_slope_trans(lo, l, q);
        lemma_fits_from_slopes(s, c.last, keys[j], j, err);
    }
}

/// On sorted keys, a first occurrence comes after every smaller key's positions.
proof fn lemma_first_positions(keys: Seq<u64>, a: int, b: int)
    requires
        sorted(keys),
        0 <= a < keys.len(),
        0 <= b < keys.len(),
        keys[a] < keys[b],
    ensures
        a < b,
{
}

/// Dropping the last key keeps the order, which the last key completes.
proof fn lemma_sorted_push(keys: Seq<u64>, x: u64)
    requires
        sorted(keys.push(x)),
    ensures
        sorted(keys),
        keys.len() > 0 ==> keys.last() <= x,
        forall|i: int| 0 <= i < keys.len() ==> #[trigger] keys[i] <= x,
{
    let k2 = keys.push(x);
    assert forall|i: int, j: int| 0 <= i <= j < keys.len() implies keys[i] <= keys[j] by {
        assert(k2[i] <= k2[j]);
    }
    assert forall|i: int| 0 <= i < keys.len() implies #[trigger] keys[i] <= x by {
        assert(k2[i] <= k2[keys.len() as int]);
    }
}

/// A new key equal to the last one changes nothing that the invariant states.
proof fn lemma_step_repeat(c: Corridor, keys: Seq<u64>, x: u64, err: u64)
    requires
        keys.len() > 0,
        corridor_inv(c, keys, err),
        x == c.last.0,
        sorted(keys.push(x)),
    ensures
        corridor_inv(c, keys.push(x), err),
{
    let k2 = keys.push(x);
    let n = keys.len();
    assert forall|j: int| is_first(k2, j) <==> is_first(keys, j) by {
        if j == n {
            assert(k2[j - 1] == keys.last());
        }
    }
    assert forall|k: int| 0 <= k < c.points.len() implies #[trigger] on_first(k2, c.points[k]) by {
        assert(on_first(keys, c.points[k]));
    }
    assert(on_first(k2, c.last));
    if c.distinct == 1 {
        assert forall|i: int| 0 <= i < k2.len() implies #[trigger] k2[i] == k2[0] by {
            if i < n {
                assert(keys[i] == keys[0]);
            } else {
                assert(c.last.0 == keys.last());
                assert(keys[n - 1] == keys[0]);
            }
        }
    }
    if c.distinct >= 2 {
        let s = c.points.last();
        assert forall|j: int|
            #![trigger is_first(k2, j)]
            is_first(k2, j) && s.0 < k2[j] <= c.last.0 implies slope_le(
                rel(s, c.upper.0, c.upper.1 as int),
                rel(s, k2[j], upper_y(j, err)),
            ) && slope_le(
                rel(s, k2[j], lower_y(j, err)),
                rel(s, c.lower.0, c.lower.1 as int),
            ) by {
            assert(is_first(keys, j));
        }
    }
    assert forall|k: int|
        0 <= k < c.points.len() - 1 implies #[trigger] segment_fits(
            c.points[k],
            c.points[k + 1],
            k2,
            err,
        ) by {
        assert(segment_fits(c.points[k], c.points[k + 1], keys, err));
        assert forall|j: int|
            #![trigger is_first(k2, j)]
            is_first(k2, j) && c.points[k].0 < k2[j] <= c.points[k + 1].0 implies fits(
                c.points[k],
                c.points[k + 1],
                k2[j],
                j,
                err,
            ) by {
            assert(is_first(keys, j));
        }
    }
}


/// A segment keeps fitting when a key beyond its end is appended.
proof fn lemma_segment_fits_push(s: (u64, usize), t: (u64, usize), keys: Seq<u64>, x: u64, err: u64)
    requires
        segment_fits(s, t, keys, err),
        t.0 < x,
    ensures
        segment_fits(s, t, keys.push(x), err),
{
    let k2 = keys.push(x);
    assert forall|j: int|
        #![trigger is_first(k2, j)]
        is_first(k2, j) && s.0 < k2[j] <= t.0 implies fits(s, t, k2[j], j, err) by {
        assert(j < keys.len());
        assert(is_first(keys, j));
    }
}

/// All segments keep fitting when a key beyond the last spline point is appended.
proof fn lemma_segments_fit_push(points: Seq<(u64, usize)>, keys: Seq<u64>, x: u64, err: u64)
    requires
        points.len() > 0,
        segments_fit(points, keys, err),
        strictly_increasing(points),
        points.last().0 < x,
    ensures
        segments_fit(points, keys.push(x), err),
{
    assert forall|k: int| 0 <= k < points.len() - 1 implies #[trigger] segment_fits(
        points[k],
        points[k + 1],
        keys.push(x),
        err,
    ) by {
        assert(segment_fits(points[k], points[k + 1], keys, err));
        lemma_segment_fits_push(points[k], points[k + 1], keys, x, err);
    }
}

/// A corridor opened at the new key `x`, right after the spline point `s`.
proof fn lemma_fresh_corridor(c: Corridor, keys: Seq<u64>, x: u64, err: u64)
    requires
        c.points.len() > 0,
        sorted(keys),
        keys.len() > 0,
        keys.len() <= usize::MAX,
        c.points.last().0 == keys.last(),
        c.points.last().0 < x,
        (c.points.last().1 as int) < keys.len(),
        c.last == (x, keys.len() as usize),
        c.upper == (x, upper_y(keys.len() as int, err) as u128),
        c.lower == (x, lower_y(keys.len() as int, err) as usize),
    ensures
        corridor_open(c, keys.push(x), err),
{
    let k2 = keys.push(x);
    let n = keys.len() as int;
    let s = c.points.last();
    let dx = x - s.0;
    let u = rel(s, c.upper.0, c.upper.1 as int);
    let l = rel(s, c.lower.0, c.lower.1 as int);
    let q = rel(s, c.last.0, c.last.1 as int);
    assert(u == rel(s, x, upper_y(n, err)));
    assert(l == rel(s, x, lower_y(n, err)));
    lemma_slope_same_x(dx, lower_y(n, err) - s.1, n - s.1);
    lemma_slope_same_x(dx, n - s.1, upper_y(n, err) - s.1);
    assert forall|j: int|
        #![trigger is_first(k2, j)]
        is_first(k2, j) && s.0 < k2[j] <= c.last.0 implies slope_le(
            u,
            rel(s, k2[j], upper_y(j, err)),
        ) && slope_le(rel(s, k2[j], lower_y(j, err)), l) by {
        if j < n {
            assert(k2[j] == keys[j]);
            assert(keys[j] <= keys[n - 1]);
        }
        assert(j == n);
    }
    assert(k2[n] == x);
    assert(is_first(k2, n)) by {
        assert(k2[n - 1] == keys[n - 1]);
    }
    assert(c.upper == (k2[n], upper_y(n, err) as u128));
    assert(c.lower == (k2[n], lower_y(n, err) as usize));
}

/// The first key opens the spline.
proof fn lemma_step_first(c: Corridor, x: u64, err: u64)
    requires
        c.upper.1 <= usize::MAX + u64::MAX,
    ensures
        corridor_inv(corridor_step(c, x, 0, err), seq![x], err),
{
    let k2 = seq![x];
    let c2 = corridor_step(c, x, 0, err);
    assert(is_first(k2, 0));
    assert(on_first(k2, c2.points[0]));
}

/// The second distinct key opens the first corridor.
proof fn lemma_step_second(c: Corridor, keys: Seq<u64>, x: u64, err: u64)
    requires
        keys.len() > 0,
        keys.len() < usize::MAX,
        corridor_inv(c, keys, err),
        c.distinct == 1,
        x != c.last.0,
        sorted(keys.push(x)),
    ensures
        corridor_inv(corridor_step(c, x, keys.len() as usize, err), keys.push(x), err),
{
    let k2 = keys.push(x);
    let n = keys.len() as int;
    let c2 = corridor_step(c, x, n as usize, err);
    assert(c.points.len() == 1);
    assert(keys[n - 1] == keys[0]);
    lemma_sorted_push(keys, x);
    assert(is_first(k2, n));
    assert(on_first(k2, c2.last));
    assert(keys.drop_last().len() >= 0);
    assert forall|k: int| 0 <= k < c2.points.len() implies #[trigger] on_first(k2, c2.points[k]) by {
        assert(on_first(keys, c.points[k]));
    }
    assert(c2.points.last() == c.points[0]);
    lemma_fresh_corridor(c2, keys, x, err);
}

/// A key outside the corridor fixes the last distinct key as a spline
/// point and opens a new corridor at the key.
proof fn lemma_step_outside(c: Corridor, keys: Seq<u64>, x: u64, err: u64)
    requires
        keys.len() > 0,
        keys.len() < usize::MAX,
        corridor_inv(c, keys, err),
        c.distinct >= 2,
        x != c.last.0,
        sorted(keys.push(x)),
    ensures
        corridor_inv(
            Corridor {
                points: c.points.push(c.last),
                last: (x, keys.len() as usize),
                upper: (x, upper_y(keys.len() as int, err) as u128),
                lower: (x, lower_y(keys.len() as int, err) as usize),
                distinct: c.distinct + 1,
            },
            keys.push(x),
            err,
        ),
{
    let k2 = keys.push(x);
    let n = keys.len() as int;
    let c2 = Corridor {
        points: c.points.push(c.last),
        last: (x, n as usize),
        upper: (x, upper_y(n, err) as u128),
        lower: (x, lower_y(n, err) as usize),
        distinct: c.distinct + 1,
    };
    let s = c.points.last();
    let q = c.last;
    lemma_sorted_push(keys, x);
    assert(q.0 < x);
    assert(is_first(k2, n));
    assert(on_first(k2, c2.last));
    assert(on_first(keys, s));
    lemma_first_positions(keys, s.1 as int, q.1 as int);
    assert forall|k: int| 0 <= k < c2.points.len() implies #[trigger] on_first(k2, c2.points[k]) by {
        if k < c.points.len() {
            assert(on_first(keys, c.points[k]));
        }
    }
    assert forall|k: int| 0 <= k < c2.points.len() implies #[trigger] c2.points[k].1 >= k by {
        if k < c.points.len() {
            assert(c.points[k].1 >= k);
        } else {
            assert(c.points[c.points.len() - 1].1 >= c.points.len() - 1);
        }
    }
    assert(strictly_increasing(c2.points)) by {
        assert forall|a: int, b: int| 0 <= a < b < c2.points.len() implies c2.points[a].0
            < c2.points[b].0 by {
            if b == c.points.len() && a < c.points.len() - 1 {
                assert(c.points[a].0 < s.0);
            }
        }
    }
    lemma_close_corridor(c, keys, err);
    lemma_segments_fit_push(c.points, keys, x, err);
    lemma_segment_fits_push(s, q, keys, x, err);
    assert forall|k: int| 0 <= k < c2.points.len() - 1 implies #[trigger] segment_fits(
        c2.points[k],
        c2.points[k + 1],
        k2,
        err,
    ) by {
        if k < c.points.len() - 1 {
            assert(segment_fits(c.points[k], c.points[k + 1], k2, err));
        }
    }
    assert(c2.points.last() == q);
    lemma_fresh_corridor(c2, keys, x, err);
}


/// A key strictly inside the corridor narrows it to the key's own error bounds.
proof fn lemma_step_inside(c: Corridor, keys: Seq<u64>, x: u64, err: u64)
    requires
        keys.len() > 0,
        keys.len() < usize::MAX,
        corridor_inv(c, keys, err),
        c.distinct >= 2,
        x != c.last.0,
        sorted(keys.push(x)),
        orientation_of(
            rel(c.points.last(), c.upper.0, c.upper.1 as int),
            rel(c.points.last(), x, keys.len() as int),
        ) == Orientation::Clockwise,
        orientation_of(
            rel(c.points.last(), c.lower.0, c.lower.1 as int),
            rel(c.points.last(), x, keys.len() as int),
        ) == Orientation::AntiClockwise,
    ensures
        corridor_inv(corridor_step(c, x, keys.len() as usize, err), keys.push(x), err),
{
    let k2 = keys.push(x);
    let n = keys.len() as int;
    let c2 = corridor_step(c, x, n as usize, err);
    let s = c.points.last();
    let u = rel(s, c.upper.0, c.upper.1 as int);
    let l = rel(s, c.lower.0, c.lower.1 as int);
    let d = rel(s, x, n);
    let vup = rel(s, x, upper_y(n, err));
    let vlo = rel(s, x, lower_y(n, err));
    lemma_sorted_push(keys, x);
    assert(c.last.0 < x);
    assert(is_first(k2, n));
    assert(on_first(k2, c2.last));
    assert(on_first(keys, s));
    assert(c2.points == c.points);
    assert(rel(s, x, (upper_y(n, err) as u128) as int) == vup);
    assert(rel(s, x, (lower_y(n, err) as usize) as int) == vlo);
    lemma_orientation_slopes(u, d);
    lemma_orientation_slopes(l, d);
    lemma_orientation_slopes(u, vup);
    lemma_orientation_slopes(l, vlo);
    lemma_slope_same_x(x - s.0, n - s.1, upper_y(n, err) - s.1);
    lemma_slope_same_x(x - s.0, lower_y(n, err) - s.1, n - s.1);
    let nu = rel(s, c2.upper.0, c2.upper.1 as int);
    let nl = rel(s, c2.lower.0, c2.lower.1 as int);
    assert(nu == vup || nu == u);
    assert(nl == vlo || nl == l);
    assert forall|k: int| 0 <= k < c2.points.len() implies #[trigger] on_first(k2, c2.points[k]) by {
        assert(on_first(keys, c.points[k]));
    }
    assert forall|j: int|
        #![trigger is_first(k2, j)]
        is_first(k2, j) && s.0 < k2[j] <= c2.last.0 implies slope_le(
            nu,
            rel(s, k2[j], upper_y(j, err)),
        ) && slope_le(rel(s, k2[j], lower_y(j, err)), nl) by {
        if j < n {
            assert(k2[j] == keys[j]);
            assert(is_first(keys, j));
            assert(keys[j] <= keys[n - 1]);
            let up = rel(s, keys[j], upper_y(j, err));
            let lo = rel(s, keys[j], lower_y(j, err));
            assert(slope_le(u, up));
            assert(slope_le(lo, l));
            if nu == vup {
                lemma_slope_trans(vup, u, up);
            }
            if nl == vlo {
                lemma_slope_trans(lo, l, vlo);
            }
        } else {
            assert(j == n);
        }
    }
    assert(slope_le(d, nu));
    assert(slope_le(nl, d));
    assert(k2[n] == x);
    let ju = choose|j: int|
        #![trigger is_first(keys, j)]
        is_first(keys, j) && s.0 < keys[j] <= c.last.0 && c.upper == (
            keys[j],
            upper_y(j, err) as u128,
        );
    let jl = choose|j: int|
        #![trigger is_first(keys, j)]
        is_first(keys, j) && s.0 < keys[j] <= c.last.0 && c.lower == (
            keys[j],
            lower_y(j, err) as usize,
        );
    assert(is_first(k2, ju) && k2[ju] == keys[ju]);
    assert(is_first(k2, jl) && k2[jl] == keys[jl]);
    if c2.upper == c.upper {
        assert(is_first(k2, ju) && s.0 < k2[ju] <= c2.last.0 && c2.upper == (k2[ju], upper_y(ju, err) as u128));
    } else {
        assert(is_first(k2, n) && s.0 < k2[n] <= c2.last.0 && c2.upper == (k2[n], upper_y(n, err) as u128));
    }
    if c2.lower == c.lower {
        assert(is_first(k2, jl) && s.0 < k2[jl] <= c2.last.0 && c2.lower == (k2[jl], lower_y(jl, err) as usize));
    } else {
        assert(is_first(k2, n) && s.0 < k2[n] <= c2.last.0 && c2.lower == (k2[n], lower_y(n, err) as usize));
    }
    assert(corridor_open(c2, k2, err));
    lemma_segments_fit_push(c.points, keys, x, err);
}

/// The corridor's invariant holds after every key.
proof fn lemma_step(c: Corridor, keys: Seq<u64>, x: u64, err: u64)
    requires
        keys.len() < usize::MAX,
        corridor_inv(c, keys, err),
        sorted(keys.push(x)),
    ensures
        corridor_inv(corridor_step(c, x, keys.len() as usize, err), keys.push(x), err),
{
    let n = keys.len();
    if n == 0 {
        assert(keys.push(x) == seq![x]);
        lemma_step_first(c, x, err);
    } else if x == c.last.0 {
        lemma_step_repeat(c, keys, x, err);
    } else if c.distinct == 1 {
        lemma_step_second(c, keys, x, err);
    } else {
        let s = c.points.last();
        let u = rel(s, c.upper.0, c.upper.1 as int);
        let l = rel(s, c.lower.0, c.lower.1 as int);
        let d = rel(s, x, n as int);
        if orientation_of(u, d) != Orientation::Clockwise || orientation_of(l, d)
            != Orientation::AntiClockwise {
            lemma_step_outside(c, keys, x, err);
        } else {
            lemma_step_inside(c, keys, x, err);
        }
    }
}

/// After sorted keys, the corridor satisfies its invariant.
pub proof fn lemma_corridor_of(keys: Seq<u64>, err: u64)
    requires
        sorted(keys),
        keys.len() <= usize::MAX,
    ensures
        corridor_inv(corridor_of(keys, err), keys, err),
    decreases keys.len(),
{
    if keys.len() > 0 {
        let init = keys.drop_last();
        assert(init.push(keys.last()) == keys);
        lemma_sorted_push(init, keys.last());
        lemma_corridor_of(init, err);
        lemma_step(corridor_of(init, err), init, keys.last(), err);
    }
}


/// The spline point lies on the keys: its key is found at its position.
pub open spec fn on_keys(keys: Seq<u64>, pt: (u64, usize)) -> bool {
    (pt.1 as int) < keys.len() && keys[pt.1 as int] == pt.0
}

/// The shape of a finished spline over `keys`: it starts at the first key,
/// ends at the last one, and runs through keys at their positions.
pub open spec fn spline_shape(points: Seq<(u64, usize)>, keys: Seq<u64>) -> bool {
    &&& points.len() <= keys.len()
    &&& keys.len() == 0 ==> points.len() == 0
    &&& keys.len() > 0 ==> {
        &&& points.len() > 0
        &&& points[0] == (keys[0], 0usize)
        &&& points.last().0 == keys.last()
    }
    &&& strictly_increasing(points)
    &&& forall|k: int| 0 <= k < points.len() ==> #[trigger] on_keys(keys, points[k])
    &&& forall|a: int, b: int| 0 <= a < b < points.len() ==> points[a].1 < points[b].1
}

/// The spline of sorted keys has its shape, has no more points than there
/// are keys, and each of its segments is within the error bound of every
/// key it spans.
pub proof fn lemma_spline_points_of(keys: Seq<u64>, err: u64)
    requires
        sorted(keys),
        keys.len() <= usize::MAX,
    ensures
        spline_shape(spline_points_of(keys, err), keys),
        segments_fit(spline_points_of(keys, err), keys, err),
        corridor_of(keys, err).points.len() <= spline_points_of(keys, err).len(),
{
    let c = corridor_of(keys, err);
    let points = spline_points_of(keys, err);
    let n = keys.len() as int;
    lemma_corridor_of(keys, err);
    assert forall|k: int| 0 <= k < c.points.len() implies #[trigger] on_keys(keys, c.points[k]) by {
        assert(on_first(keys, c.points[k]));
    }
    assert forall|a: int, b: int| 0 <= a < b < c.points.len() implies c.points[a].1
        < c.points[b].1 by {
        assert(on_first(keys, c.points[a]));
        assert(on_first(keys, c.points[b]));
        lemma_first_positions(keys, c.points[a].1 as int, c.points[b].1 as int);
    }
    if n > 0 {
        let s = c.points.last();
        assert(on_first(keys, s));
        assert(s.1 >= c.points.len() - 1);
        assert(keys[s.1 as int] <= keys[n - 1]);
        if s.0 != keys.last() {
            assert(s.0 < keys.last());
            assert((s.1 as int) < n - 1);
            assert(c.distinct >= 2) by {
                if c.distinct == 1 {
                    assert(keys[s.1 as int] == keys[0]);
                    assert(keys[n - 1] == keys[0]);
                }
            }
            let t = c.last;
            assert(on_first(keys, t));
            lemma_first_positions(keys, s.1 as int, t.1 as int);
            assert(points == c.points.push(t));
            assert forall|k: int| 0 <= k < points.len() implies #[trigger] on_keys(keys, points[k]) by {
                if k < c.points.len() {
                    assert(on_keys(keys, c.points[k]));
                }
            }
            assert forall|a: int, b: int| 0 <= a < b < points.len() implies points[a].0
                < points[b].0 && points[a].1 < points[b].1 by {
                if b == c.points.len() {
                    if a < c.points.len() - 1 {
                        assert(c.points[a].0 < s.0);
                        assert(c.points[a].1 < s.1);
                    }
                }
            }
            lemma_close_corridor(c, keys, err);
            assert forall|k: int| 0 <= k < points.len() - 1 implies #[trigger] segment_fits(
                points[k],
                points[k + 1],
                keys,
                err,
            ) by {
                if k < c.points.len() - 1 {
                    assert(segment_fits(c.points[k], c.points[k + 1], keys, err));
                }
            }
        }
    }
}


/// The corridor of sorted keys has no more spline points than keys.
pub proof fn lemma_corridor_points_bounded(keys: Seq<u64>, err: u64)
    requires
        sorted(keys),
        keys.len() <= usize::MAX,
    ensures
        corridor_of(keys, err).points.len() <= keys.len(),
{
    let c = corridor_of(keys, err);
    lemma_corridor_of(keys, err);
    if c.points.len() > 0 {
        let last = c.points.len() - 1;
        assert(c.points[last].1 >= last);
        assert(on_first(keys, c.points[last]));
    }
}

/// Spline points are only ever added: the corridor of a prefix of sorted
/// keys has no more points than the corridor of all of them.
pub proof fn lemma_corridor_points_grow(keys: Seq<u64>, err: u64, m: int)
    requires
        sorted(keys),
        keys.len() <= usize::MAX,
        0 <= m <= keys.len(),
    ensures
        corridor_of(keys.take(m), err).points.len() <= corridor_of(keys, err).points.len(),
    decreases keys.len(),
{
    if m < keys.len() {
        let init = keys.drop_last();
        assert(init.push(keys.last()) == keys);
        lemma_sorted_push(init, keys.last());
        assert(init.take(m) == keys.take(m));
        lemma_corridor_points_grow(init, err, m);
        lemma_corridor_of(init, err);
        let c = corridor_of(init, err);
        assert(corridor_of(keys, err) == corridor_step(c, keys.last(), init.len() as usize, err));
    } else {
        assert(keys.take(m) == keys);
    }
}


/// One step of the corridor adds at most one spline point: the first key,
/// or the last distinct key before the new one. The spline points stay in
/// increasing order and end no later than the new key, which becomes the
/// corridor's last key.
pub proof fn lemma_step_adds_at_most_one(c: Corridor, keys: Seq<u64>, x: u64, err: u64)
    requires
        keys.len() < usize::MAX,
        corridor_inv(c, keys, err),
        sorted(keys.push(x)),
    ensures
        ({
            let c2 = corridor_step(c, x, keys.len() as usize, err);
            &&& {
                ||| keys.len() == 0 && c2.points == seq![(x, 0usize)]
                ||| c2.points == c.points
                ||| c.points.len() > 0 && c2.points == c.points.push(c.last)
            }
            &&& strictly_increasing(c2.points)
            &&& c2.last.0 == x
            &&& c2.points.len() > 0
            &&& c2.points.last().0 <= x
        }),
{
    let k2 = keys.push(x);
    let c2 = corridor_step(c, x, keys.len() as usize, err);
    lemma_step(c, keys, x, err);
    let last = c2.points.len() - 1;
    assert(on_first(k2, c2.points[last]));
    assert(k2[c2.points[last].1 as int] <= k2[k2.len() - 1]);
}


/// A spline point is added only when it is needed. When a new key `x`, at
/// position `n`, makes the corridor fix a spline point, the straight segment
/// from the last spline point `s` to `(x, n)` fails to stay strictly inside
/// the error bounds of some key it spans: at some key first occurring at
/// position `j`, the segment reaches `j + err` or above, or
/// `max(j - err, 0)` or below.
pub proof fn lemma_point_added_only_when_needed(c: Corridor, keys: Seq<u64>, x: u64, err: u64)
    requires
        keys.len() > 0,
        keys.len() < usize::MAX,
        corridor_inv(c, keys, err),
        sorted(keys.push(x)),
        corridor_step(c, x, keys.len() as usize, err).points.len() > c.points.len(),
    ensures
        ({
            let k2 = keys.push(x);
            let s = c.points.last();
            let n = keys.len() as int;
            exists|j: int|
                #![trigger is_first(k2, j)]
                is_first(k2, j) && s.0 < k2[j] <= x && ((n - s.1) * (k2[j] - s.0) >= (j + err
                    - s.1) * (x - s.0) || (n - s.1) * (k2[j] - s.0) <= ((if j >= err {
                    j - err
                } else {
                    0
                }) - s.1) * (x - s.0))
        }),
{
    let k2 = keys.push(x);
    let s = c.points.last();
    let n = keys.len() as int;
    lemma_sorted_push(keys, x);
    assert(x != c.last.0 && c.distinct >= 2);
    assert(c.last.0 < x);
    let u = rel(s, c.upper.0, c.upper.1 as int);
    let l = rel(s, c.lower.0, c.lower.1 as int);
    let d = rel(s, x, n);
    let ju = choose|j: int|
        #![trigger is_first(keys, j)]
        is_first(keys, j) && s.0 < keys[j] <= c.last.0 && c.upper == (
            keys[j],
            upper_y(j, err) as u128,
        );
    let jl = choose|j: int|
        #![trigger is_first(keys, j)]
        is_first(keys, j) && s.0 < keys[j] <= c.last.0 && c.lower == (
            keys[j],
            lower_y(j, err) as usize,
        );
    assert(is_first(k2, ju) && k2[ju] == keys[ju]);
    assert(is_first(k2, jl) && k2[jl] == keys[jl]);
    lemma_orientation_slopes(u, d);
    lemma_orientation_slopes(l, d);
    if orientation_of(u, d) != Orientation::Clockwise {
        assert(u == (k2[ju] - s.0, ju + err - s.1));
        assert(slope_le(u, d));
        assert((n - s.1) * (k2[ju] - s.0) >= (ju + err - s.1) * (x - s.0));
    } else {
        assert(orientation_of(l, d) != Orientation::AntiClockwise);
        assert(l == (k2[jl] - s.0, lower_y(jl, err) - s.1));
        assert(slope_le(d, l));
        assert((n - s.1) * (k2[jl] - s.0) <= ((if jl >= err {
            jl - err
        } else {
            0
        }) - s.1) * (x - s.0));
    }
}

} // verus!
