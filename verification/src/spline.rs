use vstd::prelude::*;

verus! {

use core::ops::Range;
use crate::corridor::{
    sorted, spline_points_of, lemma_spline_points_of, strictly_increasing, on_keys,
    is_first, segment_fits, fits,
};
use crate::builder::{RadixSplineBuilder, BuilderView};
use vstd::layout::size_of;
use crate::shift::{spec_num_shift_bits, lemma_num_shift_bits};
use crate::radix::{prefix_of, table_len, entry_ok, table_ok, lemma_prefix_monotone, lemma_entries_grow};

/// The search bound that the C interface hands out: positions from `start`
/// up to, not including, `stop`.
pub struct RadixSplineSearchBound {
    /// The first position to search.
    pub start: usize,
    /// The position after the last one to search.
    pub stop: usize,
}

/// What a radix spline holds, as values.
pub struct SplineView {
    /// The smallest key the spline indexes.
    pub min_key: u64,
    /// The largest key the spline indexes.
    pub max_key: u64,
    /// The bound on the distance between a key's estimated and true position.
    pub max_error: u64,
    /// How far key offsets are shifted right to give their radix prefix.
    pub shift_bits: u64,
    /// The keys the spline was built from, in order.
    pub keys: Seq<u64>,
}

/// A learned index over sorted keys: for a key it gives the range of
/// positions in which to look for it.
pub struct RadixSpline {
    pub(crate) min_key: u64,
    pub(crate) max_key: u64,
    pub(crate) current_key_count: usize,
    pub(crate) shift_bits: u64,
    pub(crate) max_error: u64,
    pub(crate) radix_table: Vec<u32>,
    pub(crate) spline_points: Vec<(u64, usize)>,
    pub(crate) keys: Ghost<Seq<u64>>,
}

impl View for RadixSpline {
    type V = SplineView;

    closed spec fn view(&self) -> SplineView {
        SplineView {
            min_key: self.min_key,
            max_key: self.max_key,
            max_error: self.max_error,
            shift_bits: self.shift_bits,
            keys: self.keys@,
        }
    }
}

/// The view of a spline is made of its fields.
pub(crate) proof fn lemma_spline_view(s: &RadixSpline)
    ensures
        s@ == (SplineView {
            min_key: s.min_key,
            max_key: s.max_key,
            max_error: s.max_error,
            shift_bits: s.shift_bits,
            keys: s.keys@,
        }),
{
}

/// The table entries of a spline are its radix table's length.
pub(crate) proof fn lemma_spline_table_entries(s: &RadixSpline)
    ensures
        s.table_entries() == s.radix_table@.len(),
        s.point_count() == s.spline_points@.len(),
{
}

/// The number of spline points whose key is below `key`, for points in
/// increasing order of key.
pub open spec fn lower_bound(points: Seq<(u64, usize)>, key: u64) -> int
    decreases points.len(),
{
    if points.len() == 0 {
        0
    } else if points.last().0 < key {
        points.len() as int
    } else {
        lower_bound(points.drop_last(), key)
    }
}

/// The position of `key` on the line from `down` to `up`, rounded down.
pub open spec fn interpolate(down: (u64, usize), up: (u64, usize), key: u64) -> int {
    down.1 + ((key - down.0) * (up.1 - down.1)) / (up.0 - down.0)
}

/// The position the spline over `v.keys` estimates for `key`, rounded down:
/// 0 up to the smallest key, the last position from the largest key on,
/// and in between the line through the spline points around `key`.
pub open spec fn spline_estimate(v: SplineView, key: u64) -> int {
    let points = spline_points_of(v.keys, v.max_error);
    if key <= v.min_key {
        0
    } else if key >= v.max_key {
        v.keys.len() - 1
    } else {
        let i = lower_bound(points, key);
        interpolate(points[i - 1], points[i], key)
    }
}

/// The first position of the search range for `key`: the estimate less the
/// error bound, but not below 0.
pub open spec fn search_start(v: SplineView, key: u64) -> int {
    let est = spline_estimate(v, key);
    if est >= v.max_error {
        est - v.max_error
    } else {
        0
    }
}

/// The end of the search range for `key`: two past the estimate plus the
/// error bound, but not past the number of keys.
pub open spec fn search_end(v: SplineView, key: u64) -> int {
    let end = spline_estimate(v, key) + v.max_error + 2;
    if end < v.keys.len() {
        end
    } else {
        v.keys.len() as int
    }
}

/// The spline can estimate a position for `key`: it lies at or below the
/// smallest key, or there are keys and it lies at or above the largest
/// key or above the first key.
pub open spec fn query_ok(v: SplineView, key: u64) -> bool {
    key <= v.min_key || (v.keys.len() > 0 && (key >= v.max_key || v.keys[0] < key))
}

/// The keys form a spline's data: sorted, between the bounds, and ending
/// at the largest key.
pub open spec fn keys_fit(keys: Seq<u64>, min_key: u64, max_key: u64) -> bool {
    &&& min_key < max_key
    &&& sorted(keys)
    &&& forall|i: int| 0 <= i < keys.len() ==> min_key <= #[trigger] keys[i] <= max_key
    &&& keys.len() <= usize::MAX
    &&& keys.len() > 0 ==> keys.last() == max_key
}

/// The bytes a spline with the view `v` takes, or `usize::MAX` where that
/// does not fit.
pub open spec fn spline_size(v: SplineView) -> int {
    let total = size_of::<RadixSpline>() + table_len((v.max_key - v.min_key) as u64, v.shift_bits)
        * size_of::<u32>() + spline_points_of(v.keys, v.max_error).len() * size_of::<(u64, usize)>();
    if total > usize::MAX {
        usize::MAX as int
    } else {
        total
    }
}

/// `x`, or `usize::MAX` where `x` does not fit.
pub open spec fn clip_to_usize(x: int) -> int {
    if x > usize::MAX {
        usize::MAX as int
    } else {
        x
    }
}

proof fn lemma_mul_le(a: int, b: int, c: int)
    by (nonlinear_arith)
    requires
        0 <= a <= b,
        0 <= c,
    ensures
        a * c <= b * c,
{
}

/// The radix table of a spline made with `radix_bits` radix bits has at
/// most `2^radix_bits + 1` entries, whatever the keys, so the spline's size
/// is bounded by the radix bits and the number of its points.
pub proof fn lemma_size_within_radix_bits(v: SplineView, radix_bits: u64)
    requires
        v.min_key < v.max_key,
        radix_bits < 64,
        v.shift_bits == spec_num_shift_bits((v.max_key - v.min_key) as u64, radix_bits),
    ensures
        table_len((v.max_key - v.min_key) as u64, v.shift_bits) <= (1u64 << radix_bits) + 1,
        spline_size(v) <= size_of::<RadixSpline>() + ((1u64 << radix_bits) + 1) * size_of::<u32>()
            + spline_points_of(v.keys, v.max_error).len() * size_of::<(u64, usize)>(),
{
    let diff = (v.max_key - v.min_key) as u64;
    lemma_num_shift_bits(diff, radix_bits);
    lemma_mul_le(
        table_len(diff, v.shift_bits),
        (1u64 << radix_bits) + 1,
        size_of::<u32>() as int,
    );
}

/// On points in increasing order, `lower_bound` splits them at `key`.
pub proof fn lemma_lower_bound(points: Seq<(u64, usize)>, key: u64)
    requires
        strictly_increasing(points),
    ensures
        0 <= lower_bound(points, key) <= points.len(),
        forall|k: int| 0 <= k < lower_bound(points, key) ==> #[trigger] points[k].0 < key,
        forall|k: int| lower_bound(points, key) <= k < points.len() ==> #[trigger] points[k].0 >= key,
    decreases points.len(),
{
    if points.len() > 0 {
        let init = points.drop_last();
        assert(strictly_increasing(init));
        lemma_lower_bound(init, key);
        if points.last().0 < key {
            assert forall|k: int| 0 <= k < points.len() implies #[trigger] points[k].0 < key by {
                if k < points.len() - 1 {
                    assert(points[k].0 < points[points.len() - 1].0);
                }
            }
        } else {
            assert forall|k: int| 0 <= k < lower_bound(points, key) implies #[trigger] points[k].0 < key by {
                assert(init[k].0 < key);
            }
            assert forall|k: int| lower_bound(points, key) <= k < points.len() implies #[trigger] points[k].0 >= key by {
                if k < points.len() - 1 {
                    assert(init[k].0 >= key);
                }
            }
        }
    }
}

/// Any index that splits the points at `key` is their `lower_bound`.
pub proof fn lemma_lower_bound_unique(points: Seq<(u64, usize)>, key: u64, i: int)
    requires
        strictly_increasing(points),
        0 <= i <= points.len(),
        forall|k: int| 0 <= k < i ==> #[trigger] points[k].0 < key,
        forall|k: int| i <= k < points.len() ==> #[trigger] points[k].0 >= key,
    ensures
        i == lower_bound(points, key),
{
    lemma_lower_bound(points, key);
    let lb = lower_bound(points, key);
    if i < lb {
        assert(points[i].0 < key);
    } else if lb < i {
        assert(points[lb].0 < key);
    }
}

proof fn lemma_interpolation_bounds(dk: int, dy: int, dx: int)
    by (nonlinear_arith)
    requires
        0 <= dk <= dx,
        0 < dx,
        0 <= dy,
        dx < 0x1_0000_0000_0000_0000,
        dy < 0x1_0000_0000_0000_0000,
    ensures
        0 <= dk * dy < 0x1_0000_0000_0000_0000 * 0x1_0000_0000_0000_0000,
        0 <= (dk * dy) / dx <= dy,
{
    assert(dk * dy <= dx * dy);
    assert((dx * dy) / dx == dy);
    assert((dk * dy) / dx <= (dx * dy) / dx);
}

impl RadixSpline {
    /// The spline is built from its keys, and its radix table is right.
    #[verifier::type_invariant]
    pub(crate) open spec fn well_formed(&self) -> bool {
        let keys = self.keys@;
        &&& keys_fit(keys, self.min_key, self.max_key)
        &&& self.current_key_count == keys.len()
        &&& self.shift_bits < 64
        &&& self.radix_table@.len() == table_len(
            (self.max_key - self.min_key) as u64,
            self.shift_bits,
        )
        &&& self.spline_points@ == spline_points_of(keys, self.max_error)
        &&& table_ok(self.radix_table@, self.spline_points@, self.min_key, self.shift_bits)
    }

    /// The index of the first spline point whose key is at least `key`,
    /// found from the radix table entries of `key`'s prefix.
    fn get_spline_segment(&self, key: u64) -> (r: usize)
        requires
            self@.min_key < key < self@.max_key,
            self@.keys.len() > 0,
            self@.keys[0] < key,
        ensures
            r == lower_bound(spline_points_of(self@.keys, self@.max_error), key),
            1 <= r < spline_points_of(self@.keys, self@.max_error).len(),
    {
        proof {
            use_type_invariant(self);
            lemma_spline_points_of(self.keys@, self.max_error);
        }
        let ghost points = self.spline_points@;
        let ghost keys = self.keys@;
        let ghost min_key = self.min_key;
        let ghost shift = self.shift_bits;
        let key_prefix = (key - self.min_key) >> self.shift_bits;
        proof {
            lemma_prefix_monotone(key, self.max_key, self.min_key, self.shift_bits);
            assert(prefix_of(key, min_key, shift) == key_prefix);
            assert(prefix_of(self.max_key, min_key, shift) == (self.max_key - self.min_key) as u64 >> shift);
        }
        let table_len = self.radix_table.len();
        assert(key_prefix as int + 2 <= table_len);
        let prefix = key_prefix as usize;
        let begin = self.radix_table[prefix] as usize;
        let end = self.radix_table[prefix + 1] as usize;
        proof {
            assert(entry_ok(points, min_key, shift, prefix as int, begin as int));
            assert(entry_ok(points, min_key, shift, prefix + 1, end as int));
            lemma_entries_grow(points, min_key, shift, prefix as int, begin as int, end as int);
            assert forall|k: int| 0 <= k < begin implies #[trigger] points[k].0 < key by {
                assert(on_keys(keys, points[k]));
                assert(prefix_of(points[k].0, min_key, shift) < prefix);
                if points[k].0 >= key {
                    lemma_prefix_monotone(key, points[k].0, min_key, shift);
                }
            }
            assert forall|k: int| end <= k < points.len() implies #[trigger] points[k].0 >= key by {
                assert(on_keys(keys, points[k]));
                assert(prefix_of(points[k].0, min_key, shift) >= prefix + 1);
                if points[k].0 < key {
                    lemma_prefix_monotone(points[k].0, key, min_key, shift);
                }
            }
        }
        let r = if end - begin < 32 {
            let mut i = begin;
            while i < end && self.spline_points[i].0 < key
                invariant
                    begin <= i <= end,
                    end <= points.len(),
                    points == self.spline_points@,
                    forall|k: int| 0 <= k < i ==> #[trigger] points[k].0 < key,
                    forall|k: int| end <= k < points.len() ==> #[trigger] points[k].0 >= key,
                    strictly_increasing(points),
                decreases end - i,
            {
                i += 1;
            }
            proof {
                assert forall|k: int| i <= k < points.len() implies #[trigger] points[k].0 >= key by {
                    if k < end && k > i {
                        assert(points[i as int].0 < points[k].0);
                    }
                }
                lemma_lower_bound_unique(points, key, i as int);
            }
            i
        } else {
            let mut lo = begin;
            let mut hi = end;
            while lo < hi
                invariant
                    begin <= lo <= hi <= end,
                    end <= points.len(),
                    points == self.spline_points@,
                    forall|k: int| 0 <= k < lo ==> #[trigger] points[k].0 < key,
                    forall|k: int| hi <= k < points.len() ==> #[trigger] points[k].0 >= key,
                    strictly_increasing(points),
                decreases hi - lo,
            {
                let mid = lo + (hi - lo) / 2;
                if self.spline_points[mid].0 < key {
                    proof {
                        assert forall|k: int| 0 <= k <= mid implies #[trigger] points[k].0 < key by {
                            if k < mid {
                                assert(points[k].0 < points[mid as int].0);
                            }
                        }
                    }
                    lo = mid + 1;
                } else {
                    proof {
                        assert forall|k: int| mid <= k < points.len() implies #[trigger] points[k].0 >= key by {
                            if k > mid {
                                assert(points[mid as int].0 < points[k].0);
                            }
                        }
                    }
                    hi = mid;
                }
            }
            proof {
                lemma_lower_bound_unique(points, key, lo as int);
            }
            lo
        };
        proof {
            lemma_lower_bound(points, key);
            assert(points[0].0 == keys[0]);
            assert(points[points.len() - 1].0 == self.max_key);
        }
        r
    }

    /// The position the spline estimates for `key`, rounded down.
    fn estimated_position(&self, key: u64) -> (r: u128)
        requires
            query_ok(self@, key),
        ensures
            r == spline_estimate(self@, key),
            self@.keys.len() > 0 ==> r < self@.keys.len(),
            self@.keys.len() == 0 ==> r == 0,
    {
        proof {
            use_type_invariant(self);
            lemma_spline_points_of(self.keys@, self.max_error);
        }
        if key <= self.min_key {
            0
        } else if key >= self.max_key {
            (self.current_key_count - 1) as u128
        } else {
            let index = self.get_spline_segment(key);
            let ghost points = self.spline_points@;
            let ghost keys = self.keys@;
            let down = self.spline_points[index - 1];
            let up = self.spline_points[index];
            proof {
                lemma_lower_bound(points, key);
                assert(points[index - 1].0 < key);
                assert(on_keys(keys, up));
                assert(down.1 < up.1);
                lemma_interpolation_bounds(
                    (key - down.0) as int,
                    (up.1 - down.1) as int,
                    (up.0 - down.0) as int,
                );
            }
            let dx = (up.0 - down.0) as u128;
            let dy = (up.1 - down.1) as u128;
            let dk = (key - down.0) as u128;
            down.1 as u128 + dk * dy / dx
        }
    }

    /// The range of positions in which to look for `key`: the estimate,
    /// widened by the error bound on both sides and by two more at the end,
    /// cut to the positions of the keys.
    pub fn find(&self, key: u64) -> (r: Range<usize>)
        requires
            query_ok(self@, key),
        ensures
            r.start == search_start(self@, key),
            r.end == search_end(self@, key),
            r.start <= r.end <= self@.keys.len(),
            self@.keys.contains(key) ==> exists|j: int| r.start <= j < r.end && self@.keys[j] == key,
            keys_fit(self@.keys, self@.min_key, self@.max_key),
    {
        proof {
            use_type_invariant(self);
            if self@.keys.contains(key) {
                lemma_search_finds_key(self@, key);
            }
        }
        let est_pos = self.estimated_position(key);
        let max_error = self.max_error as u128;
        let begin = if est_pos >= max_error {
            (est_pos - max_error) as usize
        } else {
            0
        };
        let end_pos = est_pos + max_error + 2;
        let end = if end_pos < self.current_key_count as u128 {
            end_pos as usize
        } else {
            self.current_key_count
        };
        begin..end
    }

    /// The number of entries in the spline's radix table.
    pub closed spec fn table_entries(&self) -> nat {
        self.radix_table@.len()
    }

    /// The number of the spline's points.
    pub closed spec fn point_count(&self) -> nat {
        self.spline_points@.len()
    }

    /// The bytes the spline takes: its own, and those of the elements of its
    /// radix table and spline points (not any spare capacity); `usize::MAX`
    /// where that sum does not fit.
    pub fn size_in_bytes(&self) -> (r: usize)
        ensures
            r == spline_size(self@),
            r == clip_to_usize(
                (size_of::<RadixSpline>() + self.table_entries() * size_of::<u32>()
                    + self.point_count() * size_of::<(u64, usize)>()) as int,
            ),
            self.table_entries() == (((self@.max_key - self@.min_key) as u64) >> self@.shift_bits)
                + 2,
            self.point_count() == spline_points_of(self@.keys, self@.max_error).len(),
    {
        proof {
            use_type_invariant(self);
        }
        let table = self.radix_table.len().checked_mul(core::mem::size_of::<u32>());
        let points = self.spline_points.len().checked_mul(core::mem::size_of::<(u64, usize)>());
        match (table, points) {
            (Some(t), Some(p)) => core::mem::size_of::<RadixSpline>().saturating_add(t).saturating_add(p),
            _ => usize::MAX,
        }
    }

    /// A builder for keys from `min_key` to `max_key`.
    pub fn builder(min_key: u64, max_key: u64) -> (r: RadixSplineBuilder)
        requires
            min_key < max_key,
        ensures
            r.wf(),
            r@ == (BuilderView {
                min_key,
                max_key,
                radix_bits: 18,
                max_error: 32,
                keys: Seq::empty(),
            }),
    {
        RadixSplineBuilder::new(min_key, max_key)
    }
}

proof fn lemma_floor_between(n: int, d: int, a: int, b: int)
    by (nonlinear_arith)
    requires
        d > 0,
        a * d <= n <= b * d,
    ensures
        a <= n / d <= b,
{
    assert(n == d * (n / d) + n % d);
    assert(0 <= n % d < d);
}

/// Each key that first occurs at position `j`, strictly between the
/// smallest and the largest key and after the first key, is estimated
/// within the error bound of `j`.
pub proof fn lemma_estimate_within_error(v: SplineView, j: int)
    requires
        keys_fit(v.keys, v.min_key, v.max_key),
        is_first(v.keys, j),
        v.min_key < v.keys[j] < v.max_key,
        v.keys[0] < v.keys[j],
    ensures
        j - v.max_error <= spline_estimate(v, v.keys[j]) <= j + v.max_error,
{
    let keys = v.keys;
    let key = keys[j];
    let err = v.max_error;
    let points = spline_points_of(keys, err);
    lemma_spline_points_of(keys, err);
    lemma_lower_bound(points, key);
    let i = lower_bound(points, key);
    assert(points[0].0 == keys[0]);
    assert(points[points.len() - 1].0 == v.max_key);
    assert(1 <= i < points.len());
    let s = points[i - 1];
    let t = points[i];
    assert(segment_fits(points[i - 1], points[i - 1 + 1], keys, err));
    assert(fits(s, t, key, j, err));
    let d = t.0 - s.0;
    let n = (t.1 - s.1) * (key - s.0);
    assert(points[i - 1].0 < points[i].0);
    lemma_floor_between(n, d, j - err - s.1, j + err - s.1);
}

/// A key found at index `m` first occurs at some index no later than `m`.
pub proof fn lemma_first_occurrence(keys: Seq<u64>, m: int)
    requires
        0 <= m < keys.len(),
    ensures
        exists|j: int| 0 <= j <= m && #[trigger] is_first(keys, j) && keys[j] == keys[m],
    decreases m,
{
    if is_first(keys, m) {
        assert(is_first(keys, m));
    } else {
        lemma_first_occurrence(keys, m - 1);
        let j = choose|j: int| 0 <= j <= m - 1 && #[trigger] is_first(keys, j) && keys[j] == keys[m - 1];
        assert(is_first(keys, j));
    }
}

/// The range searched for a key of the spline holds that key.
pub proof fn lemma_search_finds_key(v: SplineView, key: u64)
    requires
        keys_fit(v.keys, v.min_key, v.max_key),
        query_ok(v, key),
        v.keys.contains(key),
    ensures
        exists|j: int| search_start(v, key) <= j < search_end(v, key) && v.keys[j] == key,
{
    let keys = v.keys;
    let n = keys.len() as int;
    let err = v.max_error;
    let m = choose|m: int| 0 <= m < n && keys[m] == key;
    assert(v.min_key <= keys[m] <= v.max_key);
    if key <= v.min_key {
        assert(keys[0] <= keys[m]);
        assert(v.min_key <= keys[0]);
        assert(search_start(v, key) == 0);
        assert(keys[0] == key);
    } else if key >= v.max_key {
        assert(keys[n - 1] == key);
        assert(search_end(v, key) == n);
    } else {
        lemma_first_occurrence(keys, m);
        let j = choose|j: int| 0 <= j <= m && #[trigger] is_first(keys, j) && keys[j] == keys[m];
        lemma_estimate_within_error(v, j);
        assert(search_start(v, key) <= j < search_end(v, key));
    }
}


/// Between two spline points the estimate lies between their positions.
proof fn lemma_estimate_bounds(v: SplineView, key: u64)
    requires
        keys_fit(v.keys, v.min_key, v.max_key),
        query_ok(v, key),
    ensures
        0 <= spline_estimate(v, key),
        v.keys.len() > 0 ==> spline_estimate(v, key) < v.keys.len(),
        v.min_key < key < v.max_key ==> {
            let points = spline_points_of(v.keys, v.max_error);
            let i = lower_bound(points, key);
            &&& 1 <= i < points.len()
            &&& points[i - 1].0 < key <= points[i].0
            &&& points[i - 1].1 <= spline_estimate(v, key) <= points[i].1
        },
{
    let points = spline_points_of(v.keys, v.max_error);
    lemma_spline_points_of(v.keys, v.max_error);
    if v.min_key < key < v.max_key {
        lemma_lower_bound(points, key);
        let i = lower_bound(points, key);
        assert(points[0].0 == v.keys[0]);
        assert(points[points.len() - 1].0 == v.max_key);
        let down = points[i - 1];
        let up = points[i];
        assert(down.0 < up.0 && down.1 < up.1);
        assert(on_keys(v.keys, up));
        lemma_interpolation_bounds((key - down.0) as int, (up.1 - down.1) as int, (up.0 - down.0) as int);
    }
}

proof fn lemma_floor_monotone(a: int, b: int, dy: int, dx: int)
    by (nonlinear_arith)
    requires
        0 <= a <= b,
        0 <= dy,
        0 < dx,
    ensures
        (a * dy) / dx <= (b * dy) / dx,
{
    assert(a * dy <= b * dy);
}

/// The estimate grows with the key.
pub proof fn lemma_estimate_monotone(v: SplineView, k1: u64, k2: u64)
    requires
        keys_fit(v.keys, v.min_key, v.max_key),
        query_ok(v, k1),
        query_ok(v, k2),
        k1 <= k2,
    ensures
        spline_estimate(v, k1) <= spline_estimate(v, k2),
{
    lemma_estimate_bounds(v, k1);
    lemma_estimate_bounds(v, k2);
    let points = spline_points_of(v.keys, v.max_error);
    lemma_spline_points_of(v.keys, v.max_error);
    if v.min_key < k1 && k2 < v.max_key {
        lemma_lower_bound(points, k1);
        lemma_lower_bound(points, k2);
        let i1 = lower_bound(points, k1);
        let i2 = lower_bound(points, k2);
        if i2 < i1 {
            assert(points[i2].0 < k1);
        }
        if i1 == i2 {
            let down = points[i1 - 1];
            let up = points[i1];
            assert(down.1 < up.1);
            lemma_floor_monotone((k1 - down.0) as int, (k2 - down.0) as int, (up.1 - down.1) as int, (up.0 - down.0) as int);
        } else {
            assert(points[i1].1 <= points[i2 - 1].1) by {
                if i1 < i2 - 1 {
                    assert(points[i1].1 < points[i2 - 1].1);
                }
            }
        }
    }
}

/// The search range moves with the key: both of its ends grow with it.
pub proof fn lemma_search_monotone(v: SplineView, k1: u64, k2: u64)
    requires
        keys_fit(v.keys, v.min_key, v.max_key),
        query_ok(v, k1),
        query_ok(v, k2),
        k1 <= k2,
    ensures
        search_start(v, k1) <= search_start(v, k2),
        search_end(v, k1) <= search_end(v, k2),
{
    lemma_estimate_monotone(v, k1, k2);
}

} // verus!
