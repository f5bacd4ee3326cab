use vstd::prelude::*;

verus! {

/// The radix prefix of a key: its offset from the minimum key, shifted right.
pub open spec fn prefix_of(key: u64, min_key: u64, shift: u64) -> u64 {
    ((key - min_key) as u64) >> shift
}

/// The number of entries of a radix table over offsets up to `diff`.
pub open spec fn table_len(diff: u64, shift: u64) -> int {
    (diff >> shift) + 2
}

/// Table entry `t` for prefix `p`: exactly the spline points before index
/// `t` have a prefix below `p`.
pub open spec fn entry_ok(points: Seq<(u64, usize)>, min_key: u64, shift: u64, p: int, t: int) -> bool {
    &&& 0 <= t <= points.len()
    &&& forall|k: int| 0 <= k < t ==> #[trigger] prefix_of(points[k].0, min_key, shift) < p
    &&& forall|k: int|
        t <= k < points.len() ==> #[trigger] prefix_of(points[k].0, min_key, shift) >= p
}

/// Every entry of the finished radix table is right.
pub open spec fn table_ok(table: Seq<u32>, points: Seq<(u64, usize)>, min_key: u64, shift: u64) -> bool {
    forall|p: int| 0 <= p < table.len() ==> #[trigger] entry_ok(points, min_key, shift, p, table[p] as int)
}

/// The radix table while spline points are added: entries up to the prefix
/// of the last point are right, the others are still 0.
pub open spec fn table_building(
    table: Seq<u32>,
    points: Seq<(u64, usize)>,
    min_key: u64,
    shift: u64,
    prev: u64,
) -> bool {
    &&& (prev as int) < table.len()
    &&& points.len() == 0 ==> prev == 0
    &&& points.len() > 0 ==> prefix_of(points.last().0, min_key, shift) == prev
    &&& forall|k: int| 0 <= k < points.len() ==> #[trigger] prefix_of(points[k].0, min_key, shift) <= prev
    &&& forall|p: int| 0 <= p <= prev ==> #[trigger] entry_ok(points, min_key, shift, p, table[p] as int)
    &&& forall|p: int| prev < p < table.len() ==> #[trigger] table[p] == 0
}

/// A larger key has a prefix at least as large.
pub proof fn lemma_prefix_monotone(a: u64, b: u64, min_key: u64, shift: u64)
    requires
        min_key <= a <= b,
    ensures
        prefix_of(a, min_key, shift) <= prefix_of(b, min_key, shift),
{
    let da = (a - min_key) as u64;
    let db = (b - min_key) as u64;
    assert(da <= db ==> da >> shift <= db >> shift) by (bit_vector);
}

/// The table entries grow with the prefix.
pub proof fn lemma_entries_grow(points: Seq<(u64, usize)>, min_key: u64, shift: u64, p: int, t1: int, t2: int)
    requires
        entry_ok(points, min_key, shift, p, t1),
        entry_ok(points, min_key, shift, p + 1, t2),
    ensures
        t1 <= t2,
{
    if t2 < t1 {
        assert(prefix_of(points[t2].0, min_key, shift) < p);
    }
}


/// The number of spline points whose prefix is below `p`.
pub open spec fn prefix_count(points: Seq<(u64, usize)>, min_key: u64, shift: u64, p: int) -> int
    decreases points.len(),
{
    if points.len() == 0 {
        0
    } else {
        prefix_count(points.drop_last(), min_key, shift, p) + if prefix_of(
            points.last().0,
            min_key,
            shift,
        ) < p {
            1int
        } else {
            0int
        }
    }
}

/// A right table entry for prefix `p` counts the spline points whose prefix
/// is below `p`.
pub proof fn lemma_entry_counts(points: Seq<(u64, usize)>, min_key: u64, shift: u64, p: int, t: int)
    requires
        entry_ok(points, min_key, shift, p, t),
    ensures
        t == prefix_count(points, min_key, shift, p),
    decreases points.len(),
{
    if points.len() > 0 {
        let init = points.drop_last();
        let n = points.len() - 1;
        if prefix_of(points[n].0, min_key, shift) < p {
            assert(t == points.len()) by {
                if t < points.len() {
                    assert(prefix_of(points[n].0, min_key, shift) >= p);
                }
            }
            assert(entry_ok(init, min_key, shift, p, n)) by {
                assert forall|k: int| 0 <= k < n implies #[trigger] prefix_of(init[k].0, min_key, shift) < p by {
                    assert(prefix_of(points[k].0, min_key, shift) < p);
                }
            }
            lemma_entry_counts(init, min_key, shift, p, n);
        } else {
            assert(t <= n) by {
                if t == points.len() {
                    assert(prefix_of(points[n].0, min_key, shift) < p);
                }
            }
            assert(entry_ok(init, min_key, shift, p, t)) by {
                assert forall|k: int| 0 <= k < t implies #[trigger] prefix_of(init[k].0, min_key, shift) < p by {
                    assert(prefix_of(points[k].0, min_key, shift) < p);
                }
                assert forall|k: int| t <= k < init.len() implies #[trigger] prefix_of(init[k].0, min_key, shift) >= p by {
                    assert(prefix_of(points[k].0, min_key, shift) >= p);
                }
            }
            lemma_entry_counts(init, min_key, shift, p, t);
        }
    }
}

/// Every entry of a right radix table counts the spline points whose
/// prefix is below the entry's prefix.
pub proof fn lemma_table_counts(table: Seq<u32>, points: Seq<(u64, usize)>, min_key: u64, shift: u64)
    requires
        table_ok(table, points, min_key, shift),
    ensures
        forall|p: int| 0 <= p < table.len() ==> #[trigger] table[p] as int == prefix_count(points, min_key, shift, p),
{
    assert forall|p: int| 0 <= p < table.len() implies #[trigger] table[p] as int == prefix_count(points, min_key, shift, p) by {
        assert(entry_ok(points, min_key, shift, p, table[p] as int));
        lemma_entry_counts(points, min_key, shift, p, table[p] as int);
    }
}

} // verus!
