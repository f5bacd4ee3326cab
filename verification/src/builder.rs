use vstd::prelude::*;

verus! {

use crate::corridor::{
    Corridor, corridor_of, corridor_step, lemma_corridor_of, corridor_open, sorted, on_first,
    spline_points_of, lemma_spline_points_of, lemma_corridor_points_grow,
};
use crate::orientation::{Orientation, compute_orientation};
use crate::radix::{
    prefix_of, table_len, entry_ok, table_building, table_ok, lemma_prefix_monotone, lemma_entry_counts,
};
use crate::shift::{num_shift_bits, spec_num_shift_bits, lemma_num_shift_bits};
use crate::spline::{RadixSpline, SplineView, lemma_spline_view, lemma_spline_table_entries};

/// What a builder holds, as values.
pub struct BuilderView {
    /// The smallest key the spline will index.
    pub min_key: u64,
    /// The largest key the spline will index.
    pub max_key: u64,
    /// The number of significant bits of the radix table's prefixes.
    pub radix_bits: u64,
    /// The bound on the distance between a key's estimated and true position.
    pub max_error: u64,
    /// The keys added so far, in order.
    pub keys: Seq<u64>,
}

/// Builds a radix spline from sorted keys, one at a time.
pub struct RadixSplineBuilder {
    pub(crate) min_key: u64,
    pub(crate) max_key: u64,
    pub(crate) radix_bits: u64,
    pub(crate) shift_bits: u64,
    pub(crate) max_error: u64,
    pub(crate) previous_key: u64,
    pub(crate) previous_point: (u64, usize),
    pub(crate) previous_prefix: u64,
    pub(crate) radix_table: Vec<u32>,
    pub(crate) spline_points: Vec<(u64, usize)>,
    pub(crate) current_key_count: usize,
    pub(crate) distinct_key_count: usize,
    pub(crate) upper_limit: (u64, u128),
    pub(crate) lower_limit: (u64, usize),
    pub(crate) keys: Ghost<Seq<u64>>,
}

impl View for RadixSplineBuilder {
    type V = BuilderView;

    closed spec fn view(&self) -> BuilderView {
        BuilderView {
            min_key: self.min_key,
            max_key: self.max_key,
            radix_bits: self.radix_bits,
            max_error: self.max_error,
            keys: self.keys@,
        }
    }
}

/// The shift of a radix table over keys from `min_key` to `max_key`.
pub open spec fn shift_for(min_key: u64, max_key: u64, radix_bits: u64) -> int {
    spec_num_shift_bits((max_key - min_key) as u64, radix_bits)
}

/// The radix table over keys from `min_key` to `max_key` fits in memory.
pub open spec fn radix_bits_ok(min_key: u64, max_key: u64, radix_bits: u64) -> bool {
    &&& shift_for(min_key, max_key, radix_bits) < 64
    &&& table_len((max_key - min_key) as u64, shift_for(min_key, max_key, radix_bits) as u64)
        <= usize::MAX
}

/// From 1 to 30 radix bits always give a radix table that can be held.
pub proof fn lemma_radix_bits_in_range(min_key: u64, max_key: u64, radix_bits: u64)
    requires
        min_key < max_key,
        1 <= radix_bits <= 30,
    ensures
        radix_bits_ok(min_key, max_key, radix_bits),
{
    let diff = (max_key - min_key) as u64;
    lemma_num_shift_bits(diff, radix_bits);
    let s = spec_num_shift_bits(diff, radix_bits) as u64;
    assert(radix_bits <= 30 ==> (1u64 << radix_bits) <= 0x4000_0000u64) by (bit_vector);
    assert((diff >> s) < 0x4000_0000);
}

/// The key may follow the keys added so far.
pub open spec fn key_ok(v: BuilderView, key: u64) -> bool {
    &&& v.min_key <= key <= v.max_key
    &&& v.keys.len() > 0 ==> v.keys.last() <= key
}

impl RadixSplineBuilder {
    /// The corridor as the builder's fields hold it.
    pub(crate) closed spec fn corridor(&self) -> Corridor {
        Corridor {
            points: self.spline_points@,
            last: self.previous_point,
            upper: self.upper_limit,
            lower: self.lower_limit,
            distinct: self.distinct_key_count as nat,
        }
    }

    /// The fields that configure the builder are consistent.
    pub(crate) closed spec fn config_ok(&self) -> bool {
        &&& self.min_key < self.max_key
        &&& radix_bits_ok(self.min_key, self.max_key, self.radix_bits)
        &&& self.shift_bits == shift_for(self.min_key, self.max_key, self.radix_bits)
        &&& self.radix_table@.len() == table_len(
            (self.max_key - self.min_key) as u64,
            self.shift_bits,
        )
    }

    /// The keys added so far are sorted and lie between the bounds.
    pub(crate) closed spec fn keys_ok(&self) -> bool {
        let keys = self.keys@;
        &&& sorted(keys)
        &&& forall|i: int| 0 <= i < keys.len() ==> self.min_key <= #[trigger] keys[i] <= self.max_key
        &&& self.current_key_count == keys.len()
        &&& keys.len() <= usize::MAX
        &&& self.previous_key == if keys.len() > 0 {
            keys.last()
        } else {
            self.min_key
        }
    }

    /// The radix table is right for the spline points so far.
    pub(crate) closed spec fn table_building_ok(&self) -> bool {
        table_building(
            self.radix_table@,
            self.spline_points@,
            self.min_key,
            self.shift_bits,
            self.previous_prefix,
        )
    }

    /// The builder is consistent: its spline is the corridor of its keys.
    pub closed spec fn wf(&self) -> bool {
        &&& self.config_ok()
        &&& self.spline_points@.len() <= u32::MAX + 1
        &&& self.keys_ok()
        &&& self.corridor() == corridor_of(self.keys@, self.max_error)
        &&& self.table_building_ok()
    }

    /// A builder for keys from `min_key` to `max_key`, with 18 radix bits and
    /// a maximum error of 32.
    pub fn new(min_key: u64, max_key: u64) -> (r: Self)
        requires
            min_key < max_key,
        ensures
            r.wf(),
            r@ == (BuilderView {
                min_key,
                max_key,
                radix_bits: 18,
                max_error: 32,
                keys: Seq::empty(),
            }),
    {
        let radix_bits: u64 = 18;
        let shift_bits = num_shift_bits(max_key - min_key, radix_bits);
        assert((1u64 << 18u64) == 0x40000u64) by (bit_vector);
        let radix_table_capacity = ((max_key - min_key) >> shift_bits) as usize + 2;
        let r = RadixSplineBuilder {
            min_key,
            max_key,
            previous_key: min_key,
            previous_prefix: 0,
            radix_bits,
            shift_bits,
            max_error: 32,
            radix_table: vec![0; radix_table_capacity],
            spline_points: Vec::new(),
            current_key_count: 0,
            distinct_key_count: 0,
            upper_limit: (0, 0),
            lower_limit: (0, 0),
            previous_point: (0, 0),
            keys: Ghost(Seq::empty()),
        };
        proof {
            assert(r.corridor() == corridor_of(Seq::<u64>::empty(), 32));
            assert(entry_ok(r.spline_points@, min_key, shift_bits, 0, r.radix_table@[0] as int));
        }
        r
    }

    /// Sets the error bound; only before the first key.
    pub fn max_error(&mut self, max_error: u64) -> (r: &mut Self)
        requires
            old(self).wf(),
            old(self)@.keys.len() == 0,
        ensures
            r.wf(),
            r@ == (BuilderView { max_error, ..old(self)@ }),
            *final(self) == *final(r),
    {
        proof {
            assert(old(self)@.keys == self.keys@);
            assert(self.keys@.len() == 0);
            assert(self.keys@ =~= Seq::<u64>::empty());
        }
        self.max_error = max_error;
        proof {
            assert(self.corridor() == corridor_of(self.keys@, max_error));
        }
        self
    }

    /// Sets the number of radix bits; only before the first key, and only
    /// where the radix table it asks for can be held.
    pub fn radix_bits(&mut self, radix_bits: u64) -> (r: &mut Self)
        requires
            old(self).wf(),
            old(self)@.keys.len() == 0,
            radix_bits_ok(old(self)@.min_key, old(self)@.max_key, radix_bits),
        ensures
            r.wf(),
            r@ == (BuilderView { radix_bits, ..old(self)@ }),
            *final(self) == *final(r),
    {
        proof {
            assert(old(self)@.keys == self.keys@);
        }
        self.radix_bits = radix_bits;
        self.shift_bits = num_shift_bits(self.max_key - self.min_key, radix_bits);
        let radix_table_capacity = ((self.max_key - self.min_key) >> self.shift_bits) as usize;
        let ghost old_table = self.radix_table@;
        proof {
            assert forall|p: int| 0 <= p < old_table.len() implies old_table[p] == 0 by {
                if p == 0 {
                    assert(entry_ok(self.spline_points@, self.min_key, old(self).shift_bits, 0, old_table[0] as int));
                }
            }
        }
        self.radix_table.resize(radix_table_capacity + 2, 0);
        proof {
            let t = self.radix_table@;
            assert forall|p: int| 0 <= p < t.len() implies t[p] == 0 by {
                if t.len() <= old_table.len() {
                    assert(t == old_table.subrange(0, t.len() as int));
                    assert(t[p] == old_table[p]);
                } else if p < old_table.len() {
                    assert(t.subrange(0, old_table.len() as int) == old_table);
                    assert(t.subrange(0, old_table.len() as int)[p] == t[p]);
                }
            }
            assert(self.spline_points@.len() == 0);
            assert(entry_ok(self.spline_points@, self.min_key, self.shift_bits, 0, t[0] as int));
        }
        self
    }

    /// Every field but the radix table and its last prefix is that of `o`.
    pub(crate) closed spec fn same_but_table(&self, o: &Self) -> bool {
        &&& self.min_key == o.min_key
        &&& self.max_key == o.max_key
        &&& self.radix_bits == o.radix_bits
        &&& self.shift_bits == o.shift_bits
        &&& self.max_error == o.max_error
        &&& self.previous_key == o.previous_key
        &&& self.previous_point == o.previous_point
        &&& self.spline_points@ == o.spline_points@
        &&& self.current_key_count == o.current_key_count
        &&& self.distinct_key_count == o.distinct_key_count
        &&& self.upper_limit == o.upper_limit
        &&& self.lower_limit == o.lower_limit
        &&& self.keys@ == o.keys@
        &&& self.radix_table@.len() == o.radix_table@.len()
    }

    /// Points the radix table at the spline point just added: every prefix
    /// after the previous one, up to the new key's, starts at the new point.
    fn maybe_add_key_to_radix_table(&mut self, key: u64)
        requires
            old(self).config_ok(),
            old(self).spline_points@.len() > 0,
            old(self).spline_points@.len() - 1 <= u32::MAX,
            old(self).spline_points@.last().0 == key,
            old(self).min_key <= key <= old(self).max_key,
            (old(self).previous_prefix as int) < old(self).radix_table@.len(),
            prefix_of(key, old(self).min_key, old(self).shift_bits) >= old(self).previous_prefix,
            forall|k: int|
                0 <= k < old(self).spline_points@.len() - 1 ==> #[trigger] prefix_of(
                    old(self).spline_points@[k].0,
                    old(self).min_key,
                    old(self).shift_bits,
                ) <= old(self).previous_prefix,
            forall|p: int|
                0 <= p <= old(self).previous_prefix ==> #[trigger] entry_ok(
                    old(self).spline_points@,
                    old(self).min_key,
                    old(self).shift_bits,
                    p,
                    old(self).radix_table@[p] as int,
                ),
            forall|p: int|
                old(self).previous_prefix < p < old(self).radix_table@.len()
                    ==> #[trigger] old(self).radix_table@[p] == 0,
        ensures
            final(self).same_but_table(old(self)),
            final(self).config_ok(),
            final(self).table_building_ok(),
    {
        let ghost points = self.spline_points@;
        let ghost min_key = self.min_key;
        let ghost shift = self.shift_bits;
        let ghost prev = self.previous_prefix;
        let curr_prefix = (key - self.min_key) >> self.shift_bits;
        proof {
            lemma_prefix_monotone(key, self.max_key, self.min_key, self.shift_bits);
            assert(prefix_of(self.max_key, min_key, shift) == (self.max_key - self.min_key) as u64 >> shift);
        }
        if curr_prefix != self.previous_prefix {
            let index = self.spline_points.len() - 1;
            let mut i = self.previous_prefix + 1;
            while i <= curr_prefix
                invariant
                    self.same_but_table(old(self)),
                    self.config_ok(),
                    self.previous_prefix == prev,
                    points == self.spline_points@,
                    min_key == self.min_key,
                    shift == self.shift_bits,
                    index == points.len() - 1,
                    index <= u32::MAX,
                    prev < i <= curr_prefix + 1,
                    (curr_prefix as int) < self.radix_table@.len(),
                    curr_prefix == prefix_of(key, min_key, shift),
                    forall|p: int|
                        0 <= p <= prev ==> #[trigger] self.radix_table@[p] == old(self).radix_table@[p],
                    forall|p: int| prev < p < i ==> #[trigger] self.radix_table@[p] == index,
                    forall|p: int| i <= p < self.radix_table@.len() ==> #[trigger] self.radix_table@[p] == 0,
                decreases curr_prefix + 1 - i,
            {
                self.radix_table.set(i as usize, index as u32);
                i += 1;
            }
            self.previous_prefix = curr_prefix;
        }
        proof {
            let t = self.radix_table@;
            let c = curr_prefix;
            assert forall|k: int| 0 <= k < points.len() implies #[trigger] prefix_of(points[k].0, min_key, shift) <= c by {
                if k < points.len() - 1 {
                    assert(prefix_of(points[k].0, min_key, shift) <= prev);
                }
            }
            assert forall|p: int| 0 <= p <= c implies #[trigger] entry_ok(points, min_key, shift, p, t[p] as int) by {
                if p <= prev {
                    assert(entry_ok(points, min_key, shift, p, old(self).radix_table@[p] as int));
                    assert(t[p] == old(self).radix_table@[p]);
                    assert(old(self).radix_table@[p] as int <= points.len() - 1) by {
                        if old(self).radix_table@[p] as int == points.len() {
                            assert(prefix_of(points[points.len() - 1].0, min_key, shift) < p);
                        }
                    }
                } else {
                    assert(t[p] as int == points.len() - 1);
                    assert forall|k: int| 0 <= k < t[p] as int implies #[trigger] prefix_of(points[k].0, min_key, shift) < p by {
                        assert(prefix_of(points[k].0, min_key, shift) <= prev);
                    }
                }
            }
        }
    }

    /// Every field but the spline points and the radix table is that of `o`.
    pub(crate) closed spec fn same_but_spline(&self, o: &Self) -> bool {
        &&& self.min_key == o.min_key
        &&& self.max_key == o.max_key
        &&& self.radix_bits == o.radix_bits
        &&& self.shift_bits == o.shift_bits
        &&& self.max_error == o.max_error
        &&& self.previous_key == o.previous_key
        &&& self.previous_point == o.previous_point
        &&& self.current_key_count == o.current_key_count
        &&& self.distinct_key_count == o.distinct_key_count
        &&& self.upper_limit == o.upper_limit
        &&& self.lower_limit == o.lower_limit
        &&& self.keys@ == o.keys@
    }

    /// Appends the spline point `(key, position)` and indexes it.
    fn add_key_to_spline(&mut self, key: u64, position: usize)
        requires
            old(self).config_ok(),
            old(self).table_building_ok(),
            old(self).spline_points@.len() <= u32::MAX,
            old(self).min_key <= key <= old(self).max_key,
            old(self).spline_points@.len() > 0 ==> old(self).min_key
                <= old(self).spline_points@.last().0 < key,
        ensures
            final(self).same_but_spline(old(self)),
            final(self).spline_points@ == old(self).spline_points@.push((key, position)),
            final(self).config_ok(),
            final(self).table_building_ok(),
    {
        let ghost old_points = self.spline_points@;
        self.spline_points.push((key, position));
        proof {
            let points = self.spline_points@;
            let min_key = self.min_key;
            let shift = self.shift_bits;
            let prev = self.previous_prefix;
            if old_points.len() > 0 {
                lemma_prefix_monotone(old_points.last().0, key, min_key, shift);
            }
            assert(points.last().0 == key);
            assert forall|k: int| 0 <= k < points.len() - 1 implies #[trigger] prefix_of(points[k].0, min_key, shift) <= prev by {
                assert(points[k] == old_points[k]);
                assert(prefix_of(old_points[k].0, min_key, shift) <= prev);
            }
            assert forall|p: int| 0 <= p <= prev implies #[trigger] entry_ok(points, min_key, shift, p, self.radix_table@[p] as int) by {
                let t = self.radix_table@[p] as int;
                assert(entry_ok(old_points, min_key, shift, p, t));
                assert forall|k: int| 0 <= k < t implies #[trigger] prefix_of(points[k].0, min_key, shift) < p by {
                    assert(points[k] == old_points[k]);
                    assert(prefix_of(old_points[k].0, min_key, shift) < p);
                }
                assert forall|k: int| t <= k < points.len() implies #[trigger] prefix_of(points[k].0, min_key, shift) >= p by {
                    if k < old_points.len() {
                        assert(points[k] == old_points[k]);
                        assert(prefix_of(old_points[k].0, min_key, shift) >= p);
                    }
                }
            }
            assert forall|p: int| prev < p < self.radix_table@.len() implies #[trigger] self.radix_table@[p] == 0 by {
                assert(old(self).radix_table@[p] == 0);
            }
        }
        self.maybe_add_key_to_radix_table(key);
    }

    /// Every field but those of the corridor and the radix table is that of `o`.
    pub(crate) closed spec fn same_but_corridor(&self, o: &Self) -> bool {
        &&& self.min_key == o.min_key
        &&& self.max_key == o.max_key
        &&& self.radix_bits == o.radix_bits
        &&& self.shift_bits == o.shift_bits
        &&& self.max_error == o.max_error
        &&& self.previous_key == o.previous_key
        &&& self.current_key_count == o.current_key_count
        &&& self.keys@ == o.keys@
    }

    /// One step of the greedy spline corridor: the key at `position` either
    /// narrows the corridor from the last spline point or, when it falls
    /// outside, fixes the previous distinct key as a spline point.
    fn maybe_add_key_to_spline(&mut self, key: u64, position: usize)
        requires
            old(self).wf(),
            key_ok(old(self)@, key),
            old(self)@.keys.len() < usize::MAX,
            corridor_step(old(self).corridor(), key, position, old(self).max_error).points.len()
                <= u32::MAX + 1,
            position == old(self).current_key_count,
        ensures
            final(self).same_but_corridor(old(self)),
            final(self).corridor() == corridor_step(
                old(self).corridor(),
                key,
                position,
                old(self).max_error,
            ),
            final(self).config_ok(),
            final(self).table_building_ok(),
    {
        let ghost c = self.corridor();
        let ghost keys = self.keys@;
        let ghost err = self.max_error;
        let ghost n = keys.len() as int;
        proof {
            lemma_corridor_of(keys, err);
            if n > 0 {
                let last = c.points.len() - 1;
                assert(c.points[last].1 >= last);
                assert(on_first(keys, c.points[last]));
                assert(self.min_key <= keys[c.points[last].1 as int]);
            }
        }
        if self.current_key_count == 0 {
            self.distinct_key_count += 1;
            self.add_key_to_spline(key, position);
            self.previous_point = (key, position);
            return;
        }
        if key == self.previous_key {
            return;
        }
        self.distinct_key_count += 1;
        let upper_y: u128 = position as u128 + self.max_error as u128;
        let lower_y: usize = if position as u64 >= self.max_error {
            position - self.max_error as usize
        } else {
            0
        };
        if self.distinct_key_count == 2 {
            self.upper_limit = (key, upper_y);
            self.lower_limit = (key, lower_y);
            self.previous_point = (key, position);
            return;
        }
        let (last_point, last_distance) = self.spline_points[self.spline_points.len() - 1];
        proof {
            assert(corridor_open(c, keys, err));
        }
        let upper_limit = (
            self.upper_limit.0 - last_point,
            self.upper_limit.1 as i128 - last_distance as i128,
        );
        let lower_limit = (
            self.lower_limit.0 - last_point,
            self.lower_limit.1 as i128 - last_distance as i128,
        );
        let dx = key - last_point;
        let dy = position as i128 - last_distance as i128;
        let delta = (dx, dy);
        if compute_orientation(upper_limit, delta) != Orientation::Clockwise || compute_orientation(
            lower_limit,
            delta,
        ) != Orientation::AntiClockwise {
            let (prev_key, dist) = self.previous_point;
            self.add_key_to_spline(prev_key, dist);
            self.upper_limit = (key, upper_y);
            self.lower_limit = (key, lower_y);
        } else {
            let upper_dy = upper_y as i128 - last_distance as i128;
            if compute_orientation(upper_limit, (dx, upper_dy)) == Orientation::Clockwise {
                self.upper_limit = (key, upper_y);
            }
            let lower_dy = lower_y as i128 - last_distance as i128;
            if compute_orientation(lower_limit, (dx, lower_dy)) == Orientation::AntiClockwise {
                self.lower_limit = (key, lower_y);
            }
        }
        self.previous_point = (key, position);
    }

    /// Adds the next key, at the next position. The radix table indexes
    /// spline points with `u32` entries, so the spline may not grow past
    /// `u32::MAX + 1` points on the way.
    pub fn add_key(&mut self, key: u64) -> (r: &mut Self)
        requires
            old(self).wf(),
            key_ok(old(self)@, key),
            old(self)@.keys.len() < usize::MAX,
            corridor_of(old(self)@.keys.push(key), old(self)@.max_error).points.len() <= u32::MAX
                + 1,
        ensures
            r.wf(),
            r@ == (BuilderView { keys: old(self)@.keys.push(key), ..old(self)@ }),
            *final(self) == *final(r),
    {
        let ghost keys = self.keys@;
        proof {
            assert(keys.push(key).drop_last() == keys);
        }
        let position = self.current_key_count;
        self.maybe_add_key_to_spline(key, position);
        self.previous_key = key;
        self.current_key_count += 1;
        self.keys = Ghost(keys.push(key));
        proof {
            let k2 = keys.push(key);
            assert(k2.drop_last() == keys);
            assert(sorted(k2)) by {
                assert forall|i: int, j: int| 0 <= i <= j < k2.len() implies k2[i] <= k2[j] by {
                    if j == keys.len() && i < j {
                        assert(keys[i] <= keys[keys.len() - 1]);
                    }
                }
            }
        }
        self
    }

    /// Adds the keys in order, each at the next position: the same as adding
    /// them one by one with `add_key`.
    pub fn add_keys(&mut self, keys: &[u64]) -> (r: &mut Self)
        requires
            old(self).wf(),
            sorted(old(self)@.keys + keys@),
            forall|i: int|
                0 <= i < keys@.len() ==> old(self)@.min_key <= #[trigger] keys@[i]
                    <= old(self)@.max_key,
            old(self)@.keys.len() + keys@.len() <= usize::MAX,
            corridor_of(old(self)@.keys + keys@, old(self)@.max_error).points.len() <= u32::MAX + 1,
        ensures
            r.wf(),
            r@ == (BuilderView { keys: old(self)@.keys + keys@, ..old(self)@ }),
            *final(self) == *final(r),
    {
        let ghost start = self@;
        let mut i: usize = 0;
        while i < keys.len()
            invariant
                self.wf(),
                0 <= i <= keys@.len(),
                self@ == (BuilderView { keys: start.keys + keys@.take(i as int), ..start }),
                sorted(start.keys + keys@),
                forall|j: int|
                    0 <= j < keys@.len() ==> start.min_key <= #[trigger] keys@[j] <= start.max_key,
                start.keys.len() + keys@.len() <= usize::MAX,
                corridor_of(start.keys + keys@, start.max_error).points.len() <= u32::MAX + 1,
            decreases keys@.len() - i,
        {
            let ghost all = start.keys + keys@;
            proof {
                let before = start.keys + keys@.take(i as int);
                assert(before.len() > 0 ==> before.last() == all[before.len() - 1]);
                assert(all[before.len() as int] == keys@[i as int]);
                assert(before.push(keys@[i as int]) == all.take(before.len() + 1 as int));
                lemma_corridor_points_grow(all, start.max_error, before.len() + 1 as int);
            }
            self.add_key(keys[i]);
            proof {
                assert(start.keys + keys@.take(i + 1) == (start.keys + keys@.take(i as int)).push(
                    keys@[i as int],
                ));
            }
            i += 1;
        }
        proof {
            assert(keys@.take(keys@.len() as int) == keys@);
        }
        self
    }

    /// Closes the spline at the first position of the last key and points every prefix after the
    /// last spline point's past the end of the spline.
    fn finalize(&mut self)
        requires
            old(self).wf(),
            old(self)@.keys.len() == 0 || old(self)@.keys.last() == old(self)@.max_key,
            spline_points_of(old(self)@.keys, old(self)@.max_error).len() <= u32::MAX,
        ensures
            final(self)@ == old(self)@,
            final(self).config_ok(),
            final(self).keys_ok(),
            final(self).current_key_count == old(self).current_key_count,
            final(self).spline_points@ == spline_points_of(old(self)@.keys, old(self)@.max_error),
            table_ok(
                final(self).radix_table@,
                final(self).spline_points@,
                final(self).min_key,
                final(self).shift_bits,
            ),
    {
        let ghost keys = self.keys@;
        let ghost err = self.max_error;
        proof {
            lemma_corridor_of(keys, err);
            lemma_spline_points_of(keys, err);
            if keys.len() > 0 {
                let c = corridor_of(keys, err);
                let last = c.points.len() - 1;
                assert(c.points[last].1 >= last);
                assert(on_first(keys, c.points[last]));
                assert(self.min_key <= keys[c.points[last].1 as int]);
                assert(keys[c.points[last].1 as int] <= keys[keys.len() - 1]);
            }
        }
        if self.current_key_count > 0 && self.spline_points[self.spline_points.len() - 1].0
            != self.previous_key {
            self.add_key_to_spline(self.previous_point.0, self.previous_point.1);
        }
        let ghost points = self.spline_points@;
        let ghost min_key = self.min_key;
        let ghost shift = self.shift_bits;
        let ghost prev = self.previous_prefix;
        assert(points == spline_points_of(keys, err));
        let num_spline_points = self.spline_points.len() as u32;
        let mut i = self.previous_prefix as usize + 1;
        while i < self.radix_table.len()
            invariant
                self@ == old(self)@,
                self.config_ok(),
                self.keys_ok(),
                self.current_key_count == old(self).current_key_count,
                self.spline_points@ == points,
                self.min_key == min_key,
                self.shift_bits == shift,
                num_spline_points == points.len(),
                prev + 1 <= i <= self.radix_table@.len(),
                forall|k: int| 0 <= k < points.len() ==> #[trigger] prefix_of(points[k].0, min_key, shift) <= prev,
                forall|p: int| 0 <= p <= prev ==> #[trigger] entry_ok(points, min_key, shift, p, self.radix_table@[p] as int),
                forall|p: int| prev < p < i ==> #[trigger] self.radix_table@[p] == num_spline_points,
            decreases self.radix_table@.len() - i,
        {
            self.radix_table.set(i, num_spline_points);
            i += 1;
        }
        proof {
            let t = self.radix_table@;
            assert forall|p: int| 0 <= p < t.len() implies #[trigger] entry_ok(points, min_key, shift, p, t[p] as int) by {
                if p > prev {
                    assert forall|k: int| 0 <= k < t[p] as int implies #[trigger] prefix_of(points[k].0, min_key, shift) < p by {
                        assert(prefix_of(points[k].0, min_key, shift) <= prev);
                    }
                }
            }
        }
    }

    /// The spline over the keys added; the last key must be the largest
    /// key the builder was made for, and the spline's points must fit the
    /// radix table's `u32` entries.
    pub fn build(self) -> (r: RadixSpline)
        requires
            self.wf(),
            self@.keys.len() == 0 || self@.keys.last() == self@.max_key,
            spline_points_of(self@.keys, self@.max_error).len() <= u32::MAX,
        ensures
            r@ == (SplineView {
                min_key: self@.min_key,
                max_key: self@.max_key,
                max_error: self@.max_error,
                shift_bits: shift_for(self@.min_key, self@.max_key, self@.radix_bits) as u64,
                keys: self@.keys,
            }),
            r.table_entries() == (((self@.max_key - self@.min_key) as u64) >> (shift_for(
                self@.min_key,
                self@.max_key,
                self@.radix_bits,
            ) as u64)) + 2,
            self@.radix_bits < 64 ==> r.table_entries() <= (1u64 << self@.radix_bits) + 1,
    {
        let mut builder = self;
        builder.finalize();
        proof {
            lemma_spline_points_of(builder.keys@, builder.max_error);
        }
        let spline = RadixSpline {
            min_key: builder.min_key,
            max_key: builder.max_key,
            current_key_count: builder.current_key_count,
            shift_bits: builder.shift_bits,
            max_error: builder.max_error,
            radix_table: builder.radix_table,
            spline_points: builder.spline_points,
            keys: builder.keys,
        };
        proof {
            lemma_spline_view(&spline);
            lemma_spline_table_entries(&spline);
            lemma_num_shift_bits((builder.max_key - builder.min_key) as u64, builder.radix_bits);
        }
        spline
    }

    /// The two builders hold the same values in every field.
    pub closed spec fn same_state(&self, o: &Self) -> bool {
        &&& self.min_key == o.min_key
        &&& self.max_key == o.max_key
        &&& self.radix_bits == o.radix_bits
        &&& self.shift_bits == o.shift_bits
        &&& self.max_error == o.max_error
        &&& self.previous_key == o.previous_key
        &&& self.previous_point == o.previous_point
        &&& self.previous_prefix == o.previous_prefix
        &&& self.radix_table@ == o.radix_table@
        &&& self.spline_points@ == o.spline_points@
        &&& self.current_key_count == o.current_key_count
        &&& self.distinct_key_count == o.distinct_key_count
        &&& self.upper_limit == o.upper_limit
        &&& self.lower_limit == o.lower_limit
        &&& self.keys@ == o.keys@
    }

    /// A builder is determined by its view: whichever way the same keys
    /// were added (with `add_keys`, or one by one with `add_key`), the
    /// builders hold the same state.
    pub proof fn lemma_state_of_view(a: &Self, b: &Self)
        requires
            a.wf(),
            b.wf(),
            a@ == b@,
        ensures
            a.same_state(b),
    {
        assert(a.keys@ == b.keys@);
        assert(a.corridor() == b.corridor());
        let points = a.spline_points@;
        let ta = a.radix_table@;
        let tb = b.radix_table@;
        assert(ta.len() == tb.len());
        assert(a.previous_prefix == b.previous_prefix);
        let prev = a.previous_prefix;
        assert forall|p: int| 0 <= p < ta.len() implies ta[p] == tb[p] by {
            if p <= prev {
                assert(entry_ok(points, a.min_key, a.shift_bits, p, ta[p] as int));
                assert(entry_ok(points, b.min_key, b.shift_bits, p, tb[p] as int));
                lemma_entry_counts(points, a.min_key, a.shift_bits, p, ta[p] as int);
                lemma_entry_counts(points, a.min_key, a.shift_bits, p, tb[p] as int);
            }
        }
        assert(ta =~= tb);
    }
}

} // verus!
