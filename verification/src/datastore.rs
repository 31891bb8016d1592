//! Per-command series storage: one ring buffer per monitored command, the
//! sliding x-window of each series, rolling statistics, and the shared axis
//! queries the renderer reads.

use vstd::prelude::*;

use crate::axis::{
    nice_axis, spec_axis_increment, spec_axis_max, spec_axis_min, spec_axis_ticks,
    spec_ticks_cramped,
};
use crate::labels::spec_tick_label;
use crate::ringbuffer::{push_step, FixedRingBuffer};
use vstd::arithmetic::div_mod::{lemma_div_by_self, lemma_div_is_ordered, lemma_fundamental_div_mod};
use vstd::arithmetic::mul::lemma_mul_inequality;
use crate::stats::{p95_index, present_values, stats_of_window, value_le, SeriesStats};
use crate::{Sample, BOUND_LIMIT, VALUE_LIMIT};

verus! {

/// The most recent value of a window: 0 when the window is empty or its
/// newest sample is missing.
pub open spec fn spec_last_value(s: Seq<Sample>) -> i64 {
    if s.len() == 0 {
        0
    } else {
        match s.last().value {
            Some(v) => v,
            None => 0,
        }
    }
}

/// Minimum of a value sequence, 0 when it is empty.
pub open spec fn values_min(s: Seq<i64>) -> i64
    decreases s.len(),
{
    if s.len() == 0 {
        0
    } else if s.len() == 1 {
        s[0]
    } else {
        let m = values_min(s.drop_last());
        if s.last() < m {
            s.last()
        } else {
            m
        }
    }
}

/// Maximum of a value sequence, 0 when it is empty.
pub open spec fn values_max(s: Seq<i64>) -> i64
    decreases s.len(),
{
    if s.len() == 0 {
        0
    } else if s.len() == 1 {
        s[0]
    } else {
        let m = values_max(s.drop_last());
        if s.last() > m {
            s.last()
        } else {
            m
        }
    }
}

proof fn lemma_values_min_le_max(s: Seq<i64>)
    ensures
        values_min(s) <= values_max(s),
    decreases s.len(),
{
    if s.len() > 1 {
        lemma_values_min_le_max(s.drop_last());
    }
}

proof fn lemma_values_min_max_bounds(s: Seq<i64>, lo: int, hi: int)
    requires
        lo <= 0 <= hi,
        forall|k: int| 0 <= k < s.len() ==> lo <= #[trigger] s[k] <= hi,
    ensures
        lo <= values_min(s) <= hi,
        lo <= values_max(s) <= hi,
    decreases s.len(),
{
    if s.len() > 1 {
        lemma_values_min_max_bounds(s.drop_last(), lo, hi);
    }
}

/// Whether every non-missing value of `s` is within the fixed-point limit.
pub open spec fn samples_bounded(s: Seq<Sample>) -> bool {
    forall|k: int|
        0 <= k < s.len() ==> match #[trigger] s[k].value {
            Some(v) => -VALUE_LIMIT <= v <= VALUE_LIMIT,
            None => true,
        }
}

/// Owns every series: ring buffers, window bounds, and the y-axis label.
pub struct DataStore {
    data: Vec<FixedRingBuffer<Sample>>,
    window_min: Vec<u64>,
    window_max: Vec<u64>,
    buffer_size: usize,
    y_label: String,
}

impl DataStore {
    /// Number of monitored series.
    pub closed spec fn series_count(&self) -> int {
        self.data@.len() as int
    }

    /// Configured history length of every series.
    pub closed spec fn capacity(&self) -> int {
        self.buffer_size as int
    }

    /// Current window of series `i`, oldest sample first.
    pub closed spec fn series(&self, i: int) -> Seq<Sample> {
        self.data@[i]@
    }

    /// Lower bound of the x-domain of series `i`.
    pub closed spec fn window_min_of(&self, i: int) -> int {
        self.window_min@[i] as int
    }

    /// Upper bound of the x-domain of series `i`.
    pub closed spec fn window_max_of(&self, i: int) -> int {
        self.window_max@[i] as int
    }

    /// The unit label appended to tick text.
    pub closed spec fn label(&self) -> Seq<char> {
        self.y_label@
    }

    /// Well-formedness: windows and buffers agree in number, each buffer is
    /// consistent with the shared capacity, each window always spans exactly
    /// that capacity, and every stored value is within the fixed-point
    /// limit.
    pub closed spec fn wf(&self) -> bool {
        &&& 1 <= self.buffer_size
        &&& self.buffer_size <= usize::MAX / 2
        &&& self.window_min@.len() == self.data@.len()
        &&& self.window_max@.len() == self.data@.len()
        &&& forall|i: int| 0 <= i < self.data@.len() ==> (#[trigger] self.data@[i]).inv()
        &&& forall|i: int|
            0 <= i < self.data@.len() ==> (#[trigger] self.data@[i]).capacity()
                == self.buffer_size
        &&& forall|i: int|
            0 <= i < self.data@.len() ==> (#[trigger] self.window_max@[i]) as int
                == self.window_min@[i] + self.buffer_size
        &&& forall|i: int|
            0 <= i < self.data@.len() ==> samples_bounded((#[trigger] self.data@[i])@)
    }

    /// A store for `num_series` commands, each remembering `buffer_size`
    /// samples; every window starts as `[0, buffer_size]`.
    pub fn new(num_series: usize, buffer_size: usize, y_label: String) -> (r: Self)
        requires
            1 <= buffer_size,
            buffer_size <= usize::MAX / 2,
            buffer_size <= u64::MAX,
        ensures
            r.wf(),
            r.series_count() == num_series,
            r.capacity() == buffer_size,
            r.label() == y_label@,
            forall|i: int| 0 <= i < num_series ==> r.series(i) == Seq::<Sample>::empty(),
            forall|i: int| 0 <= i < num_series ==> r.window_min_of(i) == 0,
            forall|i: int| 0 <= i < num_series ==> r.window_max_of(i) == buffer_size,
    {
        let mut data: Vec<FixedRingBuffer<Sample>> = Vec::new();
        let mut window_min: Vec<u64> = Vec::new();
        let mut window_max: Vec<u64> = Vec::new();
        let mut i: usize = 0;
        while i < num_series
            invariant
                i <= num_series,
                1 <= buffer_size,
                buffer_size <= usize::MAX / 2,
                buffer_size <= u64::MAX,
                data@.len() == i,
                window_min@.len() == i,
                window_max@.len() == i,
                forall|k: int| 0 <= k < i ==> (#[trigger] data@[k]).inv(),
                forall|k: int| 0 <= k < i ==> (#[trigger] data@[k]).capacity() == buffer_size,
                forall|k: int| 0 <= k < i ==> (#[trigger] data@[k])@ == Seq::<Sample>::empty(),
                forall|k: int| 0 <= k < i ==> (#[trigger] window_min@[k]) == 0,
                forall|k: int| 0 <= k < i ==> (#[trigger] window_max@[k]) == buffer_size as u64,
            decreases num_series - i,
        {
            data.push(FixedRingBuffer::new(buffer_size));
            window_min.push(0);
            window_max.push(buffer_size as u64);
            i += 1;
        }
        DataStore { data, window_min, window_max, buffer_size, y_label }
    }

    /// Records a sample for series `cmd_index`.  If the series' buffer was
    /// already full, the window slides forward by one slot as the oldest
    /// sample is evicted.
    pub fn update(&mut self, cmd_index: usize, x_index: u64, item: Option<i64>)
        requires
            old(self).wf(),
            cmd_index < old(self).series_count(),
            old(self).window_max_of(cmd_index as int) < u64::MAX,
            match item {
                Some(v) => -VALUE_LIMIT <= v <= VALUE_LIMIT,
                None => true,
            },
        ensures
            final(self).wf(),
            final(self).series_count() == old(self).series_count(),
            final(self).capacity() == old(self).capacity(),
            final(self).label() == old(self).label(),
            final(self).series(cmd_index as int) == push_step(
                old(self).series(cmd_index as int),
                Sample { x: x_index, value: item },
                old(self).capacity(),
            ),
            old(self).series(cmd_index as int).len() < old(self).capacity() ==> {
                &&& final(self).window_min_of(cmd_index as int) == old(self).window_min_of(
                    cmd_index as int,
                )
                &&& final(self).window_max_of(cmd_index as int) == old(self).window_max_of(
                    cmd_index as int,
                )
            },
            old(self).series(cmd_index as int).len() >= old(self).capacity() ==> {
                &&& final(self).window_min_of(cmd_index as int) == old(self).window_min_of(
                    cmd_index as int,
                ) + 1
                &&& final(self).window_max_of(cmd_index as int) == old(self).window_max_of(
                    cmd_index as int,
                ) + 1
            },
            forall|i: int|
                0 <= i < old(self).series_count() && i != cmd_index ==> final(self).series(i)
                    == old(self).series(i) && final(self).window_min_of(i) == old(
                    self,
                ).window_min_of(i) && final(self).window_max_of(i) == old(self).window_max_of(i),
    {
        let was_full = self.data[cmd_index].len() >= self.buffer_size;
        if was_full {
            let wm = self.window_min[cmd_index];
            let wx = self.window_max[cmd_index];
            proof {
                assert(wx < u64::MAX);
            }
            self.window_min[cmd_index] = wm + 1;
            self.window_max[cmd_index] = wx + 1;
        }
        proof {
            self.data@[cmd_index as int].lemma_len_bound();
        }
        let rb = &mut self.data[cmd_index];
        rb.push(Sample { x: x_index, value: item });
        proof {
            let s = self.series(cmd_index as int);
            let older = old(self).series(cmd_index as int);
            assert(samples_bounded(s)) by {
                assert forall|k: int| 0 <= k < s.len() implies match #[trigger] s[k].value {
                    Some(v) => -VALUE_LIMIT <= v <= VALUE_LIMIT,
                    None => true,
                } by {
                    if k == s.len() - 1 {
                    } else if older.len() < old(self).capacity() {
                        assert(s[k] == older[k]);
                    } else {
                        assert(s[k] == older[k + 1]);
                    }
                }
            }
        }
    }

    /// The raw samples of series `cmd_index`, oldest first, as one
    /// contiguous slice for the renderer.
    pub fn series_samples(&self, cmd_index: usize) -> (r: &[Sample])
        requires
            self.wf(),
            cmd_index < self.series_count(),
        ensures
            r@ == self.series(cmd_index as int),
    {
        self.data[cmd_index].as_slice()
    }

    /// The most recent value of series `cmd_index`, or 0 when it has no
    /// samples yet (or the newest one is missing).
    pub fn last(&self, cmd_index: usize) -> (r: i64)
        requires
            self.wf(),
            cmd_index < self.series_count(),
        ensures
            r == spec_last_value(self.series(cmd_index as int)),
    {
        let rb = &self.data[cmd_index];
        if rb.len() == 0 {
            0
        } else {
            match rb.last().value {
                Some(v) => v,
                None => 0,
            }
        }
    }

    /// Rolling statistics of series `cmd_index`: minimum, maximum and
    /// nearest-rank 95th percentile of its non-missing values, or `None`
    /// when there are none.
    pub fn stats(&self, cmd_index: usize) -> (r: Option<SeriesStats>)
        requires
            self.wf(),
            cmd_index < self.series_count(),
        ensures
            r is Some <==> present_values(self.series(cmd_index as int)).len() > 0,
            (match r {
                Some(st) => {
                    let vs = present_values(self.series(cmd_index as int));
                    let s = vs.sort_by(value_le());
                    &&& st.min == s[0]
                    &&& st.max == s[s.len() - 1]
                    &&& st.p95 == s[p95_index(vs.len() as int)]
                    &&& forall|k: int| 0 <= k < vs.len() ==> st.min <= #[trigger] vs[k] <= st.max
                },
                None => true,
            }),
    {
        stats_of_window(self.data[cmd_index].as_slice())
    }

    /// The non-missing values of the first `n` series, concatenated.
    pub open spec fn values_up_to(&self, n: int) -> Seq<i64>
        decreases n,
    {
        if n <= 0 {
            Seq::empty()
        } else {
            self.values_up_to(n - 1) + present_values(self.series(n - 1))
        }
    }

    /// Every non-missing value currently held by any series.
    pub open spec fn all_values(&self) -> Seq<i64> {
        self.values_up_to(self.series_count())
    }

    /// Smallest value on screen (0 when no series has a value yet).
    pub open spec fn data_min(&self) -> i64 {
        values_min(self.all_values())
    }

    /// Largest value on screen (0 when no series has a value yet).
    pub open spec fn data_max(&self) -> i64 {
        values_max(self.all_values())
    }

    /// Automatic y-axis placement over all live values: returns the rounded
    /// bounds and the tick count of [`nice_axis`] applied to the data range.
    /// The bounds enclose every non-missing sample, at least two ticks are
    /// produced, and a cramped layout collapses to exactly two ticks.
    pub fn y_axis_bounds(&self, chart_height: i32) -> (r: ([i64; 2], i32))
        requires
            self.wf(),
        ensures
            r.0[0] == spec_axis_min(
                self.data_min() as int,
                self.data_max() as int,
                chart_height as int,
            ),
            r.0[1] == spec_axis_max(
                self.data_min() as int,
                self.data_max() as int,
                chart_height as int,
            ),
            r.1 == spec_axis_ticks(
                self.data_min() as int,
                self.data_max() as int,
                chart_height as int,
            ),
            r.0[0] <= self.data_min(),
            self.data_max() <= r.0[1],
            r.0[0] < r.0[1],
            2 <= r.1,
            spec_ticks_cramped(
                self.data_min() as int,
                self.data_max() as int,
                chart_height as int,
            ) ==> r.1 == 2,
            r.0[0] as int % spec_axis_increment(
                self.data_min() as int,
                self.data_max() as int,
                chart_height as int,
            ) == 0,
            r.0[1] as int % spec_axis_increment(
                self.data_min() as int,
                self.data_max() as int,
                chart_height as int,
            ) == 0,
    {
        let ghost mut seen: Seq<i64> = Seq::empty();
        let mut mn: i64 = 0;
        let mut mx: i64 = 0;
        let mut any = false;
        proof {
            assert(seen =~= self.values_up_to(0));
        }
        let mut i: usize = 0;
        while i < self.data.len()
            invariant
                self.wf(),
                i <= self.data@.len(),
                seen == self.values_up_to(i as int),
                any <==> seen.len() > 0,
                seen.len() == 0 ==> mn == 0 && mx == 0,
                seen.len() > 0 ==> mn == values_min(seen) && mx == values_max(seen),
                forall|k: int| 0 <= k < seen.len() ==> -VALUE_LIMIT <= #[trigger] seen[k]
                    <= VALUE_LIMIT,
            decreases self.data@.len() - i,
        {
            let w = self.data[i].as_slice();
            let ghost prefix = seen;
            proof {
                assert(w@.subrange(0, 0) =~= Seq::<Sample>::empty());
                assert(seen =~= prefix + present_values(w@.subrange(0, 0)));
            }
            let mut k: usize = 0;
            while k < w.len()
                invariant
                    self.wf(),
                    i < self.data@.len(),
                    k <= w@.len(),
                    w@ == self.series(i as int),
                    seen == prefix + present_values(w@.subrange(0, k as int)),
                    any <==> seen.len() > 0,
                    seen.len() == 0 ==> mn == 0 && mx == 0,
                    seen.len() > 0 ==> mn == values_min(seen) && mx == values_max(seen),
                    forall|j: int| 0 <= j < seen.len() ==> -VALUE_LIMIT <= #[trigger] seen[j]
                        <= VALUE_LIMIT,
                decreases w@.len() - k,
            {
                proof {
                    assert(w@.subrange(0, k + 1).drop_last() =~= w@.subrange(0, k as int));
                    assert(w@.subrange(0, k + 1).last() == w@[k as int]);
                    assert(samples_bounded(self.series(i as int)));
                }
                match w[k].value {
                    Some(v) => {
                        proof {
                            assert(present_values(w@.subrange(0, k + 1)) =~= present_values(
                                w@.subrange(0, k as int),
                            ).push(v));
                            assert(seen.push(v) =~= prefix + present_values(
                                w@.subrange(0, k + 1),
                            ));
                            assert(seen.push(v).drop_last() =~= seen);
                        }
                        if !any {
                            mn = v;
                            mx = v;
                            any = true;
                        } else {
                            if v < mn {
                                mn = v;
                            }
                            if v > mx {
                                mx = v;
                            }
                        }
                        proof {
                            seen = seen.push(v);
                        }
                    },
                    None => {
                        proof {
                            assert(present_values(w@.subrange(0, k + 1)) =~= present_values(
                                w@.subrange(0, k as int),
                            ));
                            assert(seen =~= prefix + present_values(w@.subrange(0, k + 1)));
                        }
                    },
                }
                k += 1;
            }
            proof {
                assert(w@.subrange(0, w@.len() as int) =~= w@);
                assert(seen =~= self.values_up_to(i + 1));
            }
            i += 1;
        }
        proof {
            assert(seen == self.all_values());
            lemma_values_min_max_bounds(seen, -VALUE_LIMIT as int, VALUE_LIMIT as int);
            lemma_values_min_le_max(seen);
        }
        nice_axis(mn, mx, chart_height)
    }

    /// Label text for `num_ticks` ticks across `bounds`: tick `i` shows
    /// `bounds[0] + i` increments, where the increment is the span divided
    /// by `num_ticks - 1`, each formatted to the increment's precision and
    /// followed by the unit suffix.
    pub fn y_axis_labels(&self, bounds: [i64; 2], num_ticks: i32) -> (r: Vec<String>)
        requires
            self.wf(),
            2 <= num_ticks,
            -BOUND_LIMIT <= bounds[0],
            bounds[1] <= BOUND_LIMIT,
            bounds[0] < bounds[1],
            bounds[1] - bounds[0] >= num_ticks - 1,
        ensures
            r@.len() == num_ticks,
            forall|i: int|
                0 <= i < num_ticks ==> (#[trigger] r@[i])@ == spec_tick_label(
                    (bounds[1] - bounds[0]) / (num_ticks - 1) as int,
                    bounds[0] + (bounds[1] - bounds[0]) / (num_ticks - 1) as int * i,
                    self.label(),
                ),
    {
        let span: i64 = bounds[1] - bounds[0];
        let ticks_minus: i64 = (num_ticks as i64) - 1;
        let increment: i64 = span / ticks_minus;
        proof {
            lemma_fundamental_div_mod(span as int, ticks_minus as int);
            lemma_div_is_ordered(ticks_minus as int, span as int, ticks_minus as int);
            lemma_div_by_self(ticks_minus as int);
            assert((increment as int) * (ticks_minus as int) == (ticks_minus as int) * (
            increment as int)) by (nonlinear_arith);
        }
        let mut out: Vec<String> = Vec::new();
        let mut i: i32 = 0;
        while i < num_ticks
            invariant
                self.wf(),
                0 <= i <= num_ticks,
                2 <= num_ticks,
                ticks_minus == num_ticks - 1,
                span == bounds[1] - bounds[0],
                -BOUND_LIMIT <= bounds[0],
                bounds[1] <= BOUND_LIMIT,
                bounds[0] < bounds[1],
                1 <= increment,
                increment == span as int / ticks_minus as int,
                (increment as int) * (ticks_minus as int) <= span,
                out@.len() == i,
                forall|k: int|
                    0 <= k < i ==> (#[trigger] out@[k])@ == spec_tick_label(
                        increment as int,
                        bounds[0] + increment as int * k,
                        self.label(),
                    ),
            decreases num_ticks - i,
        {
            proof {
                lemma_mul_inequality(0, i as int, increment as int);
                lemma_mul_inequality(i as int, ticks_minus as int, increment as int);
                assert((i as int) * (increment as int) == (increment as int) * (i as int))
                    by (nonlinear_arith);
                assert((ticks_minus as int) * (increment as int) == (increment as int) * (
                ticks_minus as int)) by (nonlinear_arith);
            }
            let value: i64 = bounds[0] + increment * (i as i64);
            let s = crate::labels::tick_label(increment, value, self.y_label.as_str());
            out.push(s);
            i += 1;
        }
        out
    }

    /// The x-domain shown on screen: the union of all series windows.
    pub fn x_axis_bounds(&self) -> (r: [u64; 2])
        requires
            self.wf(),
            1 <= self.series_count(),
        ensures
            forall|i: int| 0 <= i < self.series_count() ==> r[0] <= self.window_min_of(i),
            forall|i: int| 0 <= i < self.series_count() ==> self.window_max_of(i) <= r[1],
            exists|i: int| 0 <= i < self.series_count() && r[0] == self.window_min_of(i),
            exists|i: int| 0 <= i < self.series_count() && r[1] == self.window_max_of(i),
    {
        let mut lo = self.window_min[0];
        let mut hi = self.window_max[0];
        proof {
            assert(lo == self.window_min_of(0));
            assert(hi == self.window_max_of(0));
        }
        let mut i: usize = 1;
        while i < self.window_min.len()
            invariant
                self.wf(),
                1 <= i <= self.window_min@.len(),
                self.window_min@.len() == self.series_count(),
                forall|k: int| 0 <= k < i ==> lo <= self.window_min_of(k),
                forall|k: int| 0 <= k < i ==> self.window_max_of(k) <= hi,
                exists|k: int| 0 <= k < i && lo == #[trigger] self.window_min_of(k),
                exists|k: int| 0 <= k < i && hi == #[trigger] self.window_max_of(k),
            decreases self.window_min@.len() - i,
        {
            let m = self.window_min[i];
            if m < lo {
                lo = m;
                proof {
                    assert(lo == self.window_min_of(i as int));
                }
            }
            let x = self.window_max[i];
            if x > hi {
                hi = x;
                proof {
                    assert(hi == self.window_max_of(i as int));
                }
            }
            i += 1;
        }
        [lo, hi]
    }
}

/// A series' window always spans exactly the configured history length:
/// `windowMax - windowMin == capacity` holds from construction on, and
/// [`DataStore::update`] keeps it as both bounds advance together once the
/// buffer has filled.
pub proof fn lemma_window_span(store: &DataStore, i: int)
    requires
        store.wf(),
        0 <= i < store.series_count(),
    ensures
        store.window_max_of(i) - store.window_min_of(i) == store.capacity(),
{
}

} // verus!
