use std::collections::VecDeque;

use vstd::prelude::*;

use crate::interval_stat_deque::{last_window, IntervalStatDeque, StatType};
use crate::segment::{lemma_pow10_monotone, pow10};
use crate::summary::{
    lemma_sum_bounds, lemma_sums_concat, seq_last, seq_max, seq_min, seq_sum, seq_sum_squares,
};

verus! {

/// Stats of the window of one interval.
#[derive(Clone, Copy, Debug, PartialEq, Eq, Structural)]
pub struct IntervalStats {
    pub min: i32,
    pub max: i32,
    pub sum: i128,
    pub sum_squares: i128,
    pub count: usize,
    pub last: i32,
}

/// What the stats of the last `w` observations of `vals` hold: the extrema
/// of the window (0 before any observation), its sums and size, and the most
/// recent observation.
pub open spec fn interval_stats_of(vals: Seq<i32>, w: nat, r: IntervalStats) -> bool {
    let win = last_window(vals, w);
    &&& r.min == (if vals.len() == 0 { 0 } else { seq_min(win) })
    &&& r.max == (if vals.len() == 0 { 0 } else { seq_max(win) })
    &&& r.sum == seq_sum(win)
    &&& r.sum_squares == seq_sum_squares(win)
    &&& r.count == win.len()
    &&& r.last == seq_last(vals)
}

/// Running stats of the last `interval` observations of a stream.
pub struct IntervalStatsStore {
    data: VecDeque<i32>,
    interval: usize,
    deque_min: IntervalStatDeque,
    deque_max: IntervalStatDeque,
    sum: i128,
    sum_squares: i128,
    last: i32,
}

impl View for IntervalStatsStore {
    type V = Seq<i32>;

    /// Every observation added so far.
    closed spec fn view(&self) -> Seq<i32> {
        self.deque_min@
    }
}

proof fn lemma_window_push(vals: Seq<i32>, x: i32, w: nat)
    requires
        w >= 1,
    ensures
        last_window(vals, w).len() < w ==> last_window(vals.push(x), w) == last_window(vals, w).push(x),
        last_window(vals, w).len() == w ==> last_window(vals.push(x), w) == last_window(vals, w).push(
            x,
        ).drop_first(),
        last_window(vals, w).len() <= w,
{
    let a = last_window(vals, w);
    let b = last_window(vals.push(x), w);
    if a.len() < w {
        assert(b =~= a.push(x));
    } else {
        assert(b =~= a.push(x).drop_first());
    }
}

impl IntervalStatsStore {
    /// Length of the window.
    pub closed spec fn interval(&self) -> nat {
        self.interval as nat
    }

    pub closed spec fn wf(&self) -> bool {
        let vals = self.deque_min@;
        let win = last_window(vals, self.interval as nat);
        &&& self.interval >= 1
        &&& self.deque_min.wf()
        &&& self.deque_max.wf()
        &&& self.deque_max@ == vals
        &&& self.deque_min.kind() == StatType::Min
        &&& self.deque_max.kind() == StatType::Max
        &&& self.deque_min.window() == self.interval
        &&& self.deque_max.window() == self.interval
        &&& self.data@ == win
        &&& self.sum == seq_sum(win)
        &&& self.sum_squares == seq_sum_squares(win)
        &&& self.last == seq_last(vals)
    }

    pub fn new(interval: usize) -> (r: IntervalStatsStore)
        requires
            interval >= 1,
        ensures
            r.wf(),
            r@ == Seq::<i32>::empty(),
            r.interval() == interval,
    {
        let r = IntervalStatsStore {
            data: VecDeque::new(),
            interval,
            deque_min: IntervalStatDeque::new(interval, StatType::Min),
            deque_max: IntervalStatDeque::new(interval, StatType::Max),
            sum: 0,
            sum_squares: 0,
            last: 0,
        };
        proof {
            assert(last_window(Seq::<i32>::empty(), interval as nat) =~= Seq::<i32>::empty());
        }
        r
    }

    /// Adds the next observation; the oldest one leaves a full window.
    pub fn add(&mut self, value: i32)
        requires
            old(self).wf(),
            old(self)@.len() < usize::MAX,
        ensures
            final(self).wf(),
            final(self)@ == old(self)@.push(value),
            final(self).interval() == old(self).interval(),
    {
        let ghost vals = self.deque_min@;
        let ghost win = self.data@;
        proof {
            lemma_window_push(vals, value, self.interval as nat);
            lemma_sum_bounds(win);
            let x = value as int;
            assert(0 <= x * x <= 0x4000_0000_0000_0000) by (nonlinear_arith)
                requires
                    -0x8000_0000 <= x < 0x8000_0000,
            ;
            assert(win.push(value).drop_last() =~= win);
            assert(win.len() * 0x4000_0000_0000_0000 <= 0xffff_ffff_ffff_ffff * 0x4000_0000_0000_0000)
                by (nonlinear_arith)
                requires
                    win.len() <= 0xffff_ffff_ffff_ffff,
            ;
        }
        self.data.push_back(value);
        let v = value as i128;
        self.sum = self.sum + v;
        self.sum_squares = self.sum_squares + v * v;
        self.last = value;
        self.deque_min.push(value);
        self.deque_max.push(value);
        if self.data.len() > self.interval {
            let ghost pushed = self.data@;
            proof {
                lemma_sums_concat(seq![pushed[0]], pushed.drop_first());
                assert(seq![pushed[0]] + pushed.drop_first() =~= pushed);
                reveal_with_fuel(seq_sum, 2);
                reveal_with_fuel(seq_sum_squares, 2);
                assert(seq![pushed[0]].drop_last() =~= Seq::<i32>::empty());
            }
            let removed = self.data.pop_front();
            if let Some(to_remove) = removed {
                let r = to_remove as i128;
                proof {
                    let y = to_remove as int;
                    assert(0 <= y * y <= 0x4000_0000_0000_0000) by (nonlinear_arith)
                        requires
                            -0x8000_0000 <= y < 0x8000_0000,
                    ;
                }
                self.sum = self.sum - r;
                self.sum_squares = self.sum_squares - r * r;
            }
            proof {
                assert(self.data@ =~= pushed.drop_first());
            }
        }
    }

    pub fn get_stats(&self) -> (r: IntervalStats)
        requires
            self.wf(),
        ensures
            interval_stats_of(self@, self.interval(), r),
    {
        IntervalStats {
            min: self.deque_min.stat(),
            max: self.deque_max.stat(),
            sum: self.sum,
            sum_squares: self.sum_squares,
            count: self.data.len(),
            last: self.last,
        }
    }
}

/// Stats of one stream over the windows `10^1 .. 10^n`.
pub struct SymbolDataStore {
    intervals: Vec<IntervalStatsStore>,
    values: Ghost<Seq<i32>>,
}

impl View for SymbolDataStore {
    type V = Seq<i32>;

    closed spec fn view(&self) -> Seq<i32> {
        self.values@
    }
}

impl SymbolDataStore {
    /// Number of windows kept.
    pub closed spec fn num_intervals(&self) -> nat {
        self.intervals@.len()
    }

    pub closed spec fn wf(&self) -> bool {
        forall|i: int|
            0 <= i < self.intervals@.len() ==> {
                &&& (#[trigger] self.intervals@[i]).wf()
                &&& self.intervals@[i]@ == self.values@
                &&& self.intervals@[i].interval() == pow10((i + 1) as nat)
            }
    }

    /// A store for the windows of `10^1` up to `10^num_of_intervals` observations.
    pub fn new(num_of_intervals: usize) -> (r: SymbolDataStore)
        requires
            pow10(num_of_intervals as nat) <= usize::MAX,
        ensures
            r.wf(),
            r@ == Seq::<i32>::empty(),
            r.num_intervals() == num_of_intervals,
    {
        let mut intervals: Vec<IntervalStatsStore> = Vec::new();
        let mut w: usize = 1;
        let mut i: usize = 0;
        while i < num_of_intervals
            invariant
                i <= num_of_intervals,
                pow10(num_of_intervals as nat) <= usize::MAX,
                w == pow10(i as nat),
                intervals@.len() == i,
                forall|m: int|
                    0 <= m < i ==> {
                        &&& (#[trigger] intervals@[m]).wf()
                        &&& intervals@[m]@ == Seq::<i32>::empty()
                        &&& intervals@[m].interval() == pow10((m + 1) as nat)
                    },
            decreases num_of_intervals - i,
        {
            proof {
                lemma_pow10_monotone((i + 1) as nat, num_of_intervals as nat);
            }
            w = w * 10;
            intervals.push(IntervalStatsStore::new(w));
            i = i + 1;
        }
        SymbolDataStore { intervals, values: Ghost(Seq::empty()) }
    }

    /// Adds `prices` in order to every window.
    pub fn add_batch(&mut self, prices: &[i32])
        requires
            old(self).wf(),
            old(self)@.len() + prices@.len() < usize::MAX,
        ensures
            final(self).wf(),
            final(self)@ == old(self)@ + prices@,
            final(self).num_intervals() == old(self).num_intervals(),
    {
        let ghost target = self.values@ + prices@;
        let n = self.intervals.len();
        let mut i: usize = 0;
        while i < n
            invariant
                n == self.intervals@.len(),
                n == old(self).intervals@.len(),
                i <= n,
                self.values@ == old(self).values@,
                target == old(self)@ + prices@,
                old(self)@.len() + prices@.len() < usize::MAX,
                forall|m: int|
                    0 <= m < n ==> {
                        &&& (#[trigger] self.intervals@[m]).wf()
                        &&& self.intervals@[m]@ == if m < i { target } else { old(self)@ }
                        &&& self.intervals@[m].interval() == pow10((m + 1) as nat)
                    },
            decreases n - i,
        {
            let mut store = self.intervals.remove(i);
            let ghost before = self.intervals@;
            let mut j: usize = 0;
            while j < prices.len()
                invariant
                    store.wf(),
                    store@ == old(self)@ + prices@.subrange(0, j as int),
                    store.interval() == pow10((i + 1) as nat),
                    j <= prices@.len(),
                    old(self)@.len() + prices@.len() < usize::MAX,
                decreases prices@.len() - j,
            {
                proof {
                    assert(prices@.subrange(0, j + 1) =~= prices@.subrange(0, j as int).push(prices@[j as int]));
                    assert(old(self)@ + prices@.subrange(0, j + 1) =~= (old(self)@ + prices@.subrange(0, j as int)).push(prices@[j as int]));
                }
                store.add(prices[j]);
                j = j + 1;
            }
            proof {
                assert(prices@.subrange(0, prices@.len() as int) =~= prices@);
            }
            self.intervals.insert(i, store);
            proof {
                assert forall|m: int| 0 <= m < n implies {
                    &&& (#[trigger] self.intervals@[m]).wf()
                    &&& self.intervals@[m]@ == if m < i + 1 { target } else { old(self)@ }
                    &&& self.intervals@[m].interval() == pow10((m + 1) as nat)
                } by {
                    if m < i {
                        assert(self.intervals@[m] == before[m]);
                    } else if m > i {
                        assert(self.intervals@[m] == before[m - 1]);
                    }
                }
            }
            i = i + 1;
        }
        self.values = Ghost(target);
    }

    /// The stats of the window of the last `10^k` observations, for
    /// `1 <= k <= n`; `None` for any other `k`.
    pub fn get_stats(&self, k: usize) -> (r: Option<IntervalStats>)
        requires
            self.wf(),
        ensures
            r.is_some() == (1 <= k <= self.num_intervals()),
            r.is_some() ==> interval_stats_of(self@, pow10(k as nat), r.unwrap()),
    {
        if k >= 1 && k <= self.intervals.len() {
            Some(self.intervals[k - 1].get_stats())
        } else {
            None
        }
    }
}

} // verus!
