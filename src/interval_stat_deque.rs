use std::collections::VecDeque;

use vstd::prelude::*;

use crate::summary::{lemma_extrema_attained, seq_max, seq_min};

verus! {

/// Which extremum a deque tracks.
#[derive(Clone, Copy, Debug)]
pub enum StatType {
    Min,
    Max,
}

/// `a` is at least as extreme as `b`: no larger for `Min`, no smaller for `Max`.
pub open spec fn at_least_as_extreme(t: StatType, a: int, b: int) -> bool {
    match t {
        StatType::Min => a <= b,
        StatType::Max => a >= b,
    }
}

pub open spec fn extreme_of(t: StatType, s: Seq<i32>) -> int {
    match t {
        StatType::Min => seq_min(s),
        StatType::Max => seq_max(s),
    }
}

/// First position of the window of the last `w` of `n` observations.
pub open spec fn window_lo(n: int, w: int) -> int {
    if n >= w {
        n - w
    } else {
        0
    }
}

/// The last `w` observations of `vals`, or all of them when there are fewer.
pub open spec fn last_window(vals: Seq<i32>, w: nat) -> Seq<i32> {
    vals.subrange(window_lo(vals.len() as int, w as int), vals.len() as int)
}

impl StatType {
    /// Whether `new_value` is strictly more extreme than `last_value`, so that
    /// `last_value` can never again be the extremum of a window holding both.
    pub fn eval(&self, last_value: i32, new_value: i32) -> (r: bool)
        ensures
            r == !at_least_as_extreme(*self, last_value as int, new_value as int),
    {
        match self {
            StatType::Min => last_value > new_value,
            StatType::Max => last_value < new_value,
        }
    }
}

/// Every entry is at least as extreme as every observation from its own
/// position on.
spec fn dominates(d: Seq<(usize, i32)>, vals: Seq<i32>, t: StatType) -> bool {
    forall|i: int, q: int|
        #![trigger d[i], vals[q]]
        0 <= i < d.len() && d[i].0 <= q < vals.len() ==> at_least_as_extreme(t, d[i].1 as int, vals[q] as int)
}

/// Every observation from `lo` on that left the deque is covered by the first
/// entry after it.
spec fn gaps_ok(d: Seq<(usize, i32)>, vals: Seq<i32>, t: StatType, lo: int) -> bool {
    forall|i: int, q: int|
        #![trigger d[i], vals[q]]
        0 <= i < d.len() && lo <= q <= d[i].0 && (i == 0 || d[i - 1].0 < q) ==> at_least_as_extreme(
            t,
            d[i].1 as int,
            vals[q] as int,
        )
}

/// Entries are observations of `vals` at strictly increasing positions, all
/// from `lo` on.
spec fn entries_ok(d: Seq<(usize, i32)>, vals: Seq<i32>, lo: int) -> bool {
    &&& forall|i: int| 0 <= i < d.len() ==> lo <= #[trigger] d[i].0 < vals.len() && d[i].1 == vals[d[i].0 as int]
    &&& forall|i: int, j: int| 0 <= i < j < d.len() ==> #[trigger] d[i].0 < #[trigger] d[j].0
}

proof fn lemma_find_gap(d: Seq<(usize, i32)>, q: int, i: int) -> (k: int)
    requires
        0 <= i < d.len(),
        d.last().0 >= q,
        i == 0 || d[i - 1].0 < q,
    ensures
        0 <= k < d.len(),
        q <= d[k].0,
        k == 0 || d[k - 1].0 < q,
    decreases d.len() - i,
{
    if d[i].0 >= q {
        i
    } else {
        lemma_find_gap(d, q, i + 1)
    }
}

proof fn lemma_pop_back(d: Seq<(usize, i32)>, vals: Seq<i32>, t: StatType, lo2: int, val: i32)
    requires
        d.len() > 0,
        !at_least_as_extreme(t, d.last().1 as int, val as int),
        entries_ok(d, vals, lo2),
        dominates(d, vals, t),
        gaps_ok(d, vals, t, lo2),
        forall|q: int|
            lo2 <= q < vals.len() && d.last().0 < q ==> at_least_as_extreme(
                t,
                val as int,
                #[trigger] vals[q] as int,
            ),
    ensures
        ({
            let d2 = d.drop_last();
            &&& entries_ok(d2, vals, lo2)
            &&& dominates(d2, vals, t)
            &&& gaps_ok(d2, vals, t, lo2)
            &&& forall|q: int|
                lo2 <= q < vals.len() && (d2.len() == 0 || d2.last().0 < q) ==> at_least_as_extreme(
                    t,
                    val as int,
                    #[trigger] vals[q] as int,
                )
        }),
{
    let d2 = d.drop_last();
    let n = vals.len() as int;
    let b = d.last();
    assert forall|q: int| lo2 <= q < n && (d2.len() == 0 || d2.last().0 < q) implies at_least_as_extreme(
        t,
        val as int,
        #[trigger] vals[q] as int,
    ) by {
        if q <= b.0 {
            let k = d.len() - 1;
            assert(d[k] == b);
            if k > 0 {
                assert(d[k - 1] == d2.last());
            }
            assert(at_least_as_extreme(t, d[k].1 as int, vals[q] as int));
        }
    }
    assert forall|i: int, j: int| 0 <= i < j < d2.len() implies #[trigger] d2[i].0 < #[trigger] d2[j].0 by {
        assert(d2[i] == d[i] && d2[j] == d[j]);
    }
    assert forall|i: int| 0 <= i < d2.len() implies lo2 <= #[trigger] d2[i].0 < vals.len() && d2[i].1
        == vals[d2[i].0 as int] by {
        assert(d2[i] == d[i]);
    }
    assert forall|i: int, q: int|
        #![trigger d2[i], vals[q]]
        0 <= i < d2.len() && lo2 <= q <= d2[i].0 && (i == 0 || d2[i - 1].0 < q) implies at_least_as_extreme(
        t,
        d2[i].1 as int,
        vals[q] as int,
    ) by {
        assert(d2[i] == d[i]);
        if i > 0 {
            assert(d2[i - 1] == d[i - 1]);
        }
    }
    assert forall|i: int, q: int|
        #![trigger d2[i], vals[q]]
        0 <= i < d2.len() && d2[i].0 <= q < vals.len() implies at_least_as_extreme(
        t,
        d2[i].1 as int,
        vals[q] as int,
    ) by {
        assert(d2[i] == d[i]);
    }
}

proof fn lemma_push_back(d: Seq<(usize, i32)>, vals: Seq<i32>, t: StatType, lo2: int, val: i32)
    requires
        entries_ok(d, vals, lo2),
        dominates(d, vals, t),
        gaps_ok(d, vals, t, lo2),
        forall|q: int|
            lo2 <= q < vals.len() && (d.len() == 0 || d.last().0 < q) ==> at_least_as_extreme(
                t,
                val as int,
                #[trigger] vals[q] as int,
            ),
        d.len() > 0 ==> at_least_as_extreme(t, d.last().1 as int, val as int),
        0 <= lo2 <= vals.len(),
        vals.len() < usize::MAX,
    ensures
        ({
            let d2 = d.push((vals.len() as usize, val));
            let v2 = vals.push(val);
            &&& entries_ok(d2, v2, lo2)
            &&& dominates(d2, v2, t)
            &&& gaps_ok(d2, v2, t, lo2)
            &&& d2.last().0 == v2.len() - 1
        }),
{
    let n = vals.len() as int;
    let d2 = d.push((n as usize, val));
    let v2 = vals.push(val);
    assert(v2[n] == val);
    assert forall|i: int| 0 <= i < d2.len() implies lo2 <= #[trigger] d2[i].0 < v2.len() && d2[i].1
        == v2[d2[i].0 as int] by {
        if i < d.len() {
            assert(d2[i] == d[i]);
        }
    }
    assert forall|i: int, j: int| 0 <= i < j < d2.len() implies #[trigger] d2[i].0 < #[trigger] d2[j].0 by {
        assert(d2[i] == d[i]);
        if j < d.len() {
            assert(d2[j] == d[j]);
        }
    }
    assert forall|i: int, q: int|
        #![trigger d2[i], v2[q]]
        0 <= i < d2.len() && d2[i].0 <= q < v2.len() implies at_least_as_extreme(
        t,
        d2[i].1 as int,
        v2[q] as int,
    ) by {
        if i < d.len() {
            assert(d2[i] == d[i]);
            if q < n {
                assert(v2[q] == vals[q]);
            } else {
                let k = d.len() - 1;
                if i < k {
                    assert(d[i].0 < d[k].0);
                    assert(at_least_as_extreme(t, d[i].1 as int, vals[d[k].0 as int] as int));
                }
            }
        }
    }
    assert forall|i: int, q: int|
        #![trigger d2[i], v2[q]]
        0 <= i < d2.len() && lo2 <= q <= d2[i].0 && (i == 0 || d2[i - 1].0 < q) implies at_least_as_extreme(
        t,
        d2[i].1 as int,
        v2[q] as int,
    ) by {
        if i < d.len() {
            assert(d2[i] == d[i]);
            if i > 0 {
                assert(d2[i - 1] == d[i - 1]);
            }
            assert(v2[q] == vals[q]);
        } else if q < n {
            if i > 0 {
                assert(d2[i - 1] == d.last());
            }
            assert(v2[q] == vals[q]);
        }
    }
}

/// Sliding-window extremum over a stream: a deque of the observations that
/// may still become the extremum of the window of the last `window_size`.
pub struct IntervalStatDeque {
    deque: VecDeque<(usize, i32)>,
    window_size: usize,
    stat_type: StatType,
    pos: usize,
    values: Ghost<Seq<i32>>,
}

impl View for IntervalStatDeque {
    type V = Seq<i32>;

    /// Every observation pushed so far.
    closed spec fn view(&self) -> Seq<i32> {
        self.values@
    }
}

impl IntervalStatDeque {
    pub closed spec fn window(&self) -> nat {
        self.window_size as nat
    }

    pub closed spec fn kind(&self) -> StatType {
        self.stat_type
    }

    pub closed spec fn wf(&self) -> bool {
        let d = self.deque@;
        let vals = self.values@;
        let lo = window_lo(vals.len() as int, self.window_size as int);
        &&& self.window_size >= 1
        &&& self.pos == vals.len()
        &&& entries_ok(d, vals, lo)
        &&& vals.len() > 0 ==> d.len() > 0 && d.last().0 == vals.len() - 1
        &&& dominates(d, vals, self.stat_type)
        &&& gaps_ok(d, vals, self.stat_type, lo)
    }

    pub fn new(window_size: usize, stat_type: StatType) -> (r: IntervalStatDeque)
        requires
            window_size >= 1,
        ensures
            r.wf(),
            r@ == Seq::<i32>::empty(),
            r.window() == window_size,
            r.kind() == stat_type,
    {
        IntervalStatDeque {
            deque: VecDeque::new(),
            window_size,
            stat_type,
            pos: 0,
            values: Ghost(Seq::empty()),
        }
    }

    /// Whether an observation at `pos` stays in the window once the next
    /// observation arrives.
    fn is_in_window(&self, pos: usize) -> (r: bool)
        requires
            pos <= self.pos,
        ensures
            r == (pos >= window_lo(self.pos + 1, self.window_size as int)),
    {
        self.pos - pos < self.window_size
    }

    /// The state of the deque once the entries that leave the window with the
    /// next observation are gone.
    spec fn pruned(&self, vals: Seq<i32>, lo2: int) -> bool {
        let d = self.deque@;
        let n = vals.len();
        &&& self.pos == n
        &&& self.values@ == vals
        &&& self.window_size >= 1
        &&& n < usize::MAX
        &&& lo2 == window_lo(n + 1 as int, self.window_size as int)
        &&& entries_ok(d, vals, lo2)
        &&& d.len() > 0 ==> d.last().0 == n - 1
        &&& d.len() == 0 ==> n <= lo2
        &&& dominates(d, vals, self.stat_type)
        &&& gaps_ok(d, vals, self.stat_type, lo2)
    }

    /// Drops the front entries that leave the window with the next observation.
    fn drop_stale(&mut self)
        requires
            old(self).wf(),
            old(self)@.len() < usize::MAX,
        ensures
            final(self).pruned(old(self)@, window_lo(old(self)@.len() + 1 as int, old(self).window_size as int)),
            final(self).stat_type == old(self).stat_type,
            final(self).window_size == old(self).window_size,
    {
        let n = self.pos;
        let ghost vals = self.values@;
        let ghost t = self.stat_type;
        let ghost lo = window_lo(n as int, self.window_size as int);
        let ghost lo2 = window_lo(n + 1, self.window_size as int);
        while self.deque.len() > 0 && !self.is_in_window(self.deque[0].0)
            invariant
                self.pos == n,
                self.values@ == vals,
                self.stat_type == t,
                self.window_size == old(self).window_size,
                self.window_size >= 1,
                vals.len() == n,
                n < usize::MAX,
                lo <= lo2,
                lo2 == window_lo(n + 1, self.window_size as int),
                entries_ok(self.deque@, vals, lo),
                self.deque@.len() > 0 ==> self.deque@.last().0 == n - 1,
                self.deque@.len() == 0 ==> n <= lo2,
                dominates(self.deque@, vals, t),
                gaps_ok(self.deque@, vals, t, lo2),
            decreases self.deque@.len(),
        {
            let ghost d = self.deque@;
            self.deque.pop_front();
            proof {
                let d2 = self.deque@;
                assert(d2 =~= d.subrange(1, d.len() as int));
                assert forall|i: int, q: int|
                    #![trigger d2[i], vals[q]]
                    0 <= i < d2.len() && lo2 <= q <= d2[i].0 && (i == 0 || d2[i - 1].0 < q) implies at_least_as_extreme(
                    t,
                    d2[i].1 as int,
                    vals[q] as int,
                ) by {
                    assert(d2[i] == d[i + 1]);
                    if i > 0 {
                        assert(d2[i - 1] == d[i]);
                    }
                    assert(d[i + 1 - 1].0 < q);
                }
                assert forall|i: int, q: int|
                    #![trigger d2[i], vals[q]]
                    0 <= i < d2.len() && d2[i].0 <= q < vals.len() implies at_least_as_extreme(
                    t,
                    d2[i].1 as int,
                    vals[q] as int,
                ) by {
                    assert(d2[i] == d[i + 1]);
                }
                assert forall|i: int, j: int| 0 <= i < j < d2.len() implies #[trigger] d2[i].0
                    < #[trigger] d2[j].0 by {
                    assert(d2[i] == d[i + 1] && d2[j] == d[j + 1]);
                }
                assert forall|i: int| 0 <= i < d2.len() implies lo <= #[trigger] d2[i].0 < vals.len()
                    && d2[i].1 == vals[d2[i].0 as int] by {
                    assert(d2[i] == d[i + 1]);
                }
                if d2.len() > 0 {
                    assert(d2.last() == d.last());
                } else {
                    assert(d.last().0 < lo2);
                }
            }
        }
        proof {
            let d = self.deque@;
            if d.len() > 0 {
                assert(d[0].0 >= lo2);
                assert forall|i: int| 0 <= i < d.len() implies lo2 <= #[trigger] d[i].0 < vals.len()
                    && d[i].1 == vals[d[i].0 as int] by {
                    if i > 0 {
                        assert(d[0].0 < d[i].0);
                    }
                }
            }
        }
    }

    /// Drops the back entries that `val` outdoes; everything after the
    /// remaining back entry is then outdone by `val`.
    fn drop_dominated(&mut self, val: i32, Ghost(vals): Ghost<Seq<i32>>, Ghost(lo2): Ghost<int>)
        requires
            old(self).pruned(vals, lo2),
        ensures
            final(self).pos == old(self).pos,
            final(self).values@ == vals,
            final(self).stat_type == old(self).stat_type,
            final(self).window_size == old(self).window_size,
            entries_ok(final(self).deque@, vals, lo2),
            dominates(final(self).deque@, vals, final(self).stat_type),
            gaps_ok(final(self).deque@, vals, final(self).stat_type, lo2),
            forall|q: int|
                lo2 <= q < vals.len() && (final(self).deque@.len() == 0 || final(self).deque@.last().0 < q)
                    ==> at_least_as_extreme(final(self).stat_type, val as int, #[trigger] vals[q] as int),
            final(self).deque@.len() > 0 ==> at_least_as_extreme(
                final(self).stat_type,
                final(self).deque@.last().1 as int,
                val as int,
            ),
    {
        let ghost t = self.stat_type;
        let ghost n = vals.len() as int;
        while self.deque.len() > 0 && self.stat_type.eval(self.deque[self.deque.len() - 1].1, val)
            invariant
                self.pos == old(self).pos,
                self.values@ == vals,
                self.stat_type == t,
                self.window_size == old(self).window_size,
                n == vals.len(),
                entries_ok(self.deque@, vals, lo2),
                dominates(self.deque@, vals, t),
                gaps_ok(self.deque@, vals, t, lo2),
                forall|q: int|
                    lo2 <= q < n && (self.deque@.len() == 0 || self.deque@.last().0 < q)
                        ==> at_least_as_extreme(t, val as int, #[trigger] vals[q] as int),
            decreases self.deque@.len(),
        {
            let ghost d = self.deque@;
            self.deque.pop_back();
            proof {
                lemma_pop_back(d, vals, t, lo2, val);
                assert(self.deque@ =~= d.drop_last());
            }
        }
    }

    /// Adds the next observation, dropping the entries that can no longer be
    /// the extremum.
    pub fn push(&mut self, val: i32)
        requires
            old(self).wf(),
            old(self)@.len() < usize::MAX,
        ensures
            final(self).wf(),
            final(self)@ == old(self)@.push(val),
            final(self).window() == old(self).window(),
            final(self).kind() == old(self).kind(),
    {
        let n = self.pos;
        let ghost vals = self.values@;
        let ghost lo2 = window_lo(n + 1, self.window_size as int);
        self.drop_stale();
        self.drop_dominated(val, Ghost(vals), Ghost(lo2));
        let ghost d = self.deque@;
        self.deque.push_back((n, val));
        self.pos = n + 1;
        self.values = Ghost(vals.push(val));
        proof {
            lemma_push_back(d, vals, self.stat_type, lo2, val);
            assert(self.deque@ =~= d.push((n, val)));
        }
    }

    /// The extremum of the last `window_size` observations, or 0 before the
    /// first one.
    pub fn stat(&self) -> (r: i32)
        requires
            self.wf(),
        ensures
            self@.len() == 0 ==> r == 0,
            self@.len() > 0 ==> r == extreme_of(self.kind(), last_window(self@, self.window())),
    {
        if self.deque.len() == 0 {
            return 0;
        }
        let r = self.deque[0].1;
        proof {
            let d = self.deque@;
            let vals = self.values@;
            let n = vals.len() as int;
            let t = self.stat_type;
            let lo = window_lo(n, self.window_size as int);
            let w = last_window(vals, self.window_size as nat);
            assert forall|q: int| lo <= q < n implies at_least_as_extreme(t, r as int, #[trigger] vals[q] as int) by {
                let k = lemma_find_gap(d, q, 0);
                assert(at_least_as_extreme(t, d[k].1 as int, vals[q] as int));
                if k > 0 {
                    assert(d[0].0 < d[k].0);
                    assert(at_least_as_extreme(t, d[0].1 as int, vals[d[k].0 as int] as int));
                }
            }
            lemma_extrema_attained(w);
            let p = d[0].0 - lo;
            assert(w[p] == r);
            match t {
                StatType::Min => {
                    let m = choose|i: int| 0 <= i < w.len() && w[i] == seq_min(w);
                    assert(w[m] == vals[lo + m]);
                },
                StatType::Max => {
                    let m = choose|i: int| 0 <= i < w.len() && w[i] == seq_max(w);
                    assert(w[m] == vals[lo + m]);
                },
            }
        }
        r
    }
}

} // verus!
