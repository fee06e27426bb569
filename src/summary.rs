use vstd::prelude::*;

verus! {

/// Most observations that a single store may hold (2^30). This is a memory
/// limit: a tree over this many leaves already takes about 128 GiB, and the
/// exact variance parts of a window fit an `i128` only up to about this count.
/// A batch that would pass it is refused with its own status, beside the
/// invalid-size one.
pub const MAX_OBSERVATIONS: usize = 1073741824;

/// The mathematical reading of an aggregation record.
pub struct Summary {
    pub min: int,
    pub max: int,
    pub sum: int,
    pub sum_squares: int,
    pub count: nat,
    pub last: int,
}

pub open spec fn min_int(a: int, b: int) -> int {
    if a <= b { a } else { b }
}

pub open spec fn max_int(a: int, b: int) -> int {
    if a >= b { a } else { b }
}

/// Smallest observation of `s`; `i32::MAX` (the identity of `min`) when `s` is empty.
pub open spec fn seq_min(s: Seq<i32>) -> int
    decreases s.len(),
{
    if s.len() == 0 {
        i32::MAX as int
    } else {
        min_int(seq_min(s.drop_last()), s.last() as int)
    }
}

/// Largest observation of `s`; `i32::MIN` (the identity of `max`) when `s` is empty.
pub open spec fn seq_max(s: Seq<i32>) -> int
    decreases s.len(),
{
    if s.len() == 0 {
        i32::MIN as int
    } else {
        max_int(seq_max(s.drop_last()), s.last() as int)
    }
}

pub open spec fn seq_sum(s: Seq<i32>) -> int
    decreases s.len(),
{
    if s.len() == 0 {
        0
    } else {
        seq_sum(s.drop_last()) + s.last() as int
    }
}

pub open spec fn seq_sum_squares(s: Seq<i32>) -> int
    decreases s.len(),
{
    if s.len() == 0 {
        0
    } else {
        seq_sum_squares(s.drop_last()) + (s.last() as int) * (s.last() as int)
    }
}

/// The most recent observation of `s`, or 0 when there is none.
pub open spec fn seq_last(s: Seq<i32>) -> int {
    if s.len() == 0 {
        0
    } else {
        s.last() as int
    }
}

/// The record of a run of observations: its plain reductions.
pub open spec fn summarize(s: Seq<i32>) -> Summary {
    Summary {
        min: seq_min(s),
        max: seq_max(s),
        sum: seq_sum(s),
        sum_squares: seq_sum_squares(s),
        count: s.len(),
        last: seq_last(s),
    }
}

/// The left-biased merge: an empty side gives way to the other, and `last`
/// comes from the right whenever the right is not empty.
pub open spec fn merge_spec(l: Summary, r: Summary) -> Summary {
    if l.count == 0 {
        r
    } else if r.count == 0 {
        l
    } else {
        Summary {
            min: min_int(l.min, r.min),
            max: max_int(l.max, r.max),
            sum: l.sum + r.sum,
            sum_squares: l.sum_squares + r.sum_squares,
            count: l.count + r.count,
            last: r.last,
        }
    }
}

/// Left fold of `merge_spec` over the records of consecutive segments.
pub open spec fn merge_all(segments: Seq<Seq<i32>>) -> Summary
    decreases segments.len(),
{
    if segments.len() == 0 {
        summarize(Seq::empty())
    } else {
        merge_spec(merge_all(segments.drop_last()), summarize(segments.last()))
    }
}

proof fn lemma_extrema_range(s: Seq<i32>)
    ensures
        i32::MIN <= seq_min(s) <= i32::MAX,
        i32::MIN <= seq_max(s) <= i32::MAX,
    decreases s.len(),
{
    if s.len() > 0 {
        lemma_extrema_range(s.drop_last());
    }
}

proof fn lemma_min_concat(a: Seq<i32>, b: Seq<i32>)
    ensures
        seq_min(a + b) == min_int(seq_min(a), seq_min(b)),
    decreases b.len(),
{
    lemma_extrema_range(a);
    if b.len() == 0 {
        assert(a + b =~= a);
    } else {
        lemma_min_concat(a, b.drop_last());
        assert((a + b).drop_last() =~= a + b.drop_last());
    }
}

proof fn lemma_max_concat(a: Seq<i32>, b: Seq<i32>)
    ensures
        seq_max(a + b) == max_int(seq_max(a), seq_max(b)),
    decreases b.len(),
{
    lemma_extrema_range(a);
    if b.len() == 0 {
        assert(a + b =~= a);
    } else {
        lemma_max_concat(a, b.drop_last());
        assert((a + b).drop_last() =~= a + b.drop_last());
    }
}

/// Sums of two adjacent runs add up.
pub proof fn lemma_sums_concat(a: Seq<i32>, b: Seq<i32>)
    ensures
        seq_sum(a + b) == seq_sum(a) + seq_sum(b),
        seq_sum_squares(a + b) == seq_sum_squares(a) + seq_sum_squares(b),
    decreases b.len(),
{
    if b.len() == 0 {
        assert(a + b =~= a);
    } else {
        lemma_sums_concat(a, b.drop_last());
        assert((a + b).drop_last() =~= a + b.drop_last());
    }
}

/// The extrema of a non-empty run bound all of its observations and are
/// observations of it.
pub proof fn lemma_extrema_attained(s: Seq<i32>)
    requires
        s.len() > 0,
    ensures
        forall|i: int| 0 <= i < s.len() ==> seq_min(s) <= #[trigger] s[i] <= seq_max(s),
        exists|i: int| 0 <= i < s.len() && s[i] == seq_min(s),
        exists|i: int| 0 <= i < s.len() && s[i] == seq_max(s),
    decreases s.len(),
{
    let t = s.drop_last();
    let n = s.len() - 1;
    if t.len() > 0 {
        lemma_extrema_attained(t);
        assert forall|i: int| 0 <= i < s.len() implies seq_min(s) <= #[trigger] s[i] <= seq_max(s) by {
            if i < n {
                assert(s[i] == t[i]);
            }
        }
        let a = choose|i: int| 0 <= i < t.len() && t[i] == seq_min(t);
        let b = choose|i: int| 0 <= i < t.len() && t[i] == seq_max(t);
        if seq_min(s) == seq_min(t) {
            assert(s[a] == seq_min(s));
        } else {
            assert(s[n] == seq_min(s));
        }
        if seq_max(s) == seq_max(t) {
            assert(s[b] == seq_max(s));
        } else {
            assert(s[n] == seq_max(s));
        }
    } else {
        assert(seq_min(t) == i32::MAX && seq_max(t) == i32::MIN);
        assert(s.last() == s[n]);
        assert(s[n] == seq_min(s));
        assert(s[n] == seq_max(s));
    }
}

/// The record of two adjacent runs is the merge of their records.
pub proof fn lemma_summarize_concat(a: Seq<i32>, b: Seq<i32>)
    ensures
        summarize(a + b) == merge_spec(summarize(a), summarize(b)),
{
    if a.len() == 0 {
        assert(a + b =~= b);
    } else if b.len() == 0 {
        assert(a + b =~= a);
    } else {
        lemma_min_concat(a, b);
        lemma_max_concat(a, b);
        lemma_sums_concat(a, b);
        assert((a + b).last() == b.last());
    }
}

/// Merging the records of the segments of any split of a run, from left to
/// right, gives the record of the whole run; its `last` is the rightmost
/// observation.
pub proof fn lemma_merge_of_partition(segments: Seq<Seq<i32>>)
    ensures
        merge_all(segments) == summarize(segments.flatten_alt()),
        segments.flatten_alt().len() > 0 ==> merge_all(segments).last
            == segments.flatten_alt().last() as int,
    decreases segments.len(),
{
    if segments.len() > 0 {
        lemma_merge_of_partition(segments.drop_last());
        lemma_summarize_concat(segments.drop_last().flatten_alt(), segments.last());
    }
}

/// The merge is associative, and the empty record is its identity on both sides.
pub proof fn lemma_merge_monoid(a: Seq<i32>, b: Seq<i32>, c: Seq<i32>)
    ensures
        merge_spec(merge_spec(summarize(a), summarize(b)), summarize(c)) == merge_spec(
            summarize(a),
            merge_spec(summarize(b), summarize(c)),
        ),
        merge_spec(summarize(Seq::empty()), summarize(a)) == summarize(a),
        merge_spec(summarize(a), summarize(Seq::empty())) == summarize(a),
{
    lemma_summarize_concat(a, b);
    lemma_summarize_concat(a + b, c);
    lemma_summarize_concat(b, c);
    lemma_summarize_concat(a, b + c);
    assert(a + b + c =~= a + (b + c));
}

/// Ranges of the fields of the record of a run of `n` observations.
pub open spec fn within_bounds(m: Summary) -> bool {
    &&& m.count <= MAX_OBSERVATIONS
    &&& i32::MIN <= m.min <= i32::MAX
    &&& i32::MIN <= m.max <= i32::MAX
    &&& i32::MIN <= m.last <= i32::MAX
    &&& -(m.count * 0x8000_0000) <= m.sum <= m.count * 0x8000_0000
    &&& 0 <= m.sum_squares <= m.count * 0x4000_0000_0000_0000
}

pub proof fn lemma_summarize_bounds(s: Seq<i32>)
    requires
        s.len() <= MAX_OBSERVATIONS,
    ensures
        within_bounds(summarize(s)),
{
    lemma_sum_bounds(s);
    lemma_extrema_range(s);
}

/// The sums of a run of `n` observations are at most `n` times the largest
/// magnitudes of an observation and of its square.
pub proof fn lemma_sum_bounds(s: Seq<i32>)
    ensures
        -(s.len() * 0x8000_0000) <= seq_sum(s) <= s.len() * 0x8000_0000,
        0 <= seq_sum_squares(s) <= s.len() * 0x4000_0000_0000_0000,
    decreases s.len(),
{
    if s.len() > 0 {
        lemma_sum_bounds(s.drop_last());
        let x = s.last() as int;
        assert(0 <= x * x <= 0x4000_0000_0000_0000) by (nonlinear_arith)
            requires
                -0x8000_0000 <= x < 0x8000_0000,
        ;
    }
}

/// Aggregation record of a run of observations: extrema, sums, count and the
/// most recent observation.
#[derive(Clone, Copy, Debug, PartialEq, Eq, Structural)]
pub struct NodeData {
    pub min: i32,
    pub max: i32,
    pub sum: i128,
    pub sum_squares: i128,
    pub count: u64,
    pub last: i32,
}

impl View for NodeData {
    type V = Summary;

    open spec fn view(&self) -> Summary {
        Summary {
            min: self.min as int,
            max: self.max as int,
            sum: self.sum as int,
            sum_squares: self.sum_squares as int,
            count: self.count as nat,
            last: self.last as int,
        }
    }
}

impl NodeData {
    /// The record of the single observation `value`.
    pub fn new(value: i32) -> (r: NodeData)
        ensures
            r@ == summarize(seq![value]),
    {
        proof {
            reveal_with_fuel(seq_min, 2);
            reveal_with_fuel(seq_max, 2);
            reveal_with_fuel(seq_sum, 2);
            reveal_with_fuel(seq_sum_squares, 2);
            let x = value as int;
            assert(0 <= x * x <= 0x4000_0000_0000_0000) by (nonlinear_arith)
                requires
                    -0x8000_0000 <= x < 0x8000_0000,
            ;
            assert(seq![value].drop_last() =~= Seq::<i32>::empty());
        }
        let v = value as i128;
        NodeData { min: value, max: value, sum: v, sum_squares: v * v, count: 1, last: value }
    }

    /// The record of no observations: the identity of `merge`.
    pub fn zero() -> (r: NodeData)
        ensures
            r@ == summarize(Seq::empty()),
    {
        NodeData { min: i32::MAX, max: i32::MIN, sum: 0, sum_squares: 0, count: 0, last: 0 }
    }

    /// Merges the record of a run with the record of the run that follows it.
    pub fn merge(left: &NodeData, right: &NodeData) -> (r: NodeData)
        requires
            within_bounds(left@),
            within_bounds(right@),
            left.count + right.count <= MAX_OBSERVATIONS as u64,
        ensures
            r@ == merge_spec(left@, right@),
            within_bounds(r@),
    {
        if left.count == 0 {
            return *right;
        }
        if right.count == 0 {
            return *left;
        }
        NodeData {
            min: if left.min <= right.min { left.min } else { right.min },
            max: if left.max >= right.max { left.max } else { right.max },
            sum: left.sum + right.sum,
            sum_squares: left.sum_squares + right.sum_squares,
            count: left.count + right.count,
            last: right.last,
        }
    }

    /// Numerator and denominator of the variance of the run,
    /// `sum_squares / count - (sum / count)^2`, as one exact fraction.
    pub fn variance_parts(&self) -> (r: (i128, i128))
        requires
            within_bounds(self@),
        ensures
            r.0 == self@.count * self@.sum_squares - self@.sum * self@.sum,
            r.1 == self@.count * self@.count,
    {
        let n = self.count as i128;
        proof {
            let c = self@.count as int;
            let s = self@.sum;
            let q = self@.sum_squares;
            assert(0 <= c * q <= 0x4000_0000 * (0x4000_0000 * 0x4000_0000_0000_0000)) by (nonlinear_arith)
                requires
                    0 <= c <= 0x4000_0000,
                    0 <= q <= c * 0x4000_0000_0000_0000,
            ;
            assert(-0x2000_0000_0000_0000 <= s <= 0x2000_0000_0000_0000) by (nonlinear_arith)
                requires
                    0 <= c <= 0x4000_0000,
                    -(c * 0x8000_0000) <= s <= c * 0x8000_0000,
            ;
            assert(0 <= s * s <= 0x2000_0000_0000_0000 * 0x2000_0000_0000_0000) by (nonlinear_arith)
                requires
                    -0x2000_0000_0000_0000 <= s <= 0x2000_0000_0000_0000,
            ;
            assert(0 <= c * c <= 0x4000_0000 * 0x4000_0000) by (nonlinear_arith)
                requires
                    0 <= c <= 0x4000_0000,
            ;
        }
        (n * self.sum_squares - self.sum * self.sum, n * n)
    }
}

} // verus!
