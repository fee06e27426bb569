use vstd::prelude::*;

use crate::summary::{
    lemma_summarize_bounds, lemma_summarize_concat, max_int, merge_spec, min_int, summarize,
    NodeData, MAX_OBSERVATIONS,
};

verus! {

/// Leaf capacity of a fresh tree.
pub const INITIAL_CAPACITY: usize = 1024;

pub open spec fn is_pow2(n: int) -> bool
    decreases n,
{
    if n <= 0 {
        false
    } else if n == 1 {
        true
    } else {
        n % 2 == 0 && is_pow2(n / 2)
    }
}

/// Doubles `c` until it holds `n`.
pub open spec fn grow(c: nat, n: nat) -> nat
    decreases if c >= n { 0 } else { n - c },
{
    if c == 0 || c >= n {
        c
    } else {
        grow(2 * c, n)
    }
}

/// Capacity of a store that has taken `n` observations: the smallest power
/// of two that is at least `n` and at least the initial capacity.
pub open spec fn capacity_for(n: nat) -> nat {
    grow(INITIAL_CAPACITY as nat, n)
}

/// `10^k`.
pub open spec fn pow10(k: nat) -> nat
    decreases k,
{
    if k == 0 {
        1
    } else {
        10 * pow10((k - 1) as nat)
    }
}

/// The observations of `vals` whose positions lie in `[a, b)`.
pub open spec fn clip(vals: Seq<i32>, a: int, b: int) -> Seq<i32> {
    let lo = if a < 0 { 0 } else if a < vals.len() { a } else { vals.len() as int };
    let hi = if b < 0 { 0 } else if b < vals.len() { b } else { vals.len() as int };
    if lo < hi {
        vals.subrange(lo, hi)
    } else {
        Seq::empty()
    }
}

/// First position of the window of the last `10^k` of `len` observations.
pub open spec fn window_start(len: nat, k: nat) -> nat {
    if pow10(k) >= len {
        0
    } else {
        (len - pow10(k)) as nat
    }
}

/// The window of the last `10^k` observations of `vals` (all of them when fewer).
pub open spec fn suffix_window(vals: Seq<i32>, k: nat) -> Seq<i32> {
    vals.subrange(window_start(vals.len(), k) as int, vals.len() as int)
}

spec fn leaves_ok(tree: Seq<NodeData>, cap: int, vals: Seq<i32>) -> bool {
    forall|i: int| cap <= i < 2 * cap ==> #[trigger] tree[i]@ == summarize(clip(vals, i - cap, i - cap + 1))
}

spec fn node_ok(tree: Seq<NodeData>, i: int) -> bool {
    tree[i]@ == merge_spec(tree[2 * i]@, tree[2 * i + 1]@)
}

spec fn internal_ok_except(tree: Seq<NodeData>, cap: int, e: int) -> bool {
    forall|i: int| 1 <= i < cap && i != e ==> #[trigger] node_ok(tree, i)
}

/// Node `node` is the `j`-th of the `c` nodes of its level, each covering `w`
/// leaves; its leaves start at `left`.
spec fn covers(cap: int, node: int, left: int, w: int, c: int, j: int) -> bool {
    &&& is_pow2(w)
    &&& is_pow2(c)
    &&& c * w == cap
    &&& node == c + j
    &&& 0 <= j < c
    &&& left == j * w
}

proof fn lemma_pow2_facts(n: int)
    requires
        is_pow2(n),
    ensures
        n >= 1,
        n > 1 ==> n % 2 == 0 && is_pow2(n / 2),
{
}

proof fn lemma_pow2_double(n: int)
    requires
        is_pow2(n),
    ensures
        is_pow2(2 * n),
{
    assert((2 * n) / 2 == n);
}

proof fn lemma_pow2_quotient(n: int, d: int)
    requires
        is_pow2(n),
        is_pow2(d),
        d <= n,
    ensures
        is_pow2(n / d),
        (n / d) * d == n,
    decreases n,
{
    lemma_pow2_facts(n);
    lemma_pow2_facts(d);
    if d > 1 {
        lemma_pow2_quotient(n / 2, d / 2);
        assert(n / d == (n / 2) / (d / 2)) by (nonlinear_arith)
            requires
                n % 2 == 0,
                d % 2 == 0,
                d >= 2,
        ;
        let q = n / d;
        assert(q * d == n) by (nonlinear_arith)
            requires
                q * (d / 2) == n / 2,
                d % 2 == 0,
                n % 2 == 0,
        ;
    }
}

proof fn lemma_pow2_lt(a: int, b: int)
    requires
        is_pow2(a),
        is_pow2(b),
        a < b,
    ensures
        2 * a <= b,
    decreases b,
{
    lemma_pow2_facts(a);
    lemma_pow2_facts(b);
    if a > 1 {
        lemma_pow2_lt(a / 2, b / 2);
    }
}

proof fn lemma_grow(c: nat, n: nat)
    requires
        is_pow2(c as int),
    ensures
        is_pow2(grow(c, n) as int),
        grow(c, n) >= c,
        grow(c, n) >= n,
        grow(c, n) == c || grow(c, n) < 2 * n,
    decreases if c >= n { 0 } else { n - c },
{
    lemma_pow2_facts(c as int);
    if c < n {
        lemma_pow2_double(c as int);
        lemma_grow(2 * c, n);
    }
}

/// The capacity that holds `n` is fixed by being a power of two, at least the
/// initial capacity and `n`, and under twice `n` unless it is the initial one.
pub proof fn lemma_capacity_for(cap: nat, n: nat)
    requires
        is_pow2(cap as int),
        cap >= INITIAL_CAPACITY,
        cap >= n,
        cap == INITIAL_CAPACITY || cap < 2 * n,
    ensures
        cap == capacity_for(n),
{
    reveal_with_fuel(is_pow2, 12);
    let r = capacity_for(n);
    lemma_grow(INITIAL_CAPACITY as nat, n);
    if cap < r {
        lemma_pow2_lt(cap as int, r as int);
    } else if r < cap {
        lemma_pow2_lt(r as int, cap as int);
    }
}

proof fn lemma_max_observations_pow2()
    ensures
        is_pow2(MAX_OBSERVATIONS as int),
{
    reveal_with_fuel(is_pow2, 32);
}

/// Powers of ten are positive and grow with the exponent.
pub proof fn lemma_pow10_monotone(i: nat, k: nat)
    requires
        i <= k,
    ensures
        1 <= pow10(i) <= pow10(k),
    decreases k,
{
    if i < k {
        lemma_pow10_monotone(i, (k - 1) as nat);
    } else if k > 0 {
        lemma_pow10_monotone(0, (k - 1) as nat);
    }
}

proof fn lemma_clip_split(vals: Seq<i32>, a: int, m: int, b: int)
    requires
        a <= m <= b,
    ensures
        clip(vals, a, m) + clip(vals, m, b) =~= clip(vals, a, b),
{
}

proof fn lemma_clip_len(vals: Seq<i32>, a: int, b: int)
    ensures
        clip(vals, a, b).len() <= vals.len(),
        a <= b ==> clip(vals, a, b).len() <= b - a,
{
}

proof fn lemma_clip_push(vals: Seq<i32>, v: i32, j: int)
    requires
        0 <= j,
    ensures
        j != vals.len() ==> clip(vals.push(v), j, j + 1) == clip(vals, j, j + 1),
        j == vals.len() ==> clip(vals.push(v), j, j + 1) == seq![v],
{
    if j < vals.len() {
        assert(vals.push(v).subrange(j, j + 1) =~= vals.subrange(j, j + 1));
    } else if j == vals.len() {
        assert(vals.push(v).subrange(j, j + 1) =~= seq![v]);
    }
}

/// Where the merge invariant holds from `node` on (so in its whole subtree),
/// the node holds the record of the observations under its leaves.
proof fn lemma_subtree(
    tree: Seq<NodeData>,
    cap: int,
    vals: Seq<i32>,
    node: int,
    left: int,
    w: int,
    c: int,
    j: int,
)
    requires
        tree.len() == 2 * cap,
        leaves_ok(tree, cap, vals),
        forall|m: int| node <= m < cap ==> #[trigger] node_ok(tree, m),
        covers(cap, node, left, w, c, j),
    ensures
        tree[node]@ == summarize(clip(vals, left, left + w)),
        left + w <= cap,
        1 <= node < 2 * cap,
    decreases w,
{
    lemma_pow2_facts(w);
    lemma_pow2_facts(c);
    assert(c <= cap) by (nonlinear_arith)
        requires
            c * w == cap,
            w >= 1,
            c >= 1,
    ;
    assert(left + w <= cap) by (nonlinear_arith)
        requires
            c * w == cap,
            0 <= j < c,
            left == j * w,
            w >= 1,
    ;
    if w == 1 {
        assert(c == cap);
        assert(tree[node]@ == summarize(clip(vals, node - cap, node - cap + 1)));
    } else {
        let h = w / 2;
        lemma_pow2_double(c);
        assert(2 * c * h == cap) by (nonlinear_arith)
            requires
                c * w == cap,
                w == 2 * h,
        ;
        assert(2 * c <= cap) by (nonlinear_arith)
            requires
                2 * c * h == cap,
                h >= 1,
                c >= 1,
        ;
        assert(2 * j * h == left) by (nonlinear_arith)
            requires
                w == 2 * h,
                left == j * w,
        ;
        assert((2 * j + 1) * h == left + h) by (nonlinear_arith)
            requires
                2 * j * h == left,
        ;
        assert(node_ok(tree, node));
        lemma_subtree(tree, cap, vals, 2 * node, left, h, 2 * c, 2 * j);
        lemma_subtree(tree, cap, vals, 2 * node + 1, left + h, h, 2 * c, 2 * j + 1);
        lemma_clip_split(vals, left, left + h, left + w);
        lemma_summarize_concat(clip(vals, left, left + h), clip(vals, left + h, left + w));
    }
}

/// Append-only store of observations over an implicit segment tree whose
/// leaf region doubles on demand.
pub struct SegmentTree {
    tree: Vec<NodeData>,
    size: usize,
    current_position: usize,
    observations: Ghost<Seq<i32>>,
}

impl View for SegmentTree {
    type V = Seq<i32>;

    /// The observations appended so far, in arrival order.
    closed spec fn view(&self) -> Seq<i32> {
        self.observations@
    }
}

impl SegmentTree {
    /// Current size of the leaf region.
    pub closed spec fn capacity(&self) -> nat {
        self.size as nat
    }

    pub closed spec fn wf(&self) -> bool {
        let cap = self.size as int;
        &&& is_pow2(cap)
        &&& INITIAL_CAPACITY <= cap <= MAX_OBSERVATIONS
        &&& self.tree@.len() == 2 * cap
        &&& self.current_position == self.observations@.len()
        &&& self.current_position <= cap
        &&& leaves_ok(self.tree@, cap, self.observations@)
        &&& internal_ok_except(self.tree@, cap, 0)
    }

    pub proof fn lemma_wf(&self)
        requires
            self.wf(),
        ensures
            self@.len() <= self.capacity() <= MAX_OBSERVATIONS,
            INITIAL_CAPACITY <= self.capacity(),
            is_pow2(self.capacity() as int),
    {
    }

    /// An empty tree whose leaf region holds `cap` observations.
    fn with_capacity(cap: usize) -> (r: SegmentTree)
        requires
            is_pow2(cap as int),
            INITIAL_CAPACITY <= cap <= MAX_OBSERVATIONS,
        ensures
            r.wf(),
            r@ == Seq::<i32>::empty(),
            r.capacity() == cap,
    {
        let mut tree: Vec<NodeData> = Vec::new();
        let n = 2 * cap;
        let mut i: usize = 0;
        while i < n
            invariant
                n == 2 * cap,
                i <= n,
                tree@.len() == i,
                forall|m: int| 0 <= m < i ==> #[trigger] tree@[m]@ == summarize(Seq::empty()),
            decreases n - i,
        {
            tree.push(NodeData::zero());
            i = i + 1;
        }
        let r = SegmentTree {
            tree,
            size: cap,
            current_position: 0,
            observations: Ghost(Seq::empty()),
        };
        proof {
            assert forall|m: int| 1 <= m < cap as int implies #[trigger] node_ok(r.tree@, m) by {
                assert(r.tree@[2 * m]@ == summarize(Seq::empty()));
                assert(r.tree@[2 * m + 1]@ == summarize(Seq::empty()));
            }
            assert forall|m: int| cap <= m < 2 * cap implies #[trigger] r.tree@[m]@ == summarize(
                clip(r.observations@, m - cap, m - cap + 1),
            ) by {
                assert(clip(r.observations@, m - cap, m - cap + 1) =~= Seq::<i32>::empty());
            }
        }
        r
    }

    /// An empty store with the initial capacity.
    pub fn new() -> (r: SegmentTree)
        ensures
            r.wf(),
            r@ == Seq::<i32>::empty(),
            r.capacity() == INITIAL_CAPACITY,
            r.capacity() == capacity_for(0),
    {
        proof {
            reveal_with_fuel(is_pow2, 12);
        }
        SegmentTree::with_capacity(INITIAL_CAPACITY)
    }

    /// Number of observations appended so far.
    pub fn len(&self) -> (r: usize)
        requires
            self.wf(),
        ensures
            r == self@.len(),
    {
        self.current_position
    }

    /// Places `value` at the next position and refreshes its ancestors.
    fn update(&mut self, value: i32)
        requires
            old(self).wf(),
            old(self)@.len() < old(self).capacity(),
        ensures
            final(self).wf(),
            final(self)@ == old(self)@.push(value),
            final(self).capacity() == old(self).capacity(),
    {
        let cap = self.size;
        let p = self.current_position;
        let ghost vals = self.observations@.push(value);
        let mut node: usize = cap + p;
        self.tree.set(node, NodeData::new(value));
        self.observations = Ghost(vals);
        self.current_position = p + 1;
        proof {
            let t = self.tree@;
            let t0 = old(self).tree@;
            assert forall|i: int| cap <= i < 2 * cap implies #[trigger] t[i]@ == summarize(
                clip(vals, i - cap, i - cap + 1),
            ) by {
                lemma_clip_push(old(self).observations@, value, i - cap);
                if i != node {
                    assert(t0[i]@ == summarize(clip(old(self).observations@, i - cap, i - cap + 1)));
                }
            }
            assert forall|i: int| 1 <= i < cap && i != node / 2 implies #[trigger] node_ok(t, i) by {
                assert(node_ok(t0, i));
            }
        }
        let ghost mut w: int = 1;
        let ghost mut c: int = cap as int;
        let ghost mut j: int = p as int;
        let ghost mut left: int = p as int;
        proof {
            reveal_with_fuel(is_pow2, 2);
        }
        while node > 1
            invariant
                self.size == cap,
                self.current_position == vals.len(),
                self.observations@ == vals,
                vals.len() <= cap,
                is_pow2(cap as int),
                INITIAL_CAPACITY <= cap <= MAX_OBSERVATIONS,
                self.tree@.len() == 2 * cap,
                leaves_ok(self.tree@, cap as int, vals),
                internal_ok_except(self.tree@, cap as int, (node / 2) as int),
                covers(cap as int, node as int, left, w, c, j),
                1 <= node < 2 * cap,
            decreases node,
        {
            let parent = node / 2;
            proof {
                lemma_pow2_facts(c);
                lemma_pow2_facts(w);
                assert(c > 1);
                lemma_pow2_double(w);
                assert(w * 2 <= cap && (c / 2) * (2 * w) == cap && (j / 2) * (2 * w) == 2 * (j / 2) * w)
                    by (nonlinear_arith)
                    requires
                        c * w == cap,
                        c % 2 == 0,
                        c >= 2,
                        w >= 1,
                ;
                let lc = 2 * (j / 2);
                assert(lc * w + w == (lc + 1) * w) by (nonlinear_arith);
                lemma_subtree(
                    self.tree@,
                    cap as int,
                    vals,
                    2 * parent as int,
                    lc * w,
                    w,
                    c,
                    lc,
                );
                lemma_subtree(
                    self.tree@,
                    cap as int,
                    vals,
                    2 * parent as int + 1,
                    lc * w + w,
                    w,
                    c,
                    lc + 1,
                );
                lemma_clip_len(vals, lc * w, lc * w + w);
                lemma_clip_len(vals, lc * w + w, lc * w + 2 * w);
                lemma_summarize_bounds(clip(vals, lc * w, lc * w + w));
                lemma_summarize_bounds(clip(vals, lc * w + w, lc * w + 2 * w));
            }
            let l = self.tree[2 * parent];
            let r = self.tree[2 * parent + 1];
            let m = NodeData::merge(&l, &r);
            let ghost t_before = self.tree@;
            self.tree.set(parent, m);
            proof {
                assert forall|i: int| 1 <= i < cap && i != parent / 2 implies #[trigger] node_ok(
                    self.tree@,
                    i,
                ) by {
                    if i != parent {
                        assert(node_ok(t_before, i));
                    }
                }
                w = 2 * w;
                c = c / 2;
                j = j / 2;
                left = j * w;
            }
            node = parent;
        }
    }

    /// Grows the leaf region to the smallest power of two that holds
    /// `needed_size` observations, keeping the observations.
    fn ensure_capacity(&mut self, needed_size: usize)
        requires
            old(self).wf(),
            needed_size <= MAX_OBSERVATIONS,
        ensures
            final(self).wf(),
            final(self)@ == old(self)@,
            final(self).capacity() >= needed_size,
            needed_size <= old(self).capacity() ==> *final(self) == *old(self),
            needed_size > old(self).capacity() ==> final(self).capacity() < 2 * needed_size,
    {
        if needed_size <= self.size {
            return;
        }
        let mut new_size = self.size;
        proof {
            lemma_max_observations_pow2();
        }
        while new_size < needed_size
            invariant
                is_pow2(new_size as int),
                is_pow2(MAX_OBSERVATIONS as int),
                self.size <= new_size <= MAX_OBSERVATIONS,
                needed_size <= MAX_OBSERVATIONS,
                new_size < 2 * needed_size,
            decreases MAX_OBSERVATIONS - new_size,
        {
            proof {
                lemma_pow2_lt(new_size as int, MAX_OBSERVATIONS as int);
                lemma_pow2_double(new_size as int);
            }
            new_size = new_size * 2;
        }
        let ghost vals = self@;
        let n = self.current_position;
        let cap = self.size;
        let mut tree: Vec<NodeData> = Vec::new();
        let mut i: usize = 0;
        while i < new_size
            invariant
                i <= new_size,
                tree@.len() == i,
            decreases new_size - i,
        {
            tree.push(NodeData::zero());
            i = i + 1;
        }
        let mut j: usize = 0;
        while j < new_size
            invariant
                self.wf(),
                self@ == vals,
                self.size == cap,
                self.current_position == n,
                n <= cap <= new_size <= MAX_OBSERVATIONS,
                j <= new_size,
                tree@.len() == new_size + j,
                forall|m: int| 0 <= m < j ==> #[trigger] tree@[new_size + m]@ == summarize(clip(vals, m, m + 1)),
            decreases new_size - j,
        {
            if j < n {
                proof {
                    assert(self.tree@[cap + j]@ == summarize(clip(vals, j as int, j + 1)));
                }
                tree.push(self.tree[cap + j]);
            } else {
                proof {
                    assert(clip(vals, j as int, j + 1) =~= Seq::<i32>::empty());
                }
                tree.push(NodeData::zero());
            }
            j = j + 1;
        }
        proof {
            assert forall|m: int| new_size <= m < 2 * new_size implies #[trigger] tree@[m]@ == summarize(
                clip(vals, m - new_size, m - new_size + 1),
            ) by {
                assert(tree@[new_size + (m - new_size)] == tree@[m]);
            }
        }
        let mut k: usize = new_size - 1;
        let ghost mut c: int = (new_size / 2) as int;
        proof {
            lemma_pow2_facts(new_size as int);
        }
        while k > 0
            invariant
                is_pow2(new_size as int),
                INITIAL_CAPACITY <= new_size <= MAX_OBSERVATIONS,
                vals.len() <= new_size,
                tree@.len() == 2 * new_size,
                k < new_size,
                k > 0 ==> is_pow2(c) && c <= k < 2 * c && 2 * c <= new_size,
                leaves_ok(tree@, new_size as int, vals),
                forall|m: int| k < m < new_size ==> #[trigger] node_ok(tree@, m),
            decreases k,
        {
            let ghost w = (new_size as int) / (2 * c);
            let ghost jj = 2 * (k - c);
            proof {
                lemma_pow2_double(c);
                lemma_pow2_quotient(new_size as int, 2 * c);
                assert(2 * c * w == new_size);
                assert(jj * w + w == (jj + 1) * w) by (nonlinear_arith);
                lemma_subtree(tree@, new_size as int, vals, 2 * k as int, jj * w, w, 2 * c, jj);
                lemma_subtree(tree@, new_size as int, vals, 2 * k as int + 1, jj * w + w, w, 2 * c, jj + 1);
                lemma_clip_len(vals, jj * w, jj * w + w);
                lemma_clip_len(vals, jj * w + w, jj * w + 2 * w);
                lemma_summarize_bounds(clip(vals, jj * w, jj * w + w));
                lemma_summarize_bounds(clip(vals, jj * w + w, jj * w + 2 * w));
                assert(2 * w <= new_size) by (nonlinear_arith)
                    requires
                        2 * c * w == new_size,
                        c >= 1,
                        w >= 1,
                ;
            }
            let l = tree[2 * k];
            let r = tree[2 * k + 1];
            let m = NodeData::merge(&l, &r);
            let ghost before = tree@;
            tree.set(k, m);
            proof {
                assert forall|q: int| k <= q < new_size implies #[trigger] node_ok(tree@, q) by {
                    if q != k {
                        assert(node_ok(before, q));
                    }
                }
                if k - 1 < c && k - 1 > 0 {
                    lemma_pow2_facts(c);
                    c = c / 2;
                }
            }
            k = k - 1;
        }
        self.tree = tree;
        self.size = new_size;
    }

    /// Appends `values` in order. The leaf region grows only when the batch
    /// does not fit, and then to the smallest power of two that holds it.
    pub fn add_batch(&mut self, values: &[i32])
        requires
            old(self).wf(),
            old(self)@.len() + values@.len() <= MAX_OBSERVATIONS,
        ensures
            final(self).wf(),
            final(self)@ == old(self)@ + values@,
            old(self)@.len() + values@.len() <= old(self).capacity() ==> final(self).capacity()
                == old(self).capacity(),
            old(self)@.len() + values@.len() > old(self).capacity() ==> final(self).capacity() < 2 * (
            old(self)@.len() + values@.len()),
            old(self).capacity() == capacity_for(old(self)@.len()) ==> final(self).capacity()
                == capacity_for(final(self)@.len()),
    {
        self.ensure_capacity(self.current_position + values.len());
        let ghost grown = self.capacity();
        let mut i: usize = 0;
        while i < values.len()
            invariant
                self.wf(),
                self@ == old(self)@ + values@.subrange(0, i as int),
                self.capacity() >= old(self)@.len() + values@.len(),
                self.capacity() == grown,
                i <= values@.len(),
            decreases values@.len() - i,
        {
            proof {
                assert(values@.subrange(0, i + 1) =~= values@.subrange(0, i as int).push(values@[i as int]));
                assert(old(self)@ + values@.subrange(0, i + 1) =~= (old(self)@ + values@.subrange(0, i as int)).push(values@[i as int]));
            }
            self.update(values[i]);
            i = i + 1;
        }
        proof {
            assert(values@.subrange(0, values@.len() as int) =~= values@);
            self.lemma_wf();
            let total = (old(self)@.len() + values@.len()) as nat;
            if old(self).capacity() == capacity_for(old(self)@.len()) {
                reveal_with_fuel(is_pow2, 12);
                lemma_grow(INITIAL_CAPACITY as nat, old(self)@.len());
                lemma_capacity_for(self.capacity(), total);
            }
        }
    }

    fn query_internal(
        &self,
        node: usize,
        left: usize,
        right: usize,
        start: usize,
        end: usize,
        Ghost(c): Ghost<int>,
        Ghost(j): Ghost<int>,
    ) -> (r: NodeData)
        requires
            self.wf(),
            left < right,
            covers(self.size as int, node as int, left as int, right - left, c, j),
        ensures
            r@ == summarize(
                clip(self@, max_int(start as int, left as int), min_int(end as int, right as int)),
            ),
        decreases right - left,
    {
        let ghost cap = self.size as int;
        let ghost vals = self@;
        let ghost w = right - left;
        if end <= left || right <= start {
            proof {
                assert(clip(vals, max_int(start as int, left as int), min_int(end as int, right as int))
                    =~= Seq::<i32>::empty());
            }
            return NodeData::zero();
        }
        if start <= left && right <= end {
            proof {
                lemma_subtree(self.tree@, cap, vals, node as int, left as int, w, c, j);
            }
            return self.tree[node];
        }
        let mid = left + (right - left) / 2;
        let ghost h = w / 2;
        proof {
            lemma_pow2_facts(w);
            lemma_pow2_facts(c);
            lemma_pow2_double(c);
            assert(2 * c * h == cap) by (nonlinear_arith)
                requires
                    c * w == cap,
                    w == 2 * h,
            ;
            assert(2 * c <= cap) by (nonlinear_arith)
                requires
                    2 * c * h == cap,
                    h >= 1,
                    c >= 1,
            ;
            assert(2 * j * h == left) by (nonlinear_arith)
                requires
                    w == 2 * h,
                    left == j * w,
            ;
            assert((2 * j + 1) * h == left + h) by (nonlinear_arith)
                requires
                    2 * j * h == left,
            ;
        }
        let lr = self.query_internal(2 * node, left, mid, start, end, Ghost(2 * c), Ghost(2 * j));
        let rr = self.query_internal(
            2 * node + 1,
            mid,
            right,
            start,
            end,
            Ghost(2 * c),
            Ghost(2 * j + 1),
        );
        proof {
            let a = max_int(start as int, left as int);
            let b = min_int(end as int, right as int);
            let a1 = max_int(start as int, mid as int);
            let b1 = min_int(end as int, mid as int);
            lemma_clip_len(vals, a, b1);
            lemma_clip_len(vals, a1, b);
            lemma_summarize_bounds(clip(vals, a, b1));
            lemma_summarize_bounds(clip(vals, a1, b));
            if end <= mid {
                assert(clip(vals, a1, b) =~= Seq::<i32>::empty());
                assert(clip(vals, a, b1) + clip(vals, a1, b) =~= clip(vals, a, b));
            } else if start >= mid {
                assert(clip(vals, a, b1) =~= Seq::<i32>::empty());
                assert(clip(vals, a, b1) + clip(vals, a1, b) =~= clip(vals, a, b));
            } else {
                lemma_clip_split(vals, a, mid as int, b);
            }
            lemma_summarize_concat(clip(vals, a, b1), clip(vals, a1, b));
        }
        NodeData::merge(&lr, &rr)
    }

    /// The record of the observations at positions `[start, end)`; positions
    /// past the end of the stream hold nothing.
    pub fn query_range(&self, start: usize, end: usize) -> (r: NodeData)
        requires
            self.wf(),
        ensures
            r@ == summarize(clip(self@, start as int, end as int)),
    {
        proof {
            reveal_with_fuel(is_pow2, 2);
            assert(self.size * 1 == self.size);
        }
        self.query_internal(1, 0, self.size, start, end, Ghost(1), Ghost(0))
    }

    /// The record of the last `10^k` observations, or of all of them when
    /// there are fewer.
    pub fn suffix_stats(&self, k: u32) -> (r: NodeData)
        requires
            self.wf(),
        ensures
            r@ == summarize(suffix_window(self@, k as nat)),
    {
        let end = self.current_position;
        let mut w: u64 = 1;
        let mut i: u32 = 0;
        while i < k && w < end as u64
            invariant
                i <= k,
                w == pow10(i as nat),
                w <= 10 * MAX_OBSERVATIONS,
                end <= MAX_OBSERVATIONS,
            decreases k - i,
        {
            w = w * 10;
            i = i + 1;
        }
        proof {
            lemma_pow10_monotone(i as nat, k as nat);
        }
        let start: usize = if w >= end as u64 { 0 } else { end - w as usize };
        proof {
            let vals = self@;
            assert(start == window_start(vals.len(), k as nat));
            assert(clip(vals, start as int, end as int) =~= suffix_window(vals, k as nat));
        }
        self.query_range(start, end)
    }
}

} // verus!
