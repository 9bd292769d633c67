//! Maxima over ranges of a list.
use vstd::prelude::*;

verus! {

/// The largest of `s` in the positions from `lo` to before `hi`; zero if there are none.
pub open spec fn largest(s: Seq<u16>, lo: int, hi: int) -> u16
    decreases hi - lo,
{
    if lo >= hi {
        0
    } else {
        let rest = largest(s, lo, hi - 1);
        if s[hi - 1] > rest {
            s[hi - 1]
        } else {
            rest
        }
    }
}

pub open spec fn larger(x: u16, y: u16) -> u16 {
    if x > y {
        x
    } else {
        y
    }
}

pub fn max_count(x: u16, y: u16) -> (r: u16)
    ensures
        r == larger(x, y),
{
    if x > y {
        x
    } else {
        y
    }
}

/// The maximum is one of the values, and no value exceeds it.
pub proof fn lemma_largest(s: Seq<u16>, lo: int, hi: int)
    ensures
        forall|k: int| lo <= k < hi ==> #[trigger] s[k] <= largest(s, lo, hi),
        largest(s, lo, hi) > 0 ==> exists|k: int| lo <= k < hi && s[k] == largest(s, lo, hi),
    decreases hi - lo,
{
    if lo < hi {
        lemma_largest(s, lo, hi - 1);
    }
}

/// The maximum over two neighbouring ranges is the larger of theirs.
pub proof fn lemma_largest_split(s: Seq<u16>, lo: int, mid: int, hi: int)
    requires
        lo <= mid <= hi,
    ensures
        largest(s, lo, hi) == larger(largest(s, lo, mid), largest(s, mid, hi)),
    decreases hi - mid,
{
    if mid < hi {
        lemma_largest_split(s, lo, mid, hi - 1);
    }
}

proof fn lemma_largest_shift(s: Seq<u16>, t: Seq<u16>, shift: int, lo: int, hi: int)
    requires
        forall|k: int| lo <= k < hi ==> #[trigger] s[k] == t[k + shift],
    ensures
        largest(s, lo, hi) == largest(t, lo + shift, hi + shift),
    decreases hi - lo,
{
    if lo < hi {
        lemma_largest_shift(s, t, shift, lo, hi - 1);
        assert(s[hi - 1] == t[hi - 1 + shift]);
    }
}

/// A list that answers for the maximum over any range: the leaves of a binary tree hold the
/// values, and each inner node the maximum of the two below it.
pub struct RangeMax {
    base: usize,
    nodes: Vec<u16>,
}

impl RangeMax {
    /// The values, followed by zeros.
    pub closed spec fn leaves(&self) -> Seq<u16> {
        self.nodes@.subrange(self.base as int, 2 * self.base)
    }

    pub closed spec fn wf(&self) -> bool {
        &&& self.base >= 1
        &&& self.nodes.len() == 2 * self.base
        &&& forall|k: int|
            1 <= k < self.base ==> #[trigger] self.nodes@[k] == larger(
                self.nodes@[2 * k],
                self.nodes@[2 * k + 1],
            )
    }

    /// Whether it answers for `values`.
    pub open spec fn is_over(&self, values: Seq<u16>) -> bool {
        &&& self.wf()
        &&& self.leaves().len() >= values.len()
        &&& forall|k: int|
            0 <= k < self.leaves().len() ==> #[trigger] self.leaves()[k] == if k < values.len() {
                values[k]
            } else {
                0
            }
    }

    pub fn new(values: &[u16]) -> (out: RangeMax)
        requires
            values.len() <= usize::MAX / 4,
        ensures
            out.is_over(values@),
    {
        let mut base: usize = 1;
        while base < values.len()
            invariant
                1 <= base <= usize::MAX / 2,
                values.len() <= usize::MAX / 4,
            decreases 2 * values.len() - base,
        {
            base = base * 2;
        }
        let mut nodes: Vec<u16> = vec![0; base * 2];
        for i in 0..values.len()
            invariant
                nodes.len() == 2 * base,
                values.len() <= base <= usize::MAX / 2,
                forall|k: int| 0 <= k < i ==> #[trigger] nodes@[base + k] == values@[k],
                forall|k: int| base + i <= k < 2 * base ==> #[trigger] nodes@[k] == 0,
        {
            nodes.set(base + i, values[i]);
        }
        let ghost leaves = nodes@.subrange(base as int, 2 * base);
        assert forall|k: int| 0 <= k < leaves.len() implies #[trigger] leaves[k] == if k
            < values.len() {
            values@[k]
        } else {
            0
        } by {
            assert(leaves[k] == nodes@[base + k]);
        }
        let mut idx: usize = base;
        while idx > 1
            invariant
                1 <= idx <= base <= usize::MAX / 2,
                nodes.len() == 2 * base,
                nodes@.subrange(base as int, 2 * base) == leaves,
                forall|k: int|
                    idx <= k < base ==> #[trigger] nodes@[k] == larger(
                        nodes@[2 * k],
                        nodes@[2 * k + 1],
                    ),
            decreases idx,
        {
            idx = idx - 1;
            let top = max_count(nodes[idx * 2], nodes[idx * 2 + 1]);
            nodes.set(idx, top);
            assert(nodes@.subrange(base as int, 2 * base) == leaves);
        }
        RangeMax { base, nodes }
    }

    /// The largest value from `start` to before `end`.
    pub fn query(&self, start: usize, end: usize) -> (out: u16)
        requires
            self.wf(),
            start <= self.leaves().len(),
            end <= self.leaves().len(),
        ensures
            out == largest(self.leaves(), start as int, end as int),
    {
        let mut lo: usize = start + self.base;
        let mut hi: usize = end + self.base;
        let mut out: u16 = 0;
        let ghost mut level: nat = 0;
        proof {
            lemma_largest_shift(
                self.leaves(),
                self.nodes@,
                self.base as int,
                start as int,
                end as int,
            );
        }
        while lo < hi
            invariant
                self.wf(),
                self.base <= lo * width(level),
                hi * width(level) <= 2 * self.base,
                larger(out, largest(self.nodes@, lo * width(level), hi * width(level))) == largest(
                    self.leaves(),
                    start as int,
                    end as int,
                ),
            decreases hi,
        {
            let ghost w = width(level);
            proof {
                lemma_width(level);
                assert(lo < hi <= 2 * self.base) by (nonlinear_arith)
                    requires
                        hi * w <= 2 * self.base,
                        w >= 1,
                        lo < hi,
                ;
                assert((lo + 1) * w == lo * w + w) by (nonlinear_arith);
                assert((hi - 1) * w == hi * w - w) by (nonlinear_arith);
                assert(lo * w + w <= hi * w) by (nonlinear_arith)
                    requires
                        lo + 1 <= hi,
                        w >= 1,
                ;
                if lo % 2 == 1 {
                    self.lemma_node(lo as int, level);
                    lemma_largest_split(self.nodes@, lo * w, lo * w + w, hi * w);
                }
            }
            if lo % 2 == 1 {
                out = max_count(out, self.nodes[lo]);
                lo = lo + 1;
            }
            assert(hi % 2 == 1 ==> lo < hi);
            proof {
                if hi % 2 == 1 {
                    assert(lo * w + w <= hi * w) by (nonlinear_arith)
                        requires
                            lo + 1 <= hi,
                            w >= 1,
                    ;
                    self.lemma_node(hi - 1, level);
                    lemma_largest_split(self.nodes@, lo * w, hi * w - w, hi * w);
                }
            }
            if hi % 2 == 1 {
                hi = hi - 1;
                out = max_count(out, self.nodes[hi]);
            }
            proof {
                level = level + 1;
                let half_lo = lo as int / 2;
                let half_hi = hi as int / 2;
                assert(half_lo * (2 * w) == lo * w) by (nonlinear_arith)
                    requires
                        lo == 2 * half_lo,
                ;
                assert(half_hi * (2 * w) == hi * w) by (nonlinear_arith)
                    requires
                        hi == 2 * half_hi,
                ;
            }
            lo = lo / 2;
            hi = hi / 2;
        }
        proof {
            let w = width(level);
            lemma_width(level);
            assert(hi * w <= lo * w) by (nonlinear_arith)
                requires
                    hi <= lo,
                    w >= 1,
            ;
        }
        out
    }

    /// A node holds the maximum of the leaves below it.
    proof fn lemma_node(&self, k: int, level: nat)
        requires
            self.wf(),
            self.base <= k * width(level),
            k * width(level) + width(level) <= 2 * self.base,
        ensures
            1 <= k < 2 * self.base,
            self.nodes@[k] == largest(
                self.nodes@,
                k * width(level),
                k * width(level) + width(level),
            ),
        decreases level,
    {
        let w = width(level);
        lemma_width(level);
        assert(1 <= k < 2 * self.base) by (nonlinear_arith)
            requires
                1 <= self.base <= k * w,
                k * w + w <= 2 * self.base,
                w >= 1,
        ;
        if level == 0 {
            reveal_with_fuel(largest, 2);
        } else {
            let v = width((level - 1) as nat);
            lemma_width((level - 1) as nat);
            assert(k < self.base) by (nonlinear_arith)
                requires
                    k * w + w <= 2 * self.base,
                    w == 2 * v,
                    v >= 1,
                    k >= 1,
            ;
            assert(2 * k * v == k * w) by (nonlinear_arith)
                requires
                    w == 2 * v,
            ;
            assert((2 * k + 1) * v == k * w + v) by (nonlinear_arith)
                requires
                    w == 2 * v,
            ;
            self.lemma_node(2 * k, (level - 1) as nat);
            self.lemma_node(2 * k + 1, (level - 1) as nat);
            lemma_largest_split(self.nodes@, k * w, k * w + v, k * w + w);
        }
    }
}

/// How many leaves stand below a node, counted from the leaves up.
spec fn width(level: nat) -> int
    decreases level,
{
    if level == 0 {
        1
    } else {
        2 * width((level - 1) as nat)
    }
}

proof fn lemma_width(level: nat)
    ensures
        width(level) >= 1,
    decreases level,
{
    if level > 0 {
        lemma_width((level - 1) as nat);
    }
}

/// A tree over `values` answers with their maxima: over any range with the greatest value in it, or
/// with zero if it is empty, and so over two neighbouring ranges with the larger of both answers.
pub proof fn lemma_ranges_of_values(
    tree: &RangeMax,
    values: Seq<u16>,
    start: int,
    mid: int,
    end: int,
)
    requires
        tree.is_over(values),
        0 <= start <= mid <= end <= values.len(),
    ensures
        ({
            let answer = largest(tree.leaves(), start, end);
            &&& answer == largest(values, start, end)
            &&& forall|k: int| start <= k < end ==> #[trigger] values[k] <= answer
            &&& start < end ==> exists|k: int| start <= k < end && #[trigger] values[k] == answer
            &&& start == end ==> answer == 0
            &&& answer == larger(
                largest(tree.leaves(), start, mid),
                largest(tree.leaves(), mid, end),
            )
        }),
{
    lemma_largest_shift(tree.leaves(), values, 0, start, end);
    lemma_largest_split(tree.leaves(), start, mid, end);
    lemma_largest(values, start, end);
    if start < end {
        assert(values[start] <= largest(values, start, end));
    }
}

} // verus!
