use vstd::prelude::*;

verus! {

/// Sum of `s[lo..hi]` (half-open); zero when the range is empty.
pub open spec fn range_sum(s: Seq<i64>, lo: int, hi: int) -> int
    decreases hi - lo,
{
    if lo >= hi {
        0
    } else {
        range_sum(s, lo, hi - 1) + s[hi - 1] as int
    }
}

/// What `SegTree::query` answers on a tree whose contents are `s`.
pub open spec fn query_result(s: Seq<i64>, l: int, r: int) -> Result<int, SegTreeError> {
    if l > r {
        Ok(0)
    } else if l < 0 || r >= s.len() {
        Err(SegTreeError::IndexOutOfRange)
    } else {
        Ok(range_sum(s, l, r + 1))
    }
}

/// Largest power of two that is at most `v` (for `v >= 1`).
spec fn level(v: int) -> int
    decreases v,
{
    if v <= 1 {
        1
    } else {
        2 * level(v / 2)
    }
}

/// `i` is node `root` or one of its descendants.
spec fn in_subtree(root: int, i: int) -> bool
    decreases i,
{
    if i <= 0 || i < root {
        false
    } else if i == root {
        true
    } else {
        in_subtree(root, i / 2)
    }
}

/// Node `v` covering `[tl, tr]` of a sequence of length `n` has an id below `4 * n`,
/// and so have all nodes under it.
spec fn node_fits(n: int, v: int, tl: int, tr: int) -> bool {
    &&& 1 <= v < 4 * n
    &&& 0 <= tl <= tr < n
    &&& (tr - tl) * level(v) < n
}

/// Node `v` covering `[tl, tr]` and every node below it hold the sums of their intervals.
spec fn valid_node(t: Seq<i128>, s: Seq<i64>, v: int, tl: int, tr: int) -> bool
    decreases tr - tl,
{
    &&& 1 <= v < t.len()
    &&& 0 <= tl <= tr < s.len()
    &&& t[v] as int == range_sum(s, tl, tr + 1)
    &&& tl < tr ==> valid_node(t, s, 2 * v, tl, (tl + tr) / 2)
    &&& tl < tr ==> valid_node(t, s, 2 * v + 1, (tl + tr) / 2 + 1, tr)
}

/// Sum of the part of `[l, r]` that lies in `[tl, tr]`.
spec fn overlap_sum(s: Seq<i64>, l: int, r: int, tl: int, tr: int) -> int {
    range_sum(s, if l > tl { l } else { tl }, if r < tr { r + 1 } else { tr + 1 })
}

proof fn lemma_sum_split(s: Seq<i64>, a: int, b: int, c: int)
    requires
        a <= b <= c,
    ensures
        range_sum(s, a, c) == range_sum(s, a, b) + range_sum(s, b, c),
    decreases c - b,
{
    if c > b {
        lemma_sum_split(s, a, b, c - 1);
    }
}

proof fn lemma_sum_frame(s: Seq<i64>, s2: Seq<i64>, lo: int, hi: int)
    requires
        forall|k: int| lo <= k < hi ==> s[k] == s2[k],
    ensures
        range_sum(s, lo, hi) == range_sum(s2, lo, hi),
    decreases hi - lo,
{
    if lo < hi {
        lemma_sum_frame(s, s2, lo, hi - 1);
    }
}

proof fn lemma_sum_bound(s: Seq<i64>, lo: int, hi: int)
    requires
        lo <= hi,
    ensures
        -(hi - lo) * 0x8000_0000_0000_0000 <= range_sum(s, lo, hi) <= (hi - lo)
            * 0x8000_0000_0000_0000,
    decreases hi - lo,
{
    if lo < hi {
        lemma_sum_bound(s, lo, hi - 1);
    }
}

proof fn lemma_level(v: int)
    requires
        v >= 1,
    ensures
        1 <= level(v) <= v < 2 * level(v),
        level(2 * v) == 2 * level(v),
        level(2 * v + 1) == 2 * level(v),
    decreases v,
{
    if v > 1 {
        lemma_level(v / 2);
    }
    assert(level(2 * v) == 2 * level((2 * v) / 2));
    assert(level(2 * v + 1) == 2 * level((2 * v + 1) / 2));
}

proof fn lemma_fits_children(n: int, v: int, tl: int, tr: int)
    requires
        node_fits(n, v, tl, tr),
        tl < tr,
    ensures
        node_fits(n, 2 * v, tl, (tl + tr) / 2),
        node_fits(n, 2 * v + 1, (tl + tr) / 2 + 1, tr),
{
    let lv = level(v);
    let tm = (tl + tr) / 2;
    lemma_level(v);
    assert(lv <= (tr - tl) * lv) by (nonlinear_arith)
        requires
            lv >= 1,
            tr - tl >= 1,
    ;
    assert((tm - tl) * (2 * lv) <= (tr - tl) * lv) by (nonlinear_arith)
        requires
            2 * (tm - tl) <= tr - tl,
            lv >= 1,
    ;
    assert((tr - (tm + 1)) * (2 * lv) <= (tr - tl) * lv) by (nonlinear_arith)
        requires
            2 * (tr - (tm + 1)) <= tr - tl,
            lv >= 1,
    ;
}

proof fn lemma_child_in_subtree(v: int, c: int, i: int)
    requires
        v >= 1,
        c == 2 * v || c == 2 * v + 1,
        in_subtree(c, i),
    ensures
        in_subtree(v, i),
    decreases i,
{
    if i != c {
        lemma_child_in_subtree(v, c, i / 2);
    } else {
        assert(in_subtree(v, c / 2));
    }
}

proof fn lemma_subtree_order(a: int, b: int, i: int)
    requires
        1 <= a <= b,
        in_subtree(a, i),
        in_subtree(b, i),
    ensures
        in_subtree(a, b),
    decreases i,
{
    if i != b {
        lemma_subtree_order(a, b, i / 2);
    }
}

/// No node lies below both children of `v`, and `v` lies below neither.
proof fn lemma_children_apart(v: int, i: int)
    requires
        v >= 1,
    ensures
        !(in_subtree(2 * v, i) && in_subtree(2 * v + 1, i)),
        !in_subtree(2 * v, v),
        !in_subtree(2 * v + 1, v),
{
    assert(!in_subtree(2 * v, v));
    assert(!in_subtree(2 * v, 2 * v + 1)) by {
        assert(in_subtree(2 * v, 2 * v + 1) == in_subtree(2 * v, v));
    }
    if in_subtree(2 * v, i) && in_subtree(2 * v + 1, i) {
        lemma_subtree_order(2 * v, 2 * v + 1, i);
    }
}

/// A node stays valid when nothing under it changes in the tree and nothing in its
/// interval changes in the sequence.
proof fn lemma_node_frame(
    t: Seq<i128>,
    t2: Seq<i128>,
    s: Seq<i64>,
    s2: Seq<i64>,
    v: int,
    tl: int,
    tr: int,
)
    requires
        valid_node(t, s, v, tl, tr),
        t2.len() == t.len(),
        s2.len() == s.len(),
        forall|i: int| 0 <= i < t.len() && in_subtree(v, i) ==> t2[i] == t[i],
        forall|k: int| tl <= k <= tr ==> s2[k] == s[k],
    ensures
        valid_node(t2, s2, v, tl, tr),
    decreases tr - tl,
{
    assert(in_subtree(v, v));
    lemma_sum_frame(s, s2, tl, tr + 1);
    if tl < tr {
        let tm = (tl + tr) / 2;
        assert forall|i: int| 0 <= i < t.len() && in_subtree(2 * v, i) implies t2[i] == t[i] by {
            lemma_child_in_subtree(v, 2 * v, i);
        }
        assert forall|i: int| 0 <= i < t.len() && in_subtree(2 * v + 1, i) implies t2[i]
            == t[i] by {
            lemma_child_in_subtree(v, 2 * v + 1, i);
        }
        lemma_node_frame(t, t2, s, s2, 2 * v, tl, tm);
        lemma_node_frame(t, t2, s, s2, 2 * v + 1, tm + 1, tr);
    }
}

/// Sum of all elements of `s`, left to right.
pub open spec fn total(s: Seq<i64>) -> int {
    s.fold_left(0int, |acc: int, x: i64| acc + x)
}

proof fn lemma_prefix_sum_fold(s: Seq<i64>, k: int)
    requires
        0 <= k <= s.len(),
    ensures
        range_sum(s, 0, k) == total(s.subrange(0, k)),
    decreases k,
{
    if k > 0 {
        lemma_prefix_sum_fold(s, k - 1);
        assert(s.subrange(0, k).drop_last() =~= s.subrange(0, k - 1));
    }
}

/// Querying the whole of a non-empty sequence gives the sum of all its elements.
pub proof fn lemma_full_query_is_total(s: Seq<i64>)
    requires
        s.len() > 0,
    ensures
        query_result(s, 0, s.len() - 1) == Ok::<int, SegTreeError>(total(s)),
{
    lemma_prefix_sum_fold(s, s.len() as int);
    assert(s.subrange(0, s.len() as int) =~= s);
}

/// After position `i` is set to `val`, querying `[i, i]` gives `val`.
pub proof fn lemma_update_then_point(s: Seq<i64>, i: int, val: i64)
    requires
        0 <= i < s.len(),
    ensures
        query_result(s.update(i, val), i, i) == Ok::<int, SegTreeError>(val as int),
{
    let s1 = s.update(i, val);
    assert(range_sum(s1, i, i + 1) == range_sum(s1, i, i) + s1[i]);
}

/// Setting position `i` leaves the single-position query at every other `j` unchanged.
pub proof fn lemma_update_isolates(s: Seq<i64>, i: int, val: i64, j: int)
    requires
        0 <= i < s.len(),
        0 <= j,
        j != i,
    ensures
        query_result(s.update(i, val), j, j) == query_result(s, j, j),
{
    let s1 = s.update(i, val);
    if j < s.len() {
        assert(range_sum(s1, j, j + 1) == range_sum(s1, j, j) + s1[j]);
        assert(range_sum(s, j, j + 1) == range_sum(s, j, j) + s[j]);
    }
}

/// For `l <= m < r` within the sequence, the query over `[l, r]` is the sum of the
/// queries over `[l, m]` and `[m + 1, r]`.
pub proof fn lemma_query_splits(s: Seq<i64>, l: int, m: int, r: int)
    requires
        0 <= l <= m < r < s.len(),
    ensures
        query_result(s, l, r) is Ok,
        query_result(s, l, m) is Ok,
        query_result(s, m + 1, r) is Ok,
        query_result(s, l, r)->Ok_0 == query_result(s, l, m)->Ok_0 + query_result(
            s,
            m + 1,
            r,
        )->Ok_0,
{
    lemma_sum_split(s, l, m + 1, r + 1);
}

/// A range whose left bound lies past its right bound sums to zero, wherever it lies.
pub proof fn lemma_empty_range_is_zero(s: Seq<i64>, l: int, r: int)
    requires
        l > r,
    ensures
        query_result(s, l, r) == Ok::<int, SegTreeError>(0),
{
}

/// The single-position query at the length of the sequence is out of range.
pub proof fn lemma_query_past_end_fails(s: Seq<i64>)
    ensures
        query_result(s, s.len() as int, s.len() as int) == Err::<int, SegTreeError>(
            SegTreeError::IndexOutOfRange,
        ),
{
}

/// Errors of the tree's operations.
#[derive(Clone, Copy, Debug, PartialEq, Eq, Structural)]
pub enum SegTreeError {
    /// A position or a query bound lies outside the sequence.
    IndexOutOfRange,
}

/// Point updates and range sums over a fixed-length sequence of `i64`, each in
/// logarithmic time.
///
/// Node `1` covers the whole sequence; node `v` covering `[tl, tr]` with `tl < tr`
/// has children `2v` over `[tl, tm]` and `2v + 1` over `[tm + 1, tr]`, with
/// `tm = (tl + tr) / 2`. Sums are held in `i128`, which no sum of `i64` values
/// of a `Vec` can overflow.
pub struct SegTree {
    tree: Vec<i128>,
    len: usize,
    vals: Ghost<Seq<i64>>,
}

impl View for SegTree {
    type V = Seq<i64>;

    closed spec fn view(&self) -> Seq<i64> {
        self.vals@
    }
}

impl SegTree {
    /// The tree is well formed: every node holds the sum of its interval.
    pub closed spec fn wf(&self) -> bool {
        &&& self.vals@.len() == self.len
        &&& self.len <= usize::MAX / 8
        &&& self.tree@.len() == 4 * self.len
        &&& self.len > 0 ==> valid_node(self.tree@, self.vals@, 1, 0, self.len - 1)
    }

    /// `build` may fill node `v` over `[tl, tr]` from `a`.
    pub closed spec fn ready_for(&self, a: Seq<i64>, v: int, tl: int, tr: int) -> bool {
        &&& a.len() <= usize::MAX / 8
        &&& self.tree@.len() == 4 * a.len()
        &&& node_fits(a.len() as int, v, tl, tr)
    }

    /// Node `v` over `[tl, tr]` now holds the sums of `a`, and only that subtree of
    /// `before` has changed.
    pub closed spec fn built_from(
        &self,
        before: SegTree,
        a: Seq<i64>,
        v: int,
        tl: int,
        tr: int,
    ) -> bool {
        &&& self.len == before.len
        &&& self.vals == before.vals
        &&& self.tree@.len() == before.tree@.len()
        &&& valid_node(self.tree@, a, v, tl, tr)
        &&& forall|i: int|
            0 <= i < self.tree@.len() && !in_subtree(v, i) ==> self.tree@[i] == before.tree@[i]
    }

    /// Builds the tree over `a`; an empty `a` gives a tree that accepts no position.
    ///
    /// A `Vec<i64>` holds at most `isize::MAX / 8` elements, so the bound on its
    /// length is always met.
    pub fn new(a: &Vec<i64>) -> (st: SegTree)
        requires
            a@.len() <= usize::MAX / 8,
        ensures
            st.wf(),
            st@ == a@,
    {
        let n = a.len();
        let mut st = SegTree { tree: vec![0i128; 4 * n], len: n, vals: Ghost(a@) };
        if n > 0 {
            proof {
                assert(level(1) == 1);
            }
            st.build(a, 1, 0, n - 1);
        }
        st
    }

    /// Fills node `v`, which covers `[tl, tr]`, and the nodes below it from `a`.
    pub fn build(&mut self, a: &Vec<i64>, v: usize, tl: usize, tr: usize)
        requires
            old(self).ready_for(a@, v as int, tl as int, tr as int),
        ensures
            final(self).built_from(*old(self), a@, v as int, tl as int, tr as int),
        decreases tr - tl,
    {
        let ghost t0 = self.tree@;
        if tl == tr {
            self.tree.set(v, a[tl] as i128);
            proof {
                assert(range_sum(a@, tl as int, tl + 1) == range_sum(a@, tl as int, tl as int)
                    + a@[tl as int]);
                assert forall|i: int|
                    0 <= i < self.tree@.len() && !in_subtree(v as int, i) implies self.tree@[i]
                    == t0[i] by {
                    if i == v {
                        assert(in_subtree(v as int, i));
                    }
                }
            }
            return;
        }
        let tm = (tl + tr) / 2;
        proof {
            lemma_fits_children(a@.len() as int, v as int, tl as int, tr as int);
        }
        self.build(a, 2 * v, tl, tm);
        let ghost t1 = self.tree@;
        self.build(a, 2 * v + 1, tm + 1, tr);
        let ghost t2 = self.tree@;
        proof {
            assert forall|i: int| 0 <= i < t1.len() && in_subtree(2 * v, i) implies t2[i]
                == t1[i] by {
                lemma_children_apart(v as int, i);
            }
            lemma_node_frame(t1, t2, a@, a@, 2 * v as int, tl as int, tm as int);
            lemma_sum_bound(a@, tl as int, tm + 1);
            lemma_sum_bound(a@, tm + 1, tr + 1);
        }
        let sum = self.tree[2 * v] + self.tree[2 * v + 1];
        self.tree.set(v, sum);
        proof {
            let t3 = self.tree@;
            lemma_children_apart(v as int, 0);
            lemma_node_frame(t2, t3, a@, a@, 2 * v as int, tl as int, tm as int);
            lemma_node_frame(t2, t3, a@, a@, 2 * v + 1 as int, tm + 1 as int, tr as int);
            lemma_sum_split(a@, tl as int, tm + 1, tr + 1);
            assert forall|i: int|
                0 <= i < t3.len() && !in_subtree(v as int, i) implies t3[i] == t0[i] by {
                if in_subtree(2 * v as int, i) {
                    lemma_child_in_subtree(v as int, 2 * v as int, i);
                }
                if in_subtree(2 * v + 1 as int, i) {
                    lemma_child_in_subtree(v as int, 2 * v + 1 as int, i);
                }
                if i == v {
                    assert(in_subtree(v as int, i));
                }
            }
        }
    }

    /// Sets position `pos` of node `v`'s interval `[tl, tr]` to `val` and recomputes
    /// the sums on the way back up. The ghost contents are left to the caller.
    fn update_node(&mut self, v: usize, tl: usize, tr: usize, pos: usize, val: i64)
        requires
            valid_node(old(self).tree@, old(self).vals@, v as int, tl as int, tr as int),
            old(self).vals@.len() <= usize::MAX / 8,
            old(self).tree@.len() == 4 * old(self).vals@.len(),
            tl <= pos <= tr,
        ensures
            final(self).len == old(self).len,
            final(self).vals == old(self).vals,
            final(self).tree@.len() == old(self).tree@.len(),
            valid_node(
                final(self).tree@,
                old(self).vals@.update(pos as int, val),
                v as int,
                tl as int,
                tr as int,
            ),
            forall|i: int|
                0 <= i < old(self).tree@.len() && !in_subtree(v as int, i) ==> final(self).tree@[i]
                    == old(self).tree@[i],
        decreases tr - tl,
    {
        let ghost s0 = self.vals@;
        let ghost s1 = s0.update(pos as int, val);
        let ghost t0 = self.tree@;
        if tl == tr {
            self.tree.set(v, val as i128);
            proof {
                assert(range_sum(s1, tl as int, tl + 1) == range_sum(s1, tl as int, tl as int)
                    + s1[tl as int]);
                assert forall|i: int|
                    0 <= i < t0.len() && !in_subtree(v as int, i) implies self.tree@[i]
                    == t0[i] by {
                    if i == v {
                        assert(in_subtree(v as int, i));
                    }
                }
            }
            return;
        }
        let tm = (tl + tr) / 2;
        if pos <= tm {
            self.update_node(2 * v, tl, tm, pos, val);
        } else {
            self.update_node(2 * v + 1, tm + 1, tr, pos, val);
        }
        let ghost t1 = self.tree@;
        proof {
            // The child that was not visited keeps its nodes and its part of the sequence.
            let (o, ol, or) = if pos <= tm {
                (2 * v + 1, tm + 1, tr as int)
            } else {
                (2 * v as int, tl as int, tm as int)
            };
            assert forall|i: int| 0 <= i < t0.len() && in_subtree(o, i) implies t1[i]
                == t0[i] by {
                lemma_children_apart(v as int, i);
            }
            lemma_node_frame(t0, t1, s0, s1, o, ol, or);
            lemma_sum_bound(s1, tl as int, tm + 1);
            lemma_sum_bound(s1, tm + 1, tr + 1);
        }
        let sum = self.tree[2 * v] + self.tree[2 * v + 1];
        self.tree.set(v, sum);
        proof {
            let t2 = self.tree@;
            lemma_children_apart(v as int, 0);
            lemma_node_frame(t1, t2, s1, s1, 2 * v as int, tl as int, tm as int);
            lemma_node_frame(t1, t2, s1, s1, 2 * v + 1 as int, tm + 1 as int, tr as int);
            lemma_sum_split(s1, tl as int, tm + 1, tr + 1);
            assert forall|i: int|
                0 <= i < t0.len() && !in_subtree(v as int, i) implies t2[i] == t0[i] by {
                if in_subtree(2 * v as int, i) {
                    lemma_child_in_subtree(v as int, 2 * v as int, i);
                }
                if in_subtree(2 * v + 1 as int, i) {
                    lemma_child_in_subtree(v as int, 2 * v + 1 as int, i);
                }
                if i == v {
                    assert(in_subtree(v as int, i));
                }
            }
        }
    }

    /// Sets position `pos` to `val`. Fails, changing nothing, when `pos` is not a
    /// position of the sequence.
    pub fn update(&mut self, pos: usize, val: i64) -> (res: Result<(), SegTreeError>)
        requires
            old(self).wf(),
        ensures
            final(self).wf(),
            pos < old(self)@.len() ==> res is Ok && final(self)@ == old(self)@.update(
                pos as int,
                val,
            ),
            pos >= old(self)@.len() ==> res == Err::<(), SegTreeError>(
                SegTreeError::IndexOutOfRange,
            ) && final(self)@ == old(self)@,
    {
        if pos >= self.len {
            return Err(SegTreeError::IndexOutOfRange);
        }
        self.update_node(1, 0, self.len - 1, pos, val);
        self.vals = Ghost(self.vals@.update(pos as int, val));
        Ok(())
    }

    /// Sum of the positions of `[l, r]` that lie in node `v`'s interval `[tl, tr]`.
    fn query_node(&self, v: usize, tl: usize, tr: usize, l: usize, r: usize) -> (res: i128)
        requires
            valid_node(self.tree@, self.vals@, v as int, tl as int, tr as int),
            self.vals@.len() <= usize::MAX / 8,
            self.tree@.len() == 4 * self.vals@.len(),
        ensures
            res as int == overlap_sum(self.vals@, l as int, r as int, tl as int, tr as int),
        decreases tr - tl,
    {
        let ghost s = self.vals@;
        if l > r || l > tr || r < tl {
            return 0;
        }
        if l <= tl && tr <= r {
            return self.tree[v];
        }
        let tm = (tl + tr) / 2;
        let r1 = if r < tm {
            r
        } else {
            tm
        };
        let l2 = if l > tm + 1 {
            l
        } else {
            tm + 1
        };
        let a = self.query_node(2 * v, tl, tm, l, r1);
        let b = self.query_node(2 * v + 1, tm + 1, tr, l2, r);
        proof {
            let lo: int = if l > tl { l as int } else { tl as int };
            let hi: int = if r < tr { r + 1 } else { tr + 1 };
            let mid: int = if tm + 1 < lo { lo } else if tm + 1 > hi { hi } else { tm + 1 };
            lemma_sum_split(s, lo, mid, hi);
            let lo1: int = if l > tl { l as int } else { tl as int };
            let hi1: int = if r1 < tm { r1 + 1 } else { tm + 1 };
            let lo2: int = if l2 > tm + 1 { l2 as int } else { tm + 1 };
            if lo1 < hi1 {
                lemma_sum_bound(s, lo1, hi1);
            }
            if lo2 < hi {
                lemma_sum_bound(s, lo2, hi);
            }
        }
        a + b
    }

    /// Sum of positions `l` through `r`, both included. An empty range (`l > r`) sums
    /// to zero; otherwise a bound past the end of the sequence is an error.
    pub fn query(&self, l: usize, r: usize) -> (res: Result<i128, SegTreeError>)
        requires
            self.wf(),
        ensures
            res is Ok <==> query_result(self@, l as int, r as int) is Ok,
            res is Ok ==> query_result(self@, l as int, r as int) == Ok::<int, SegTreeError>(
                res->Ok_0 as int,
            ),
            res is Err ==> query_result(self@, l as int, r as int) == Err::<int, SegTreeError>(
                res->Err_0,
            ),
    {
        if l > r {
            return Ok(0);
        }
        if r >= self.len {
            return Err(SegTreeError::IndexOutOfRange);
        }
        let x = self.query_node(1, 0, self.len - 1, l, r);
        Ok(x)
    }

    /// Length of the sequence.
    pub fn len(&self) -> (n: usize)
        requires
            self.wf(),
        ensures
            n == self@.len(),
    {
        self.len
    }
}

} // verus!
