use vstd::prelude::*;

verus! {

/// `s` never decreases.
pub open spec fn non_decreasing(s: Seq<i64>) -> bool {
    forall|i: int, j: int| 0 <= i <= j < s.len() ==> s[i] <= s[j]
}

/// First position of the sorted `arr` whose element is at least `target`
/// (`arr.len()` when there is none).
pub fn lower_bound(arr: &[i64], target: i64) -> (pos: usize)
    requires
        non_decreasing(arr@),
    ensures
        pos <= arr@.len(),
        forall|i: int| 0 <= i < pos ==> arr@[i] < target,
        forall|i: int| pos <= i < arr@.len() ==> arr@[i] >= target,
{
    let mut lo: usize = 0;
    let mut hi: usize = arr.len();
    while lo < hi
        invariant
            lo <= hi <= arr@.len(),
            non_decreasing(arr@),
            forall|i: int| 0 <= i < lo ==> arr@[i] < target,
            forall|i: int| hi <= i < arr@.len() ==> arr@[i] >= target,
        decreases hi - lo,
    {
        let mid = lo + (hi - lo) / 2;
        if arr[mid] < target {
            lo = mid + 1;
        } else {
            hi = mid;
        }
    }
    lo
}

/// `s` strictly increases.
pub open spec fn strictly_increasing(s: Seq<i64>) -> bool {
    forall|i: int, j: int| 0 <= i < j < s.len() ==> s[i] < s[j]
}

/// `idx` lists positions of `s`, all below `bound`, in increasing order, at which the
/// values of `s` strictly increase.
pub open spec fn rising_within(s: Seq<i64>, idx: Seq<int>, bound: int) -> bool {
    &&& forall|k: int|
        #![trigger idx[k]]
        0 <= k < idx.len() ==> 0 <= idx[k] && idx[k] < bound && idx[k] < s.len()
    &&& forall|i: int, j: int|
        0 <= i < j < idx.len() ==> idx[i] < idx[j] && s[#[trigger] idx[i]] < s[#[trigger] idx[j]]
}

/// `idx` picks a strictly increasing subsequence of `s`.
pub open spec fn increasing_subsequence(s: Seq<i64>, idx: Seq<int>) -> bool {
    rising_within(s, idx, s.len() as int)
}

/// Under a bound of zero no position fits, so a non-empty `idx` cannot rise within it.
proof fn lemma_no_rise_under_zero_bound(s: Seq<i64>, idx: Seq<int>)
    requires
        rising_within(s, idx, 0),
        idx.len() >= 1,
    ensures
        idx[0] < 0,
{
}

/// Length of a longest strictly increasing subsequence of `nums`.
pub fn lis_length(nums: &[i64]) -> (r: usize)
    ensures
        exists|idx: Seq<int>| #[trigger] increasing_subsequence(nums@, idx) && idx.len() == r,
        forall|idx: Seq<int>| #[trigger] increasing_subsequence(nums@, idx) ==> idx.len() <= r,
{
    let ghost s = nums@;
    // `tails[k]` is the least value that ends a rising subsequence of length `k + 1`
    // among the positions seen so far, and `wit[k]` is one such subsequence.
    let mut tails: Vec<i64> = Vec::new();
    let ghost mut wit: Seq<Seq<int>> = Seq::empty();
    let mut p: usize = 0;
    assert forall|idx: Seq<int>| #[trigger]
        rising_within(s, idx, 0) && idx.len() >= 1 implies idx.len() <= 0 by {
        lemma_no_rise_under_zero_bound(s, idx);
    }
    while p < nums.len()
        invariant
            s == nums@,
            p <= s.len(),
            wit.len() == tails@.len(),
            strictly_increasing(tails@),
            forall|k: int|
                0 <= k < wit.len() ==> rising_within(s, #[trigger] wit[k], p as int) && wit[k].len()
                    == k + 1 && s[wit[k].last()] == tails@[k],
            forall|idx: Seq<int>|
                #[trigger] rising_within(s, idx, p as int) && idx.len() >= 1 ==> idx.len()
                    <= tails@.len() && s[idx.last()] >= tails@[idx.len() - 1],
        decreases s.len() - p,
    {
        let x = nums[p];
        let pos = lower_bound(tails.as_slice(), x);
        let ghost t0 = tails@;
        let ghost w0 = wit;
        let ghost pi = p as int;
        let ghost nw: Seq<int> = if pos == 0 {
            seq![pi]
        } else {
            w0[pos - 1].push(pi)
        };
        if pos == tails.len() {
            tails.push(x);
            proof {
                wit = wit.push(nw);
            }
        } else {
            tails.set(pos, x);
            proof {
                wit = wit.update(pos as int, nw);
            }
        }
        proof {
            let t1 = tails@;
            assert forall|i: int, j: int| 0 <= i < j < t1.len() implies t1[i] < t1[j] by {
                if i == pos {
                    assert(t0[pos as int] >= x);
                } else if j == pos {
                    assert(t0[i] < x);
                } else {
                    assert(t1[i] == t0[i] && t1[j] == t0[j]);
                }
            }
            assert(rising_within(s, nw, pi + 1) && nw.len() == pos + 1 && s[nw.last()] == x) by {
                if pos > 0 {
                    let w = w0[pos - 1];
                    assert(rising_within(s, w, pi));
                    assert forall|i: int, j: int| 0 <= i < j < nw.len() implies nw[i] < nw[j]
                        && s[#[trigger] nw[i]] < s[#[trigger] nw[j]] by {
                        if j == nw.len() - 1 {
                            if i < w.len() - 1 {
                                assert(s[w[i]] < s[w[w.len() - 1]]);
                            }
                        } else {
                            assert(nw[i] == w[i] && nw[j] == w[j]);
                        }
                    }
                }
            }
            assert forall|k: int| 0 <= k < wit.len() implies rising_within(
                s,
                #[trigger] wit[k],
                pi + 1,
            ) && wit[k].len() == k + 1 && s[wit[k].last()] == t1[k] by {
                if k != pos {
                    assert(rising_within(s, w0[k], pi));
                }
            }
            assert forall|idx: Seq<int>| #[trigger]
                rising_within(s, idx, pi + 1) && idx.len() >= 1 implies idx.len() <= t1.len()
                && s[idx.last()] >= t1[idx.len() - 1] by {
                let m = idx.len();
                if idx.last() < pi {
                    assert forall|k: int| 0 <= k < idx.len() implies 0 <= #[trigger] idx[k] < pi
                        && idx[k] < s.len() by {
                        if k < m - 1 {
                            assert(idx[k] < idx[m - 1]);
                        }
                    }
                    assert(rising_within(s, idx, pi));
                } else {
                    let d = idx.drop_last();
                    if d.len() >= 1 {
                        assert forall|k: int| 0 <= k < d.len() implies 0 <= #[trigger] d[k] < pi
                            && d[k] < s.len() by {
                            assert(idx[k] < idx[m - 1]);
                        }
                        assert forall|i: int, j: int| 0 <= i < j < d.len() implies d[i] < d[j]
                            && s[#[trigger] d[i]] < s[#[trigger] d[j]] by {
                            assert(d[i] == idx[i] && d[j] == idx[j]);
                        }
                        assert(rising_within(s, d, pi));
                        assert(s[d.last()] < x) by {
                            assert(s[idx[m - 2]] < s[idx[m - 1]]);
                        }
                    }
                }
            }
        }
        p += 1;
    }
    proof {
        let n = tails@.len();
        if n == 0 {
            assert(increasing_subsequence(s, Seq::<int>::empty()));
        } else {
            assert(increasing_subsequence(s, wit[n - 1]));
        }
        assert forall|idx: Seq<int>| #[trigger] increasing_subsequence(s, idx) implies idx.len()
            <= n by {
            if idx.len() >= 1 {
                assert(rising_within(s, idx, p as int));
            }
        }
    }
    tails.len()
}

} // verus!
