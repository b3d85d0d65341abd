use vstd::prelude::*;

verus! {

/// The first `k` bytes of `p` equal the last `k` of its first `len`, and `k < len`:
/// `k` is the length of a proper border of `p[..len]`.
pub open spec fn is_border(p: Seq<u8>, len: int, k: int) -> bool {
    &&& 0 <= k < len <= p.len()
    &&& forall|t: int| 0 <= t < k ==> #[trigger] p[t] == p[len - k + t]
}

/// `k` is the length of the longest proper border of `p[..len]`.
pub open spec fn longest_border(p: Seq<u8>, len: int, k: int) -> bool {
    &&& is_border(p, len, k)
    &&& forall|b: int| k < b < len ==> !#[trigger] is_border(p, len, b)
}

/// A border of `p[..len]` shorter than another one is a border of the longer one.
proof fn lemma_border_of_border(p: Seq<u8>, len: int, a: int, b: int)
    requires
        is_border(p, len, a),
        is_border(p, len, b),
        b < a,
    ensures
        is_border(p, a, b),
{
    assert forall|t: int| 0 <= t < b implies #[trigger] p[t] == p[a - b + t] by {
        assert(p[t] == p[len - b + t]);
        assert(p[a - b + t] == p[len - a + (a - b + t)]);
    }
}

/// A border of a border of `p[..len]` is a border of `p[..len]`.
proof fn lemma_border_trans(p: Seq<u8>, len: int, a: int, b: int)
    requires
        is_border(p, len, a),
        is_border(p, a, b),
    ensures
        is_border(p, len, b),
{
    assert forall|t: int| 0 <= t < b implies #[trigger] p[t] == p[len - b + t] by {
        assert(p[t] == p[a - b + t]);
        assert(p[a - b + t] == p[len - a + (a - b + t)]);
    }
}

/// A border of `p[..len + 1]` of length `k + 1` is a border of `p[..len]` of length
/// `k` followed by equal bytes, and back.
proof fn lemma_border_extend(p: Seq<u8>, len: int, k: int)
    requires
        0 <= k < len < p.len(),
    ensures
        is_border(p, len + 1, k + 1) <==> (is_border(p, len, k) && p[k] == p[len]),
{
    if is_border(p, len + 1, k + 1) {
        assert(p[k] == p[len + 1 - (k + 1) + k]);
        assert forall|t: int| 0 <= t < k implies #[trigger] p[t] == p[len - k + t] by {
            assert(p[t] == p[len + 1 - (k + 1) + t]);
        }
    }
    if is_border(p, len, k) && p[k] == p[len] {
        assert forall|t: int| 0 <= t < k + 1 implies #[trigger] p[t] == p[len + 1 - (k + 1) + t] by {
            if t < k {
                assert(p[t] == p[len - k + t]);
            }
        }
    }
}

/// For each position `i` of `pattern`, the length of the longest proper border of
/// `pattern[..=i]`.
pub fn compute_lps(pattern: &[u8]) -> (lps: Vec<usize>)
    ensures
        lps@.len() == pattern@.len(),
        forall|i: int| 0 <= i < lps@.len() ==> longest_border(pattern@, i + 1, #[trigger] lps@[i] as int),
{
    let ghost p = pattern@;
    let m = pattern.len();
    let mut lps: Vec<usize> = vec![0usize; m];
    let mut length: usize = 0;
    let mut i: usize = 1;
    if m > 0 {
        assert(longest_border(p, 1, lps@[0] as int));
    }
    while i < m
        invariant
            p == pattern@,
            m == p.len(),
            lps@.len() == m,
            1 <= i,
            i <= m || m == 0,
            length < i,
            m > 0 ==> is_border(p, i as int, length as int),
            forall|j: int| 0 <= j < i && j < m ==> longest_border(p, j + 1, #[trigger] lps@[j] as int),
            forall|b: int|
                length < b < i && #[trigger] is_border(p, i as int, b) ==> p[b] != p[i as int],
        decreases 2 * (m - i) + length,
    {
        if pattern[i] == pattern[length] {
            proof {
                lemma_border_extend(p, i as int, length as int);
                assert forall|b: int| length + 1 < b < i + 1 implies !#[trigger] is_border(
                    p,
                    i + 1,
                    b,
                ) by {
                    lemma_border_extend(p, i as int, b - 1);
                }
            }
            length += 1;
            lps.set(i, length);
            i += 1;
        } else if length != 0 {
            let ghost old_len = length as int;
            length = lps[length - 1];
            proof {
                assert(longest_border(p, old_len, length as int));
                lemma_border_trans(p, i as int, old_len, length as int);
                assert forall|b: int|
                    length < b < i && #[trigger] is_border(p, i as int, b) implies p[b] != p[i as int] by {
                    if b < old_len {
                        lemma_border_of_border(p, i as int, old_len, b);
                    }
                }
            }
        } else {
            proof {
                assert forall|b: int| 0 < b < i + 1 implies !#[trigger] is_border(p, i + 1, b) by {
                    lemma_border_extend(p, i as int, b - 1);
                }
            }
            lps.set(i, 0);
            i += 1;
        }
    }
    lps
}

/// `pattern` occurs in `text` starting at position `s`.
pub open spec fn occurs_at(text: Seq<u8>, pattern: Seq<u8>, s: int) -> bool {
    &&& 0 <= s
    &&& s + pattern.len() <= text.len()
    &&& forall|t: int| 0 <= t < pattern.len() ==> #[trigger] text[s + t] == pattern[t]
}

/// `text[s..i]` equals the first `i - s` bytes of `pattern`.
spec fn partial_at(text: Seq<u8>, pattern: Seq<u8>, s: int, i: int) -> bool {
    &&& 0 <= s <= i <= text.len()
    &&& i - s <= pattern.len()
    &&& forall|t: int| 0 <= t < i - s ==> #[trigger] text[s + t] == pattern[t]
}

/// The partial match of `pattern` starting at `s` does not reach past position `i`.
spec fn dead(text: Seq<u8>, pattern: Seq<u8>, s: int, i: int) -> bool {
    !partial_at(text, pattern, s, i) || (i < text.len() && i - s < pattern.len() && text[i]
        != pattern[i - s])
}

proof fn lemma_occurs_partial(text: Seq<u8>, pattern: Seq<u8>, s: int)
    ensures
        occurs_at(text, pattern, s) <==> partial_at(text, pattern, s, s + pattern.len()),
{
}

/// A partial match that reaches position `i + 1` reached `i`, and matched there.
proof fn lemma_dead_step(text: Seq<u8>, pattern: Seq<u8>, s: int, i: int)
    requires
        dead(text, pattern, s, i),
        0 <= s <= i < text.len(),
        s + pattern.len() > i,
    ensures
        !partial_at(text, pattern, s, i + 1),
{
    if partial_at(text, pattern, s, i + 1) {
        assert(text[s + (i - s)] == pattern[i - s]);
        assert(partial_at(text, pattern, s, i));
    }
}

/// Two partial matches ending at `i`, of lengths `j` and `i - s`, make the shorter
/// a border of `pattern[..j]`.
proof fn lemma_partial_border(text: Seq<u8>, pattern: Seq<u8>, i: int, j: int, s: int)
    requires
        partial_at(text, pattern, i - j, i),
        partial_at(text, pattern, s, i),
        i - j < s <= i,
    ensures
        is_border(pattern, j, i - s),
{
    let k = i - s;
    assert forall|t: int| 0 <= t < k implies #[trigger] pattern[t] == pattern[j - k + t] by {
        assert(text[s + t] == pattern[t]);
        assert(text[(i - j) + (j - k + t)] == pattern[j - k + t]);
    }
}

/// A border of the matched part of `pattern` is matched too.
proof fn lemma_border_partial(text: Seq<u8>, pattern: Seq<u8>, i: int, j: int, k: int)
    requires
        partial_at(text, pattern, i - j, i),
        is_border(pattern, j, k),
    ensures
        partial_at(text, pattern, i - k, i),
{
    assert forall|t: int| 0 <= t < k implies #[trigger] text[(i - k) + t] == pattern[t] by {
        assert(text[(i - j) + (j - k + t)] == pattern[j - k + t]);
        assert(pattern[t] == pattern[j - k + t]);
    }
}

/// Every position at which `pattern` occurs in `text`, in increasing order.
pub fn kmp_search(text: &[u8], pattern: &[u8]) -> (res: Vec<usize>)
    requires
        pattern@.len() > 0,
    ensures
        forall|k: int| 0 <= k < res@.len() ==> occurs_at(text@, pattern@, #[trigger] res@[k] as int),
        forall|a: int, b: int| 0 <= a < b < res@.len() ==> res@[a] < res@[b],
        forall|s: int|
            #[trigger] occurs_at(text@, pattern@, s) ==> exists|k: int|
                0 <= k < res@.len() && res@[k] == s,
{
    let ghost tx = text@;
    let ghost p = pattern@;
    let n = text.len();
    let m = pattern.len();
    let lps = compute_lps(pattern);
    let mut results: Vec<usize> = Vec::new();
    let mut i: usize = 0;
    let mut j: usize = 0;
    while i < n
        invariant
            tx == text@,
            p == pattern@,
            n == tx.len(),
            m == p.len(),
            m > 0,
            lps@.len() == m,
            forall|q: int| 0 <= q < m ==> longest_border(p, q + 1, #[trigger] lps@[q] as int),
            j < m,
            j <= i <= n,
            partial_at(tx, p, i - j, i as int),
            forall|s: int| s < i - j && s + m > i ==> #[trigger] dead(tx, p, s, i as int),
            forall|k: int|
                0 <= k < results@.len() ==> occurs_at(tx, p, #[trigger] results@[k] as int)
                    && results@[k] + m <= i,
            forall|a: int, b: int| 0 <= a < b < results@.len() ==> results@[a] < results@[b],
            forall|s: int|
                #[trigger] occurs_at(tx, p, s) && s + m <= i ==> exists|k: int|
                    0 <= k < results@.len() && results@[k] == s,
        decreases 2 * (n - i) + j,
    {
        let ghost i0 = i as int;
        let ghost j0 = j as int;
        let ghost r0 = results@;
        if text[i] == pattern[j] {
            i += 1;
            j += 1;
            proof {
                assert(tx[(i0 - j0) + j0] == p[j0]);
                assert(partial_at(tx, p, i - j, i as int));
                assert forall|s: int| s < i - j && s + m >= i implies !#[trigger] partial_at(
                    tx,
                    p,
                    s,
                    i as int,
                ) by {
                    if s >= 0 {
                        lemma_dead_step(tx, p, s, i0);
                    }
                }
            }
        }
        // Here, when a byte was matched, no partial match that started before
        // `i - j` reaches `i`.
        if j == m {
            results.push(i - j);
            proof {
                lemma_occurs_partial(tx, p, i - m);
            }
            let ghost jm = j as int;
            j = lps[j - 1];
            proof {
                let jn = j as int;
                assert(longest_border(p, m as int, jn));
                lemma_border_partial(tx, p, i as int, m as int, jn);
                assert forall|s: int| s < i - jn && s + m > i implies #[trigger] dead(
                    tx,
                    p,
                    s,
                    i as int,
                ) by {
                    if partial_at(tx, p, s, i as int) {
                        lemma_partial_border(tx, p, i as int, m as int, s);
                    }
                }
                assert forall|s: int| #[trigger] occurs_at(tx, p, s) && s + m <= i implies exists|
                    k: int,
                | 0 <= k < results@.len() && results@[k] == s by {
                    if s + m <= i0 {
                        let k = choose|k: int| 0 <= k < r0.len() && r0[k] == s;
                        assert(results@[k] == s);
                    } else {
                        assert(results@[r0.len() as int] == s);
                    }
                }
            }
        } else if i < n && text[i] != pattern[j] {
            if j != 0 {
                let ghost jc = j as int;
                j = lps[j - 1];
                proof {
                    let jn = j as int;
                    assert(longest_border(p, jc, jn));
                    lemma_border_partial(tx, p, i as int, jc, jn);
                    assert forall|s: int| s < i - jn && s + m > i implies #[trigger] dead(
                        tx,
                        p,
                        s,
                        i as int,
                    ) by {
                        if s > i - jc && partial_at(tx, p, s, i as int) {
                            lemma_partial_border(tx, p, i as int, jc, s);
                        }
                    }
                    assert forall|s: int| #[trigger]
                        occurs_at(tx, p, s) && s + m <= i implies exists|k: int|
                        0 <= k < results@.len() && results@[k] == s by {
                        if s + m > i0 {
                            lemma_occurs_partial(tx, p, s);
                        }
                    }
                }
            } else {
                i += 1;
                proof {
                    assert forall|s: int| s < i && s + m >= i implies !#[trigger] partial_at(
                        tx,
                        p,
                        s,
                        i as int,
                    ) by {
                        if 0 <= s < i0 {
                            lemma_dead_step(tx, p, s, i0);
                        } else if s == i0 && partial_at(tx, p, s, i as int) {
                            assert(tx[s + 0] == p[0]);
                        }
                    }
                    assert forall|s: int| s < i - j && s + m > i implies #[trigger] dead(
                        tx,
                        p,
                        s,
                        i as int,
                    ) by {}
                    assert forall|s: int| #[trigger]
                        occurs_at(tx, p, s) && s + m <= i implies exists|k: int|
                        0 <= k < results@.len() && results@[k] == s by {
                        if s + m > i0 {
                            lemma_occurs_partial(tx, p, s);
                        }
                    }
                }
            }
        } else {
            proof {
                assert forall|s: int| s < i - j && s + m > i implies #[trigger] dead(
                    tx,
                    p,
                    s,
                    i as int,
                ) by {}
                assert forall|s: int| #[trigger]
                    occurs_at(tx, p, s) && s + m <= i implies exists|k: int|
                    0 <= k < results@.len() && results@[k] == s by {
                    if s + m > i0 {
                        lemma_occurs_partial(tx, p, s);
                    }
                }
            }
        }
    }
    proof {
        assert forall|s: int| #[trigger] occurs_at(tx, p, s) implies exists|k: int|
            0 <= k < results@.len() && results@[k] == s by {
            assert(s + m <= i);
        }
    }
    results
}

} // verus!
