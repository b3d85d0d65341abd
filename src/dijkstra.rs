use vstd::prelude::*;

verus! {

/// Largest magnitude of an edge weight, as an integer.
pub open spec fn weight_cap() -> int {
    0x8000_0000_0000_0000
}

/// Every edge of `g` leads to a vertex of `g` and has a non-negative weight.
pub open spec fn graph_ok(g: Seq<Vec<(usize, i64)>>) -> bool {
    forall|u: int, k: int|
        0 <= u < g.len() && 0 <= k < g[u]@.len() ==> (#[trigger] g[u]@[k]).0 < g.len() && g[u]@[k].1
            >= 0
}

/// `vs` is a walk in `g` that takes, from `vs[i]`, the outgoing edge number `ks[i]`.
pub open spec fn is_walk(g: Seq<Vec<(usize, i64)>>, vs: Seq<int>, ks: Seq<int>) -> bool {
    &&& vs.len() == ks.len() + 1
    &&& forall|i: int| 0 <= i < vs.len() ==> 0 <= #[trigger] vs[i] < g.len()
    &&& forall|i: int|
        0 <= i < ks.len() ==> 0 <= #[trigger] ks[i] < g[vs[i]]@.len() && g[vs[i]]@[ks[i]].0
            == vs[i + 1]
}

/// A walk of `g` from `src` to `dst`.
pub open spec fn walk_between(
    g: Seq<Vec<(usize, i64)>>,
    vs: Seq<int>,
    ks: Seq<int>,
    src: int,
    dst: int,
) -> bool {
    is_walk(g, vs, ks) && vs[0] == src && vs.last() == dst
}

/// Total weight of the edges of a walk.
pub open spec fn walk_weight(g: Seq<Vec<(usize, i64)>>, vs: Seq<int>, ks: Seq<int>) -> int
    decreases ks.len(),
{
    if ks.len() == 0 {
        0
    } else {
        walk_weight(g, vs.drop_last(), ks.drop_last()) + g[vs[ks.len() - 1]]@[ks.last()].1 as int
    }
}

/// Number of `false` entries.
spec fn count_false(s: Seq<bool>) -> nat
    decreases s.len(),
{
    if s.len() == 0 {
        0
    } else {
        count_false(s.drop_last()) + if s.last() {
            0nat
        } else {
            1nat
        }
    }
}

proof fn lemma_count_false_bound(s: Seq<bool>)
    ensures
        count_false(s) <= s.len(),
    decreases s.len(),
{
    if s.len() > 0 {
        lemma_count_false_bound(s.drop_last());
    }
}

proof fn lemma_count_false_set(s: Seq<bool>, i: int)
    requires
        0 <= i < s.len(),
        !s[i],
    ensures
        count_false(s.update(i, true)) + 1 == count_false(s),
    decreases s.len(),
{
    let t = s.update(i, true);
    if i < s.len() - 1 {
        assert(t.drop_last() =~= s.drop_last().update(i, true));
        lemma_count_false_set(s.drop_last(), i);
    } else {
        assert(t.drop_last() =~= s.drop_last());
    }
}

proof fn lemma_count_all_false(s: Seq<bool>)
    requires
        forall|i: int| 0 <= i < s.len() ==> !s[i],
    ensures
        count_false(s) == s.len(),
    decreases s.len(),
{
    if s.len() > 0 {
        lemma_count_all_false(s.drop_last());
    }
}

/// Every edge out of `u` leads to a vertex whose distance is at most `u`'s plus the
/// edge's weight.
spec fn relaxed(g: Seq<Vec<(usize, i64)>>, d: Seq<Option<i128>>, u: int) -> bool {
    forall|k: int|
        0 <= k < g[u]@.len() ==> d[(#[trigger] g[u]@[k]).0 as int] is Some && d[g[u]@[k].0 as int]->Some_0
            <= d[u]->Some_0 + g[u]@[k].1
}

proof fn lemma_walk_prefix(g: Seq<Vec<(usize, i64)>>, vs: Seq<int>, ks: Seq<int>)
    requires
        is_walk(g, vs, ks),
        ks.len() >= 1,
    ensures
        is_walk(g, vs.drop_last(), ks.drop_last()),
        vs.drop_last().last() == vs[ks.len() - 1],
{
    let vs1 = vs.drop_last();
    let ks1 = ks.drop_last();
    assert forall|i: int| 0 <= i < ks1.len() implies 0 <= #[trigger] ks1[i] < g[vs1[i]]@.len()
        && g[vs1[i]]@[ks1[i]].0 == vs1[i + 1] by {
        assert(ks1[i] == ks[i] && vs1[i] == vs[i] && vs1[i + 1] == vs[i + 1]);
    }
}

/// Where every vertex with a distance has its edges relaxed and the source has
/// distance zero, no walk from the source is lighter than the distance of its end.
proof fn lemma_walk_bound(
    g: Seq<Vec<(usize, i64)>>,
    d: Seq<Option<i128>>,
    src: int,
    vs: Seq<int>,
    ks: Seq<int>,
)
    requires
        d.len() == g.len(),
        d[src] == Some(0i128),
        forall|u: int| 0 <= u < g.len() && #[trigger] d[u] is Some ==> relaxed(g, d, u),
        is_walk(g, vs, ks),
        vs[0] == src,
    ensures
        d[vs.last()] is Some,
        d[vs.last()]->Some_0 <= walk_weight(g, vs, ks),
    decreases ks.len(),
{
    if ks.len() > 0 {
        let vs1 = vs.drop_last();
        let ks1 = ks.drop_last();
        lemma_walk_prefix(g, vs, ks);
        lemma_walk_bound(g, d, src, vs1, ks1);
        let u = vs1.last();
        let k = ks.last();
        assert(0 <= u < g.len());
        assert(relaxed(g, d, u));
        assert(g[u]@[k].0 == vs.last());
        assert(d[g[u]@[k].0 as int]->Some_0 <= d[u]->Some_0 + g[u]@[k].1);
    }
}

/// Weight of a lightest walk from `src` to `dst` in `adj`, where `adj[u]` lists the
/// edges out of `u` as `(target, weight)`; `None` when no walk leads there.
///
/// The next vertex to settle is the unsettled one of least distance, found by a scan.
pub fn shortest_distance(adj: &Vec<Vec<(usize, i64)>>, src: usize, dst: usize) -> (r: Option<i128>)
    requires
        src < adj@.len(),
        dst < adj@.len(),
        graph_ok(adj@),
    ensures
        r is None ==> forall|vs: Seq<int>, ks: Seq<int>|
            !#[trigger] walk_between(adj@, vs, ks, src as int, dst as int),
        r is Some ==> exists|vs: Seq<int>, ks: Seq<int>|
            #[trigger] walk_between(adj@, vs, ks, src as int, dst as int) && walk_weight(adj@, vs, ks)
                == r->Some_0,
        r is Some ==> forall|vs: Seq<int>, ks: Seq<int>|
            #[trigger] walk_between(adj@, vs, ks, src as int, dst as int) ==> r->Some_0
                <= walk_weight(adj@, vs, ks),
{
    let ghost g = adj@;
    let nv = adj.len();
    let mut dist: Vec<Option<i128>> = Vec::new();
    let mut done: Vec<bool> = Vec::new();
    let mut i: usize = 0;
    while i < nv
        invariant
            i <= nv,
            dist@.len() == i,
            done@.len() == i,
            forall|v: int| 0 <= v < i ==> dist@[v] == None::<i128> && done@[v] == false,
        decreases nv - i,
    {
        dist.push(None);
        done.push(false);
        i += 1;
    }
    let ghost d0 = dist@;
    dist.set(src, Some(0));
    let ghost mut wit: Seq<(Seq<int>, Seq<int>)> = Seq::new(
        nv as nat,
        |v: int| (seq![src as int], Seq::<int>::empty()),
    );
    proof {
        assert forall|v: int| 0 <= v < nv && #[trigger] dist@[v] is Some implies walk_between(
            g,
            wit[v].0,
            wit[v].1,
            src as int,
            v,
        ) && walk_weight(g, wit[v].0, wit[v].1) == dist@[v]->Some_0 by {
            if v != src {
                assert(dist@[v] == d0[v]);
            }
        }
        assert(count_false(done@) == nv) by {
            lemma_count_all_false(done@);
        }
    }
    let mut finished = false;
    while !finished
        invariant
            g == adj@,
            nv == g.len(),
            src < nv,
            graph_ok(g),
            dist@.len() == nv,
            done@.len() == nv,
            wit.len() == nv,
            dist@[src as int] == Some(0i128),
            forall|v: int|
                0 <= v < nv && #[trigger] dist@[v] is Some ==> walk_between(
                    g,
                    wit[v].0,
                    wit[v].1,
                    src as int,
                    v,
                ) && walk_weight(g, wit[v].0, wit[v].1) == dist@[v]->Some_0,
            forall|v: int|
                0 <= v < nv && #[trigger] dist@[v] is Some ==> 0 <= dist@[v]->Some_0 <= (nv
                    - count_false(done@)) * weight_cap(),
            count_false(done@) <= nv,
            forall|v: int| 0 <= v < nv && #[trigger] done@[v] ==> dist@[v] is Some,
            forall|u: int| 0 <= u < nv && #[trigger] done@[u] ==> relaxed(g, dist@, u),
            forall|x: int, y: int|
                0 <= x < nv && 0 <= y < nv && #[trigger] done@[x] && !#[trigger] done@[y]
                    && dist@[y] is Some ==> dist@[x]->Some_0 <= dist@[y]->Some_0,
            finished ==> forall|v: int| 0 <= v < nv && #[trigger] dist@[v] is Some ==> done@[v],
        decreases count_false(done@) + if finished {
            0int
        } else {
            1int
        },
    {
        let mut best: Option<usize> = None;
        let mut j: usize = 0;
        while j < nv
            invariant
                nv == dist@.len(),
                nv == done@.len(),
                j <= nv,
                best is Some ==> best->Some_0 < j && !done@[best->Some_0 as int]
                    && dist@[best->Some_0 as int] is Some,
                best is Some ==> forall|y: int|
                    0 <= y < j && !done@[y] && #[trigger] dist@[y] is Some ==> dist@[best->Some_0 as int]->Some_0
                        <= dist@[y]->Some_0,
                best is None ==> forall|y: int|
                    0 <= y < j && #[trigger] dist@[y] is Some ==> done@[y],
            decreases nv - j,
        {
            if !done[j] {
                if let Some(dj) = dist[j] {
                    match best {
                        None => {
                            best = Some(j);
                        },
                        Some(b) => {
                            if let Some(db) = dist[b] {
                                if dj < db {
                                    best = Some(j);
                                }
                            }
                        },
                    }
                }
            }
            j += 1;
        }
        match best {
            None => {
                finished = true;
            },
            Some(u) => {
                let du: i128 = dist[u].unwrap();
                let ghost c0 = count_false(done@);
                proof {
                    lemma_count_false_set(done@, u as int);
                }
                done.set(u, true);
                let edges = &adj[u];
                let mut k: usize = 0;
                while k < edges.len()
                    invariant
                        g == adj@,
                        nv == g.len(),
                        src < nv,
                        u < nv,
                        graph_ok(g),
                        edges@ == g[u as int]@,
                        dist@.len() == nv,
                        done@.len() == nv,
                        wit.len() == nv,
                        done@[u as int],
                        dist@[u as int] == Some(du),
                        0 <= du <= (nv - c0) * weight_cap(),
                        count_false(done@) + 1 == c0,
                        c0 <= nv,
                        dist@[src as int] == Some(0i128),
                        forall|v: int|
                            0 <= v < nv && #[trigger] dist@[v] is Some ==> walk_between(
                                g,
                                wit[v].0,
                                wit[v].1,
                                src as int,
                                v,
                            ) && walk_weight(g, wit[v].0, wit[v].1) == dist@[v]->Some_0,
                        forall|v: int|
                            0 <= v < nv && #[trigger] dist@[v] is Some ==> 0 <= dist@[v]->Some_0
                                <= (nv - count_false(done@)) * weight_cap(),
                        forall|v: int| 0 <= v < nv && #[trigger] done@[v] ==> dist@[v] is Some,
                        forall|x: int|
                            0 <= x < nv && #[trigger] done@[x] ==> dist@[x]->Some_0 <= du,
                        forall|x: int|
                            0 <= x < nv && x != u && #[trigger] done@[x] ==> relaxed(g, dist@, x),
                        forall|kk: int|
                            0 <= kk < k ==> dist@[(#[trigger] g[u as int]@[kk]).0 as int] is Some
                                && dist@[g[u as int]@[kk].0 as int]->Some_0 <= du + g[u as int]@[kk].1,
                        forall|x: int, y: int|
                            0 <= x < nv && 0 <= y < nv && #[trigger] done@[x] && !#[trigger] done@[y]
                                && dist@[y] is Some ==> dist@[x]->Some_0 <= dist@[y]->Some_0,
                        k <= edges@.len(),
                    decreases edges@.len() - k,
                {
                    let (v, w) = edges[k];
                    let nd: i128 = du + w as i128;
                    let better = match dist[v] {
                        None => true,
                        Some(dv) => nd < dv,
                    };
                    if better {
                        let ghost wu = wit[u as int];
                        let ghost dd = dist@;
                        assert(!done@[v as int]);
                        dist.set(v, Some(nd));
                        proof {
                            let vs = wu.0.push(v as int);
                            let ks = wu.1.push(k as int);
                            assert(vs.drop_last() =~= wu.0);
                            assert(ks.drop_last() =~= wu.1);
                            assert forall|ii: int| 0 <= ii < ks.len() implies 0 <= #[trigger] ks[ii]
                                < g[vs[ii]]@.len() && g[vs[ii]]@[ks[ii]].0 == vs[ii + 1] by {
                                if ii < ks.len() - 1 {
                                    assert(ks[ii] == wu.1[ii] && vs[ii] == wu.0[ii] && vs[ii + 1]
                                        == wu.0[ii + 1]);
                                }
                            }
                            assert(walk_between(g, vs, ks, src as int, v as int));
                            wit = wit.update(v as int, (vs, ks));
                            assert forall|x: int|
                                0 <= x < nv && x != u && #[trigger] done@[x] implies relaxed(
                                g,
                                dist@,
                                x,
                            ) by {
                                assert(relaxed(g, dd, x));
                                assert(dist@[x] == dd[x]);
                                assert forall|kk: int| 0 <= kk < g[x]@.len() implies dist@[(
                                #[trigger] g[x]@[kk]).0 as int] is Some && dist@[g[x]@[kk].0 as int]->Some_0
                                    <= dist@[x]->Some_0 + g[x]@[kk].1 by {
                                    assert(dd[g[x]@[kk].0 as int] is Some);
                                }
                            }
                        }
                    }
                    k += 1;
                }
                proof {
                    assert(relaxed(g, dist@, u as int));
                }
            },
        }
    }
    proof {
        assert forall|uu: int| 0 <= uu < g.len() && #[trigger] dist@[uu] is Some implies relaxed(
            g,
            dist@,
            uu,
        ) by {}
    }
    match dist[dst] {
        None => {
            proof {
                assert forall|vs: Seq<int>, ks: Seq<int>|
                    !#[trigger] walk_between(adj@, vs, ks, src as int, dst as int) by {
                    if walk_between(adj@, vs, ks, src as int, dst as int) {
                        lemma_walk_bound(g, dist@, src as int, vs, ks);
                    }
                }
            }
            None
        },
        Some(d) => {
            proof {
                assert(walk_between(adj@, wit[dst as int].0, wit[dst as int].1, src as int, dst as int));
                assert forall|vs: Seq<int>, ks: Seq<int>|
                    #[trigger] walk_between(adj@, vs, ks, src as int, dst as int) implies d
                    <= walk_weight(adj@, vs, ks) by {
                    lemma_walk_bound(g, dist@, src as int, vs, ks);
                }
            }
            Some(d)
        },
    }
}

} // verus!
