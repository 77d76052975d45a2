//! Two-vertex bottlenecks of a conflict graph given by adjacency lists: node `t` is the
//! conflict, every other node a literal; `present` says which slots hold a node.

use vstd::prelude::*;

verus! {

/// `p` is a walk of `ok` nodes along the edges of `adj` (an edge to a slot outside the graph
/// leads nowhere).
pub open spec fn is_walk(adj: Seq<Vec<usize>>, ok: Seq<bool>, p: Seq<usize>) -> bool {
    &&& p.len() > 0
    &&& forall|i: int| 0 <= i < p.len() ==> (#[trigger] p[i]) < ok.len() && ok[p[i] as int]
    &&& forall|i: int| 0 <= i < p.len() - 1 ==> #[trigger] walk_edge(adj, p, i)
}

/// The `i`-th step of `p` follows an edge of `adj`.
pub open spec fn walk_edge(adj: Seq<Vec<usize>>, p: Seq<usize>, i: int) -> bool {
    p[i] < adj.len() && adj[p[i] as int]@.contains(p[i + 1])
}

/// Some walk of `ok` nodes leads from `s` to `t`.
pub open spec fn reaches(adj: Seq<Vec<usize>>, ok: Seq<bool>, s: int, t: int) -> bool {
    exists|p: Seq<usize>| #[trigger] is_walk(adj, ok, p) && p[0] == s && p.last() == t
}

/// `u` is a literal node that reaches the conflict `t` and has no predecessor that does.
pub open spec fn is_source(adj: Seq<Vec<usize>>, present: Seq<bool>, t: int, u: int) -> bool {
    &&& 0 <= u < present.len() && u != t && present[u]
    &&& reaches(adj, present, u, t)
    &&& !exists|p: int| 0 <= p < present.len() && present[p] && reaches(adj, present, p, t)
        && #[trigger] adj[p]@.contains(u as usize)
}

/// `s` is the one and only source.
pub open spec fn unique_source(adj: Seq<Vec<usize>>, present: Seq<bool>, t: int, s: int) -> bool {
    is_source(adj, present, t, s) && forall|u: int| #[trigger] is_source(adj, present, t, u) ==> u == s
}

/// The nodes on some walk from `s` to `t`.
pub open spec fn relevant_nodes(adj: Seq<Vec<usize>>, present: Seq<bool>, s: int, t: int) -> Seq<bool> {
    Seq::new(present.len(), |u: int| present[u] && reaches(adj, present, s, u) && reaches(adj, present, u, t))
}

/// `ok` without the nodes `a` and `b`.
pub open spec fn without_pair(ok: Seq<bool>, a: int, b: int) -> Seq<bool> {
    Seq::new(ok.len(), |v: int| ok[v] && v != a && v != b)
}

/// `u` and `w` are relevant literal nodes other than `s`, and every walk of relevant nodes from
/// `s` to `t` meets one of them.
pub open spec fn is_bottleneck(adj: Seq<Vec<usize>>, present: Seq<bool>, s: int, t: int, u: int, w: int) -> bool {
    let rel = relevant_nodes(adj, present, s, t);
    &&& 0 <= u < present.len() && 0 <= w < present.len()
    &&& rel[u] && rel[w] && u != s && u != t && w != s && w != t
    &&& !reaches(adj, without_pair(rel, u, w), s, t)
}

/// `x` comes before `y` in lexicographic order.
pub open spec fn pair_before(x: (usize, usize), y: (usize, usize)) -> bool {
    x.0 < y.0 || (x.0 == y.0 && x.1 < y.1)
}

/// How many entries of `s` are `false`.
pub open spec fn unseen_count(s: Seq<bool>) -> nat
    decreases s.len(),
{
    if s.len() == 0 {
        0
    } else {
        unseen_count(s.drop_last()) + if s.last() { 0nat } else { 1nat }
    }
}

proof fn lemma_unseen_mark(s: Seq<bool>, k: int)
    requires
        0 <= k < s.len(),
        !s[k],
    ensures
        unseen_count(s.update(k, true)) + 1 == unseen_count(s),
    decreases s.len(),
{
    let u = s.update(k, true);
    if k == s.len() - 1 {
        assert(u.drop_last() =~= s.drop_last());
    } else {
        assert(u.drop_last() =~= s.drop_last().update(k, true));
        lemma_unseen_mark(s.drop_last(), k);
    }
}

proof fn lemma_reaches_start(adj: Seq<Vec<usize>>, ok: Seq<bool>, s: usize)
    requires
        (s as int) < ok.len(),
        ok[s as int],
    ensures
        reaches(adj, ok, s as int, s as int),
{
    let p = seq![s];
    assert(is_walk(adj, ok, p));
}

proof fn lemma_reaches_step(adj: Seq<Vec<usize>>, ok: Seq<bool>, s: int, u: int, v: usize)
    requires
        reaches(adj, ok, s, u),
        0 <= u < adj.len(),
        adj[u]@.contains(v),
        (v as int) < ok.len(),
        ok[v as int],
    ensures
        reaches(adj, ok, s, v as int),
{
    let p = choose|p: Seq<usize>| #[trigger] is_walk(adj, ok, p) && p[0] == s && p.last() == u;
    assert(is_walk(adj, ok, p));
    let q = p.push(v);
    assert forall|i: int| 0 <= i < q.len() implies (#[trigger] q[i]) < ok.len() && ok[q[i] as int] by {
        if i < p.len() {
            assert(q[i] == p[i]);
        }
    }
    assert forall|i: int| 0 <= i < q.len() - 1 implies #[trigger] walk_edge(adj, q, i) by {
        if i < p.len() - 1 {
            assert(q[i] == p[i] && q[i + 1] == p[i + 1]);
            assert(walk_edge(adj, p, i));
        } else {
            assert(q[i] == p[p.len() - 1]);
            assert(q[i] as int == u);
            assert(q[i + 1] == v);
        }
    }
    assert(q[0] == p[0]);
    assert(is_walk(adj, ok, q) && q[0] == s && q.last() == v);
}

/// A set of nodes that holds `p[0]` and is closed under the edges between `ok` nodes holds the
/// end of the walk `p`.
proof fn lemma_closed_holds_walk(adj: Seq<Vec<usize>>, ok: Seq<bool>, seen: Seq<bool>, p: Seq<usize>)
    requires
        seen.len() == ok.len(),
        ok.len() == adj.len(),
        is_walk(adj, ok, p),
        seen[p[0] as int],
        forall|u: int, v: usize| 0 <= u < seen.len() && seen[u] && #[trigger] adj[u]@.contains(v)
            && (v as int) < ok.len() && ok[v as int] ==> seen[v as int],
    ensures
        seen[p.last() as int],
    decreases p.len(),
{
    if p.len() > 1 {
        let q = p.drop_last();
        assert forall|i: int| 0 <= i < q.len() implies (#[trigger] q[i]) < ok.len() && ok[q[i] as int] by {
            assert(q[i] == p[i]);
        }
        assert forall|i: int| 0 <= i < q.len() - 1 implies #[trigger] walk_edge(adj, q, i) by {
            assert(q[i] == p[i] && q[i + 1] == p[i + 1]);
            assert(walk_edge(adj, p, i));
        }
        lemma_closed_holds_walk(adj, ok, seen, q);
        let i = p.len() - 2;
        assert(q.last() == p[i]);
        assert(walk_edge(adj, p, i));
        assert(p[i + 1] == p.last());
    }
}

/// The nodes that a walk of `ok` nodes leads to from `start`.
fn forward_reachable(adj: &Vec<Vec<usize>>, start: usize, ok: &Vec<bool>) -> (seen: Vec<bool>)
    requires
        adj.len() == ok.len(),
    ensures
        seen.len() == adj.len(),
        forall|v: int| 0 <= v < seen.len() ==> (seen[v] <==> reaches(adj@, ok@, start as int, v)),
{
    let n = adj.len();
    let mut seen: Vec<bool> = Vec::new();
    while seen.len() < n
        invariant
            seen.len() <= n,
            forall|v: int| 0 <= v < seen.len() ==> !seen[v],
        decreases n - seen.len(),
    {
        seen.push(false);
    }
    let mut order: Vec<usize> = Vec::new();
    if start < n && ok[start] {
        proof { lemma_reaches_start(adj@, ok@, start); }
        seen.set(start, true);
        order.push(start);
        proof {
            assert(order@[0] == start);
        }
    }
    let mut head: usize = 0;
    while head < order.len()
        invariant
            n == adj.len(),
            n == ok.len(),
            seen.len() == n,
            head <= order.len(),
            forall|i: int| 0 <= i < order.len() ==> (#[trigger] order[i]) < n && seen[order[i] as int],
            forall|v: int| 0 <= v < n && seen[v] ==> order@.contains(v as usize),
            forall|v: int| 0 <= v < n && seen[v] ==> reaches(adj@, ok@, start as int, v),
            forall|i: int, v: usize| 0 <= i < head && #[trigger] adj@[order[i] as int]@.contains(v)
                && (v as int) < n && ok[v as int] ==> seen[v as int],
            start < n && ok[start as int] ==> seen[start as int],
        decreases unseen_count(seen@) + order.len() - head,
    {
        let u = order[head];
        let ghost m0 = unseen_count(seen@) + order.len();
        let succ = &adj[u];
        let mut j: usize = 0;
        while j < succ.len()
            invariant
                n == adj.len(),
                n == ok.len(),
                seen.len() == n,
                head < order.len(),
                u == order[head as int],
                succ@ == adj@[u as int]@,
                j <= succ.len(),
                unseen_count(seen@) + order.len() == m0,
                forall|i: int| 0 <= i < order.len() ==> (#[trigger] order[i]) < n && seen[order[i] as int],
                forall|v: int| 0 <= v < n && seen[v] ==> order@.contains(v as usize),
                forall|v: int| 0 <= v < n && seen[v] ==> reaches(adj@, ok@, start as int, v),
                forall|i: int, v: usize| 0 <= i < head && #[trigger] adj@[order[i] as int]@.contains(v)
                    && (v as int) < n && ok[v as int] ==> seen[v as int],
                forall|k: int| 0 <= k < j && (#[trigger] succ@[k] as int) < n && ok[succ@[k] as int] ==> seen[succ@[k] as int],
                start < n && ok[start as int] ==> seen[start as int],
            decreases succ.len() - j,
        {
            let v = succ[j];
            if v < n && ok[v] && !seen[v] {
                proof {
                    lemma_unseen_mark(seen@, v as int);
                    assert(adj@[u as int]@.contains(v)) by {
                        assert(succ@[j as int] == v);
                    }
                    lemma_reaches_step(adj@, ok@, start as int, u as int, v);
                }
                let ghost o0 = order@;
                seen.set(v, true);
                order.push(v);
                proof {
                    assert forall|w: int| 0 <= w < n && seen[w] implies order@.contains(w as usize) by {
                        if w != v as int {
                            let k = choose|k: int| 0 <= k < o0.len() && o0[k] == w as usize;
                            assert(order@[k] == o0[k]);
                        } else {
                            assert(order@[o0.len() as int] == v);
                        }
                    }
                    assert forall|i: int| 0 <= i < order.len() implies (#[trigger] order[i]) < n && seen[order[i] as int] by {
                        if i < o0.len() {
                            assert(order@[i] == o0[i]);
                        }
                    }
                    assert forall|i: int, w: usize| 0 <= i < head && #[trigger] adj@[order[i] as int]@.contains(w)
                        && (w as int) < n && ok[w as int] implies seen[w as int] by {
                        assert(order@[i] == o0[i]);
                    }
                }
            }
            j += 1;
        }
        proof {
            assert forall|i: int, v: usize| 0 <= i < head + 1 && #[trigger] adj@[order[i] as int]@.contains(v)
                && (v as int) < n && ok[v as int] implies seen[v as int] by {
                if i == head {
                    let k = choose|k: int| 0 <= k < succ@.len() && succ@[k] == v;
                    assert(succ@[k] == v);
                }
            }
        }
        head += 1;
    }
    proof {
        assert forall|u: int, v: usize| 0 <= u < seen.len() && seen[u] && #[trigger] adj@[u]@.contains(v)
            && (v as int) < ok.len() && ok[v as int] implies seen[v as int] by {
            let i = choose|i: int| 0 <= i < order@.len() && order@[i] == u as usize;
            assert(adj@[order[i] as int]@.contains(v));
        }
        assert forall|v: int| 0 <= v < seen.len() && reaches(adj@, ok@, start as int, v) implies seen[v] by {
            let p = choose|p: Seq<usize>| #[trigger] is_walk(adj@, ok@, p) && p[0] == start as int && p.last() == v;
            assert(ok[p[0] as int]);
            lemma_closed_holds_walk(adj@, ok@, seen@, p);
        }
    }
    seen
}

/// Whether some `present` node with `can_reach` set has an edge to `u`.
fn has_reaching_predecessor(adj: &Vec<Vec<usize>>, present: &Vec<bool>, can_reach: &Vec<bool>, u: usize) -> (r: bool)
    requires
        adj.len() == present.len(),
        can_reach.len() == present.len(),
    ensures
        r <==> exists|p: int| 0 <= p < present.len() && present[p] && can_reach[p] && #[trigger] adj@[p]@.contains(u),
{
    let n = adj.len();
    for p in 0..n
        invariant
            n == adj.len(),
            n == present.len(),
            can_reach.len() == n,
            forall|q: int| 0 <= q < p && present[q] && can_reach[q] ==> !(#[trigger] adj@[q]@.contains(u)),
    {
        if present[p] && can_reach[p] {
            let succ = &adj[p];
            for k in 0..succ.len()
                invariant
                    n == adj.len(),
                    n == present.len(),
                    can_reach.len() == n,
                    p < n,
                    present[p as int],
                    can_reach[p as int],
                    succ@ == adj@[p as int]@,
                    forall|m: int| 0 <= m < k ==> succ@[m] != u,
            {
                if succ[k] == u {
                    proof {
                        assert(succ@[k as int] == u);
                        assert(adj@[p as int]@.contains(u));
                    }
                    return true;
                }
            }
            proof {
                if adj@[p as int]@.contains(u) {
                    let m = choose|m: int| 0 <= m < succ@.len() && succ@[m] == u;
                    assert(succ@[m] != u);
                }
            }
        }
    }
    false
}

/// The pairs `(u, w)`, `u < w`, of relevant literal nodes such that every walk from the source
/// to the conflict `t` meets `u` or `w`, in increasing order; `None` when there is not exactly
/// one source (a literal node that reaches `t` and has no predecessor that does).
pub fn find_all_two_vertex_bottlenecks(adj: &Vec<Vec<usize>>, present: &Vec<bool>, t: usize)
    -> (r: Option<Vec<(usize, usize)>>)
    requires
        adj.len() == present.len(),
        t < adj.len(),
    ensures
        r is None <==> !exists|s: int| unique_source(adj@, present@, t as int, s),
        r matches Some(out) ==> exists|s: int| unique_source(adj@, present@, t as int, s)
            && (forall|x: (usize, usize)| out@.contains(x)
                <==> x.0 < x.1 && is_bottleneck(adj@, present@, s, t as int, x.0 as int, x.1 as int))
            && (forall|i: int, j: int| 0 <= i < j < out.len() ==> pair_before(out@[i], out@[j])),
{
    let n = adj.len();
    let mut can_reach: Vec<bool> = Vec::new();
    for u in 0..n
        invariant
            n == adj.len(),
            n == present.len(),
            t < n,
            can_reach.len() == u,
            forall|v: int| 0 <= v < u ==> (can_reach[v] <==> reaches(adj@, present@, v, t as int)),
    {
        let seen = forward_reachable(adj, u, present);
        can_reach.push(seen[t]);
    }
    let mut count: usize = 0;
    let mut s: usize = 0;
    for u in 0..n
        invariant
            n == adj.len(),
            n == present.len(),
            t < n,
            can_reach.len() == n,
            forall|v: int| 0 <= v < n ==> (can_reach[v] <==> reaches(adj@, present@, v, t as int)),
            count <= 2,
            count == 0 ==> forall|v: int| 0 <= v < u ==> !is_source(adj@, present@, t as int, v),
            count >= 1 ==> s < u && is_source(adj@, present@, t as int, s as int),
            count == 1 ==> forall|v: int| 0 <= v < u && is_source(adj@, present@, t as int, v) ==> v == s,
            count == 2 ==> exists|v: int| #[trigger] is_source(adj@, present@, t as int, v) && v != s,
    {
        let pred = has_reaching_predecessor(adj, present, &can_reach, u);
        let src = u != t && present[u] && can_reach[u] && !pred;
        proof {
            let ap = adj@;
            let pp = present@;
            assert((exists|p: int| 0 <= p < pp.len() && pp[p] && reaches(ap, pp, p, t as int) && #[trigger] ap[p]@.contains(u as usize))
                <==> (exists|p: int| 0 <= p < pp.len() && pp[p] && can_reach[p] && #[trigger] ap[p]@.contains(u))) by {
                if exists|p: int| 0 <= p < pp.len() && pp[p] && reaches(ap, pp, p, t as int) && #[trigger] ap[p]@.contains(u as usize) {
                    let p = choose|p: int| 0 <= p < pp.len() && pp[p] && reaches(ap, pp, p, t as int) && #[trigger] ap[p]@.contains(u as usize);
                    assert(can_reach[p]);
                }
                if exists|p: int| 0 <= p < pp.len() && pp[p] && can_reach[p] && #[trigger] ap[p]@.contains(u) {
                    let p = choose|p: int| 0 <= p < pp.len() && pp[p] && can_reach[p] && #[trigger] ap[p]@.contains(u);
                    assert(reaches(ap, pp, p, t as int));
                }
            }
            assert(src <==> is_source(ap, pp, t as int, u as int));
        }
        if src {
            if count == 0 {
                s = u;
                count = 1;
            } else {
                proof {
                    assert(is_source(adj@, present@, t as int, u as int) && u as int != s as int);
                }
                count = 2;
            }
        }
    }
    if count != 1 {
        proof {
            if exists|s1: int| unique_source(adj@, present@, t as int, s1) {
                let s1 = choose|s1: int| unique_source(adj@, present@, t as int, s1);
                if count == 0 {
                    assert(!is_source(adj@, present@, t as int, s1));
                } else {
                    let v = choose|v: int| #[trigger] is_source(adj@, present@, t as int, v) && v != s;
                    assert(is_source(adj@, present@, t as int, s as int));
                }
            }
        }
        return None;
    }
    proof {
        assert(unique_source(adj@, present@, t as int, s as int));
    }
    let fwd = forward_reachable(adj, s, present);
    let mut rel: Vec<bool> = Vec::new();
    for u in 0..n
        invariant
            n == adj.len(),
            n == present.len(),
            can_reach.len() == n,
            fwd.len() == n,
            forall|v: int| 0 <= v < n ==> (can_reach[v] <==> reaches(adj@, present@, v, t as int)),
            forall|v: int| 0 <= v < n ==> (fwd[v] <==> reaches(adj@, present@, s as int, v)),
            rel.len() == u,
            forall|v: int| 0 <= v < u ==> rel[v] == relevant_nodes(adj@, present@, s as int, t as int)[v],
    {
        rel.push(present[u] && fwd[u] && can_reach[u]);
    }
    let ghost relv = relevant_nodes(adj@, present@, s as int, t as int);
    proof {
        assert(rel@ =~= relv);
    }
    let mut out: Vec<(usize, usize)> = Vec::new();
    for a in 0..n
        invariant
            n == adj.len(),
            n == present.len(),
            t < n,
            s < n,
            unique_source(adj@, present@, t as int, s as int),
            rel@ == relv,
            relv == relevant_nodes(adj@, present@, s as int, t as int),
            forall|x: (usize, usize)| out@.contains(x) <==> (x.0 < a && x.0 < x.1
                && is_bottleneck(adj@, present@, s as int, t as int, x.0 as int, x.1 as int)),
            forall|i: int, j: int| 0 <= i < j < out.len() ==> pair_before(out@[i], out@[j]),
            forall|i: int| 0 <= i < out.len() ==> out@[i].0 < a,
    {
        if rel[a] && a != s && a != t {
            for b in (a + 1)..n
                invariant
                    n == adj.len(),
                    n == present.len(),
                    t < n,
                    s < n,
                    a < n,
                    relv[a as int],
                    a != s,
                    a != t,
                    rel@ == relv,
                    relv == relevant_nodes(adj@, present@, s as int, t as int),
                    forall|x: (usize, usize)| out@.contains(x) <==> ((x.0 < a || (x.0 == a && x.1 < b)) && x.0 < x.1
                        && is_bottleneck(adj@, present@, s as int, t as int, x.0 as int, x.1 as int)),
                    forall|i: int, j: int| 0 <= i < j < out.len() ==> pair_before(out@[i], out@[j]),
                    forall|i: int| 0 <= i < out.len() ==> pair_before(out@[i], (a, b)),
            {
                let mut cut = false;
                if rel[b] && b != s && b != t {
                    let mut ok2: Vec<bool> = Vec::new();
                    for v in 0..n
                        invariant
                            n == rel.len(),
                            ok2.len() == v,
                            forall|w: int| 0 <= w < v ==> ok2[w] == (rel[w] && w != a && w != b),
                    {
                        ok2.push(rel[v] && v != a && v != b);
                    }
                    proof {
                        assert(ok2@ =~= without_pair(relv, a as int, b as int));
                    }
                    let seen = forward_reachable(adj, s, &ok2);
                    cut = !seen[t];
                }
                proof {
                    assert(cut <==> is_bottleneck(adj@, present@, s as int, t as int, a as int, b as int));
                }
                if cut {
                    let ghost o0 = out@;
                    out.push((a, b));
                    proof {
                        assert forall|x: (usize, usize)| out@.contains(x) <==> ((x.0 < a || (x.0 == a && x.1 < b + 1)) && x.0 < x.1
                            && is_bottleneck(adj@, present@, s as int, t as int, x.0 as int, x.1 as int)) by {
                            if out@.contains(x) {
                                let k = choose|k: int| 0 <= k < out@.len() && out@[k] == x;
                                if k < o0.len() {
                                    assert(o0[k] == x);
                                    assert(o0.contains(x));
                                }
                            }
                            if (x.0 < a || (x.0 == a && x.1 < b + 1)) && x.0 < x.1
                                && is_bottleneck(adj@, present@, s as int, t as int, x.0 as int, x.1 as int) {
                                if x == (a, b) {
                                    assert(out@[o0.len() as int] == x);
                                } else {
                                    assert(o0.contains(x));
                                    let k = choose|k: int| 0 <= k < o0.len() && o0[k] == x;
                                    assert(out@[k] == x);
                                }
                            }
                        }
                        assert forall|i: int, j: int| 0 <= i < j < out.len() implies pair_before(out@[i], out@[j]) by {
                            if j < o0.len() {
                                assert(out@[i] == o0[i] && out@[j] == o0[j]);
                            } else {
                                assert(out@[i] == o0[i]);
                            }
                        }
                    }
                } else {
                    proof {
                        assert forall|x: (usize, usize)| out@.contains(x) <==> ((x.0 < a || (x.0 == a && x.1 < b + 1)) && x.0 < x.1
                            && is_bottleneck(adj@, present@, s as int, t as int, x.0 as int, x.1 as int)) by {
                            if x.0 == a && x.1 == b {
                                assert(x == (a, b));
                            }
                        }
                    }
                }
            }
        } else {
            proof {
                assert forall|x: (usize, usize)| out@.contains(x) <==> (x.0 < a + 1 && x.0 < x.1
                    && is_bottleneck(adj@, present@, s as int, t as int, x.0 as int, x.1 as int)) by {
                }
            }
        }
    }
    Some(out)
}

} // verus!
