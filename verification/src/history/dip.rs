use vstd::prelude::*;
use std::collections::VecDeque;
use crate::formula::Formula;
use crate::formula::clause::Clause;
use crate::formula::literal::{Literal, unsigned_index_of};
use crate::history::{ConflictLearnResult, History};
use crate::formula::clause::distinct_count;
use crate::history::conflict_analysis::{ConflictAnalysis, analyze_conflict_graph, lits_in_range, count_true, walk_ready, first_uip_analysis,
    lemma_count_true_set, lemma_count_true_le};
use crate::sorting::contains_usize;
use crate::history::uip;

verus! {

/// The largest LBD a DIP pre or post clause may have.
pub const DIP_MAX_CLAUSE_LBD: i64 = 2;

/// Every successor listed in `adj` is a node of `adj`.
pub open spec fn adj_ok(adj: Seq<Vec<usize>>) -> bool {
    forall|u: int, k: int| 0 <= u < adj.len() && 0 <= k < adj[u]@.len() ==> #[trigger] adj[u]@[k] < adj.len()
}

/// Number of unset flags.
pub open spec fn count_false(s: Seq<bool>) -> nat
    decreases s.len(),
{
    if s.len() == 0 {
        0
    } else {
        count_false(s.drop_last()) + if s.last() { 0nat } else { 1nat }
    }
}

/// Setting an unset flag leaves one fewer unset flag.
pub proof fn lemma_count_false_set(s: Seq<bool>, i: int)
    requires
        0 <= i < s.len(),
        !s[i],
    ensures
        count_false(s.update(i, true)) + 1 == count_false(s),
    decreases s.len(),
{
    let t = s.update(i, true);
    if i == s.len() - 1 {
        assert(t.drop_last() =~= s.drop_last());
    } else {
        assert(t.drop_last() =~= s.drop_last().update(i, true));
        lemma_count_false_set(s.drop_last(), i);
    }
}

/// The predecessor lists of the graph `adj`: `u` is listed for `v` exactly when `v` is a
/// successor of `u`.
pub fn reverse_adj(adj: &Vec<Vec<usize>>) -> (r: Vec<Vec<usize>>)
    requires
        adj_ok(adj@),
    ensures
        r@.len() == adj@.len(),
        adj_ok(r@),
        forall|u: int, v: int| 0 <= u < adj@.len() && 0 <= v < adj@.len() ==>
            ((#[trigger] r@[v]@.contains(u as usize)) <==> adj@[u]@.contains(v as usize)),
{
    let n = adj.len();
    let mut rev: Vec<Vec<usize>> = Vec::new();
    for _i in 0..n
        invariant
            rev@.len() == _i,
            forall|u: int| 0 <= u < rev@.len() ==> (#[trigger] rev@[u])@.len() == 0,
    {
        rev.push(Vec::new());
    }
    for u in 0..n
        invariant
            n == adj@.len(),
            adj_ok(adj@),
            rev@.len() == n,
            adj_ok(rev@),
            forall|x: int, v: int| 0 <= x < n && 0 <= v < n ==>
                ((#[trigger] rev@[v]@.contains(x as usize)) <==> (x < u && adj@[x]@.contains(v as usize))),
    {
        let succs = &adj[u];
        for k in 0..succs.len()
            invariant
                n == adj@.len(),
                u < n,
                *succs == adj@[u as int],
                adj_ok(adj@),
                rev@.len() == n,
                adj_ok(rev@),
                forall|x: int, v: int| 0 <= x < n && 0 <= v < n ==>
                    ((#[trigger] rev@[v]@.contains(x as usize)) <==> ((x < u && adj@[x]@.contains(v as usize))
                        || (x == u && adj@[x]@.subrange(0, k as int).contains(v as usize)))),
        {
            let v = succs[k];
            proof { assert(adj@[u as int]@[k as int] < n); }
            let ghost before = rev@;
            rev[v].push(u);
            proof {
                assert forall|x: int, q: int| 0 <= x < rev@.len() && 0 <= q < rev@[x]@.len() implies #[trigger] rev@[x]@[q] < rev@.len() by {
                    if x != v as int {
                        assert(rev@[x] == before[x]);
                    } else if q < before[x]@.len() {
                        assert(rev@[x]@[q] == before[x]@[q]);
                    }
                }
                assert(adj@[u as int]@.subrange(0, k + 1) =~= adj@[u as int]@.subrange(0, k as int).push(v));
                assert(rev@[v as int]@ =~= before[v as int]@.push(u));
                assert forall|x: int, w: int| 0 <= x < n && 0 <= w < n implies
                    ((#[trigger] rev@[w]@.contains(x as usize)) <==> ((x < u && adj@[x]@.contains(w as usize))
                        || (x == u && adj@[x]@.subrange(0, k + 1).contains(w as usize)))) by {
                    vstd::seq_lib::lemma_seq_contains_after_push(adj@[u as int]@.subrange(0, k as int), v, w as usize);
                    vstd::seq_lib::lemma_seq_contains_after_push(before[w]@, u, x as usize);
                    assert(before[w]@.contains(x as usize) <==> ((x < u && adj@[x]@.contains(w as usize))
                        || (x == u && adj@[x]@.subrange(0, k as int).contains(w as usize))));
                    if w != v as int {
                        assert(rev@[w] == before[w]);
                    }
                }
            }
        }
        proof {
            assert(adj@[u as int]@.subrange(0, adj@[u as int]@.len() as int) =~= adj@[u as int]@);
        }
    }
    rev
}

/// `s` (one flag per node of `adj`) holds `start` when `start` is a present node, and holds
/// every present successor of a node it holds.
pub open spec fn closed_from(adj: Seq<Vec<usize>>, present: Seq<bool>, start: int, s: Seq<bool>) -> bool {
    &&& s.len() == adj.len()
    &&& (0 <= start < adj.len() && present[start]) ==> s[start]
    &&& forall|u: int, k: int| 0 <= u < adj.len() && 0 <= k < adj[u]@.len() && s[u] && present[#[trigger] adj[u]@[k] as int]
        ==> s[adj[u]@[k] as int]
}

/// The nodes reachable from `start` through nodes marked `present` (`start` itself included when
/// present): the least set that holds `start` and is closed under present successors.
pub fn reachable(adj: &Vec<Vec<usize>>, start: usize, present: &Vec<bool>) -> (r: Vec<bool>)
    requires
        adj_ok(adj@),
        present@.len() == adj@.len(),
    ensures
        r@.len() == adj@.len(),
        forall|v: int| 0 <= v < r@.len() && #[trigger] r@[v] ==> present@[v],
        closed_from(adj@, present@, start as int, r@),
        forall|s: Seq<bool>| #[trigger] closed_from(adj@, present@, start as int, s) ==>
            forall|v: int| 0 <= v < r@.len() && #[trigger] r@[v] ==> s[v],
{
    let n = adj.len();
    let mut seen: Vec<bool> = Vec::new();
    for _i in 0..n
        invariant
            seen@.len() == _i,
            forall|v: int| 0 <= v < seen@.len() ==> !(#[trigger] seen@[v]),
    {
        seen.push(false);
    }
    let mut queue: VecDeque<usize> = VecDeque::new();
    if start < n && present[start] {
        proof { lemma_count_false_set(seen@, start as int); }
        seen.set(start, true);
        queue.push_back(start);
        assert(queue@[0] == start);
    }
    proof {
        assert forall|v: int| 0 <= v < n && #[trigger] seen@[v] implies queue@.contains(v as usize) by {
            assert(v == start as int);
            assert(queue@[0] == start);
        }
    }
    while queue.len() > 0
        invariant
            n == adj@.len(),
            adj_ok(adj@),
            present@.len() == n,
            seen@.len() == n,
            forall|v: int| 0 <= v < n && #[trigger] seen@[v] ==> present@[v],
            forall|k: int| 0 <= k < queue@.len() ==> #[trigger] queue@[k] < n && seen@[queue@[k] as int],
            forall|i: int, j: int| 0 <= i < j < queue@.len() ==> queue@[i] != queue@[j],
            (start < n && present@[start as int]) ==> seen@[start as int],
            forall|u: int, k: int| 0 <= u < n && 0 <= k < adj@[u]@.len() && seen@[u] && !queue@.contains(u as usize)
                && present@[#[trigger] adj@[u]@[k] as int] ==> seen@[adj@[u]@[k] as int],
            forall|s: Seq<bool>| #[trigger] closed_from(adj@, present@, start as int, s) ==>
                forall|v: int| 0 <= v < n && #[trigger] seen@[v] ==> s[v],
        decreases 2 * count_false(seen@) + queue@.len(),
    {
        let ghost q0 = queue@;
        let u = queue.pop_front().unwrap();
        proof {
            assert(!queue@.contains(u)) by {
                if queue@.contains(u) {
                    let j = choose|j: int| 0 <= j < queue@.len() && queue@[j] == u;
                    assert(q0[j + 1] == u);
                    assert(q0[0] == u);
                }
            }
            assert forall|w: int| 0 <= w < n && w != u as int && #[trigger] q0.contains(w as usize) implies queue@.contains(w as usize) by {
                let j = choose|j: int| 0 <= j < q0.len() && q0[j] == w as usize;
                assert(j != 0);
                assert(queue@[j - 1] == w as usize);
            }
        }
        let succs = &adj[u];
        let ghost popped = queue@.len();
        let ghost c0 = count_false(seen@);
        for k in 0..succs.len()
            invariant
                n == adj@.len(),
                adj_ok(adj@),
                u < n,
                *succs == adj@[u as int],
                present@.len() == n,
                seen@.len() == n,
                seen@[u as int],
                !queue@.contains(u),
                forall|v: int| 0 <= v < n && #[trigger] seen@[v] ==> present@[v],
                forall|q: int| 0 <= q < queue@.len() ==> #[trigger] queue@[q] < n && seen@[queue@[q] as int],
                forall|i: int, j: int| 0 <= i < j < queue@.len() ==> queue@[i] != queue@[j],
                queue@.len() >= popped,
                queue@.len() - popped + count_false(seen@) == c0,
                (start < n && present@[start as int]) ==> seen@[start as int],
                forall|w: int, kk: int| 0 <= w < n && 0 <= kk < adj@[w]@.len() && seen@[w] && !queue@.contains(w as usize)
                    && w != u as int && present@[#[trigger] adj@[w]@[kk] as int] ==> seen@[adj@[w]@[kk] as int],
                forall|kk: int| 0 <= kk < k && present@[#[trigger] adj@[u as int]@[kk] as int] ==> seen@[adj@[u as int]@[kk] as int],
                forall|s: Seq<bool>| #[trigger] closed_from(adj@, present@, start as int, s) ==>
                    forall|v: int| 0 <= v < n && #[trigger] seen@[v] ==> s[v],
        {
            let v = succs[k];
            proof { assert(adj@[u as int]@[k as int] < n); }
            if present[v] && !seen[v] {
                let ghost seen0 = seen@;
                let ghost queue_before = queue@;
                proof { lemma_count_false_set(seen@, v as int); }
                seen.set(v, true);
                queue.push_back(v);
                proof {
                    assert forall|i: int, j: int| 0 <= i < j < queue@.len() implies queue@[i] != queue@[j] by {
                        if j == queue@.len() - 1 {
                            assert(seen0[queue_before[i] as int]);
                        }
                    }
                    assert(!queue@.contains(u)) by {
                        if queue@.contains(u) {
                            let j = choose|j: int| 0 <= j < queue@.len() && queue@[j] == u;
                            if j < queue_before.len() {
                                assert(queue_before[j] == u);
                            }
                        }
                    }
                    assert forall|w: int, kk: int| 0 <= w < n && 0 <= kk < adj@[w]@.len() && seen@[w] && !queue@.contains(w as usize)
                        && w != u as int && present@[#[trigger] adj@[w]@[kk] as int] implies seen@[adj@[w]@[kk] as int] by {
                        if w != v as int {
                            assert(seen0[w]);
                            if queue_before.contains(w as usize) {
                                let j = choose|j: int| 0 <= j < queue_before.len() && queue_before[j] == w as usize;
                                assert(queue@[j] == w as usize);
                            }
                        } else {
                            assert(queue@[queue@.len() - 1] == v);
                        }
                    }
                    assert forall|s: Seq<bool>| #[trigger] closed_from(adj@, present@, start as int, s) implies
                        forall|x: int| 0 <= x < n && #[trigger] seen@[x] ==> s[x] by {
                        assert(s[u as int]);
                        assert(adj@[u as int]@[k as int] == v);
                        assert forall|x: int| 0 <= x < n && #[trigger] seen@[x] implies s[x] by {
                            if x != v as int {
                                assert(seen0[x]);
                            }
                        }
                    }
                }
            }
        }
    }
    seen
}

/// The largest of `levels` below `current_level`, `0` when there is none.
pub fn highest_non_current_level(levels: &Vec<usize>, current_level: usize) -> (r: usize)
    ensures
        forall|i: int| 0 <= i < levels@.len() && #[trigger] levels@[i] < current_level ==> levels@[i] <= r,
        r == 0 || exists|i: int| 0 <= i < levels@.len() && #[trigger] levels@[i] == r && r < current_level,
{
    let mut best: usize = 0;
    for i in 0..levels.len()
        invariant
            forall|j: int| 0 <= j < i && #[trigger] levels@[j] < current_level ==> levels@[j] <= best,
            best == 0 || exists|j: int| 0 <= j < levels@.len() && #[trigger] levels@[j] == best && best < current_level,
    {
        if levels[i] < current_level && levels[i] > best {
            best = levels[i];
        }
    }
    best
}

/// A node of one of the two disjoint paths, with its position on that path and the furthest
/// position of the other path reachable from the nodes before it.
#[derive(Clone, Copy)]
pub struct PathItem {
    pub node: usize,
    pub pos: usize,
    pub reach_other_pos: usize,
}

/// The first index whose item has position at least `pos` (items sorted by position).
pub fn lower_bound_path_pos(items: &Vec<PathItem>, pos: usize) -> (r: usize)
    requires
        forall|i: int, j: int| 0 <= i <= j < items@.len() ==> items@[i].pos <= items@[j].pos,
    ensures
        r <= items@.len(),
        forall|i: int| 0 <= i < r ==> (#[trigger] items@[i]).pos < pos,
        forall|i: int| r <= i < items@.len() ==> (#[trigger] items@[i]).pos >= pos,
{
    let mut lo: usize = 0;
    let mut hi: usize = items.len();
    while lo < hi
        invariant
            lo <= hi <= items@.len(),
            forall|i: int, j: int| 0 <= i <= j < items@.len() ==> items@[i].pos <= items@[j].pos,
            forall|i: int| 0 <= i < lo ==> (#[trigger] items@[i]).pos < pos,
            forall|i: int| hi <= i < items@.len() ==> (#[trigger] items@[i]).pos >= pos,
        decreases hi - lo,
    {
        let mid = lo + (hi - lo) / 2;
        if items[mid].pos < pos {
            lo = mid + 1;
        } else {
            hi = mid;
        }
    }
    lo
}


/// The nodes reached from `seeds` by following `successors`, where a node listed in `stop_at` is
/// reached but not expanded.
fn forward_region(analysis: &ConflictAnalysis, seeds: &Vec<usize>, stop_at: &Vec<usize>) -> (r: Vec<bool>)
    requires
        adj_ok(analysis.successors@),
        forall|k: int| 0 <= k < seeds@.len() ==> #[trigger] seeds@[k] < analysis.successors@.len(),
    ensures
        r@.len() == analysis.successors@.len(),
        forall|k: int| 0 <= k < seeds@.len() ==> r@[#[trigger] seeds@[k] as int],
        forall|v: int, k: int| 0 <= v < r@.len() && r@[v] && !stop_at@.contains(v as usize)
            && 0 <= k < analysis.successors@[v]@.len() ==> r@[#[trigger] analysis.successors@[v]@[k] as int],
        forall|v: int| 0 <= v < r@.len() && #[trigger] r@[v] ==> seeds@.contains(v as usize)
            || exists|u: int, k: int| 0 <= u < r@.len() && r@[u] && !stop_at@.contains(u as usize)
                && 0 <= k < analysis.successors@[u]@.len() && #[trigger] analysis.successors@[u]@[k] == v,
{
    let succ = &analysis.successors;
    let n = succ.len();
    let mut region: Vec<bool> = Vec::new();
    for _i in 0..n
        invariant
            region@.len() == _i,
            forall|v: int| 0 <= v < region@.len() ==> !(#[trigger] region@[v]),
    {
        region.push(false);
    }
    let mut queue: VecDeque<usize> = VecDeque::new();
    for j in 0..seeds.len()
        invariant
            n == succ@.len(),
            region@.len() == n,
            forall|k: int| 0 <= k < seeds@.len() ==> #[trigger] seeds@[k] < n,
            forall|k: int| 0 <= k < j ==> region@[#[trigger] seeds@[k] as int],
            forall|q: int| 0 <= q < queue@.len() ==> #[trigger] queue@[q] < n && region@[queue@[q] as int],
            forall|v: int| 0 <= v < n && #[trigger] region@[v] ==> queue@.contains(v as usize) && seeds@.contains(v as usize),
    {
        let seed = seeds[j];
        if !region[seed] {
            let ghost q0 = queue@;
            region.set(seed, true);
            queue.push_back(seed);
            proof {
                assert(queue@ == q0.push(seed));
                assert(seeds@[j as int] == seed);
                assert forall|v: int| 0 <= v < n && #[trigger] region@[v] implies queue@.contains(v as usize) && seeds@.contains(v as usize) by {
                    vstd::seq_lib::lemma_seq_contains_after_push(q0, seed, v as usize);
                }
            }
        }
    }
    while queue.len() > 0
        invariant
            n == succ@.len(),
            adj_ok(succ@),
            region@.len() == n,
            forall|k: int| 0 <= k < seeds@.len() ==> #[trigger] seeds@[k] < n,
            forall|k: int| 0 <= k < seeds@.len() ==> region@[#[trigger] seeds@[k] as int],
            forall|q: int| 0 <= q < queue@.len() ==> #[trigger] queue@[q] < n && region@[queue@[q] as int],
            forall|v: int, k: int| 0 <= v < n && region@[v] && !stop_at@.contains(v as usize) && !queue@.contains(v as usize)
                && 0 <= k < succ@[v]@.len() ==> region@[#[trigger] succ@[v]@[k] as int],
            forall|v: int| 0 <= v < n && #[trigger] region@[v] ==> seeds@.contains(v as usize)
                || exists|u: int, k: int| 0 <= u < n && region@[u] && !stop_at@.contains(u as usize)
                    && 0 <= k < succ@[u]@.len() && #[trigger] succ@[u]@[k] == v,
        ensures
            queue@.len() == 0,
        decreases 2 * count_false(region@) + queue@.len(),
    {
        let ghost q0 = queue@;
        let idx = match queue.pop_front() {
            Some(x) => x,
            None => { break; },
        };
        proof {
            assert(q0 == seq![idx] + queue@);
            assert forall|v: int| 0 <= v < n && v != idx as int && #[trigger] q0.contains(v as usize) implies queue@.contains(v as usize) by {
                let q = choose|q: int| 0 <= q < q0.len() && q0[q] == v as usize;
                assert(queue@[q - 1] == v as usize);
            }
        }
        if !contains_usize(stop_at, idx) {
            let succs = &succ[idx];
            let ghost popped = queue@.len();
            let ghost c0 = count_false(region@);
            for k in 0..succs.len()
                invariant
                    n == succ@.len(),
                    adj_ok(succ@),
                    idx < n,
                    region@[idx as int],
                    !stop_at@.contains(idx),
                    *succs == succ@[idx as int],
                    region@.len() == n,
                    forall|k: int| 0 <= k < seeds@.len() ==> #[trigger] seeds@[k] < n,
                    forall|k: int| 0 <= k < seeds@.len() ==> region@[#[trigger] seeds@[k] as int],
                    forall|q: int| 0 <= q < queue@.len() ==> #[trigger] queue@[q] < n && region@[queue@[q] as int],
                    forall|v: int, k: int| 0 <= v < n && v != idx && region@[v] && !stop_at@.contains(v as usize) && !queue@.contains(v as usize)
                        && 0 <= k < succ@[v]@.len() ==> region@[#[trigger] succ@[v]@[k] as int],
                    forall|k2: int| 0 <= k2 < k ==> region@[#[trigger] succ@[idx as int]@[k2] as int],
                    forall|v: int| 0 <= v < n && #[trigger] region@[v] ==> seeds@.contains(v as usize)
                        || exists|u: int, k: int| 0 <= u < n && region@[u] && !stop_at@.contains(u as usize)
                            && 0 <= k < succ@[u]@.len() && #[trigger] succ@[u]@[k] == v,
                    queue@.len() >= popped,
                    queue@.len() - popped + count_false(region@) == c0,
            {
                let v = succs[k];
                proof { assert(succ@[idx as int]@[k as int] < n); }
                if !region[v] {
                    let ghost q1 = queue@;
                    let ghost r1 = region@;
                    proof { lemma_count_false_set(region@, v as int); }
                    region.set(v, true);
                    queue.push_back(v);
                    proof {
                        assert(queue@ == q1.push(v));
                        assert forall|x: int| 0 <= x < n && #[trigger] q1.contains(x as usize) implies queue@.contains(x as usize) by {
                            vstd::seq_lib::lemma_seq_contains_after_push(q1, v, x as usize);
                        }
                        assert(queue@.contains(v)) by { vstd::seq_lib::lemma_seq_contains_after_push(q1, v, v); }
                        assert forall|k2: int| 0 <= k2 < seeds@.len() implies region@[#[trigger] seeds@[k2] as int] by {
                            assert(r1[seeds@[k2] as int]);
                        }
                        assert(succ@[idx as int]@[k as int] == v);
                        assert forall|x: int| 0 <= x < n && #[trigger] region@[x] implies seeds@.contains(x as usize)
                            || exists|u: int, k: int| 0 <= u < n && region@[u] && !stop_at@.contains(u as usize)
                                && 0 <= k < succ@[u]@.len() && #[trigger] succ@[u]@[k] == x by {
                            if x != v as int {
                                assert(r1[x]);
                                if !seeds@.contains(x as usize) {
                                    let (u, k3) = choose|u: int, k3: int| 0 <= u < n && r1[u] && !stop_at@.contains(u as usize)
                                        && 0 <= k3 < succ@[u]@.len() && #[trigger] succ@[u]@[k3] == x;
                                    assert(region@[u]);
                                }
                            } else {
                                assert(region@[idx as int]);
                            }
                        }
                    }
                }
            }
        }
    }
    proof {
        assert forall|v: int, k: int| 0 <= v < region@.len() && region@[v] && !stop_at@.contains(v as usize)
            && 0 <= k < succ@[v]@.len() implies region@[#[trigger] succ@[v]@[k] as int] by {
            assert(!queue@.contains(v as usize));
        }
    }
    region
}

/// Dense literal index `key` stands for a trail node inside `region` or `covered`.
spec fn internal_node(analysis: &ConflictAnalysis, region: &Vec<bool>, covered: &Vec<bool>, key: int) -> bool {
    &&& 0 <= key < analysis.pos_of@.len()
    &&& match analysis.pos_of@[key] {
        Some(pos) => (pos < region@.len() && region@[pos as int]) || (pos < covered@.len() && covered@[pos as int]),
        None => false,
    }
}

/// What conflict-side predecessors contribute to a DIP clause while it is collected: the
/// literals so far with their levels, the distinct levels met, and which dense literal indices
/// have been emitted.
struct PredCollector {
    seen: Vec<bool>,
    lbd_levels: Vec<usize>,
    literals: Vec<Literal>,
    levels: Vec<usize>,
}

impl PredCollector {
    /// The collector state: `lbd_levels` lists the distinct values of `levels` (at most the cap);
    /// the entries after the first `lit_off` literals and `lvl_off` levels are emitted pairs, each
    /// literal the negation of a predecessor recorded at its level; each emission marks one entry
    /// of `seen`.
    spec fn inv(&self, history: &History, n: nat, lit_off: nat, lvl_off: nat, current_level: usize, include_current: bool) -> bool {
        &&& self.seen@.len() == 2 * n
        &&& lits_in_range(self.literals@, n)
        &&& forall|x: usize| self.levels@.contains(x) <==> self.lbd_levels@.contains(x)
        &&& distinct_count(self.levels@) == self.lbd_levels@.len()
        &&& self.lbd_levels@.len() <= DIP_MAX_CLAUSE_LBD
        &&& self.literals@.len() >= lit_off
        &&& self.levels@.len() >= lvl_off
        &&& self.literals@.len() - lit_off == self.levels@.len() - lvl_off
        &&& self.literals@.len() - lit_off <= count_true(self.seen@)
        &&& forall|i: int| 0 <= i < self.literals@.len() - lit_off ==>
            history.level_of(#[trigger] self.literals@[lit_off + i]) == Some(self.levels@[lvl_off + i])
            && (include_current || self.levels@[lvl_off + i] < current_level)
    }

    /// `pred` is a predecessor to emit: its dense index is new, it has a recorded level, it is not
    /// a node of `region` or `covered`, and its level counts (see `visit`).
    spec fn emits(&self, pred: Literal, region: &Vec<bool>, covered: &Vec<bool>, include_current: bool,
        analysis: &ConflictAnalysis, history: &History) -> bool {
        let key = pred.uidx() as int;
        &&& key < self.seen@.len()
        &&& !self.seen@[key]
        &&& !internal_node(analysis, region, covered, key)
        &&& match history.level_of(pred) {
            Some(l) => include_current || l < analysis.current_level,
            None => false,
        }
    }

    /// Emits the negation of `pred` unless its dense index was already emitted, it has no
    /// recorded level, it is a node of `region` or `covered`, or its level is the current one and
    /// `include_current` is not set. `false` when its level would exceed the cap on distinct
    /// levels.
    fn visit(&mut self, pred: Literal, region: &Vec<bool>, covered: &Vec<bool>, include_current: bool,
        analysis: &ConflictAnalysis, history: &History, Ghost(n): Ghost<nat>, Ghost(lit_off): Ghost<nat>, Ghost(lvl_off): Ghost<nat>) -> (ok: bool)
        requires
            old(self).inv(history, n, lit_off, lvl_off, analysis.current_level, include_current),
            pred.wf(),
            pred.var() < n,
        ensures
            final(self).inv(history, n, lit_off, lvl_off, analysis.current_level, include_current),
            old(self).literals@.len() <= final(self).literals@.len(),
            forall|i: int| 0 <= i < old(self).literals@.len() ==> final(self).literals@[i] == old(self).literals@[i],
            forall|i: int| 0 <= i < old(self).levels@.len() ==> final(self).levels@[i] == old(self).levels@[i],
            !old(self).emits(pred, region, covered, include_current, analysis, history) ==> ok && *final(self) == *old(self),
            old(self).emits(pred, region, covered, include_current, analysis, history) ==> {
                let l = history.level_of(pred)->0;
                &&& ok == (old(self).lbd_levels@.contains(l) || old(self).lbd_levels@.len() < 2)
                &&& !ok ==> *final(self) == *old(self)
                &&& ok ==> final(self).levels@ == old(self).levels@.push(l)
                    && final(self).literals@.len() == old(self).literals@.len() + 1
                    && final(self).literals@.last()@ == -pred@
                    && final(self).seen@ == old(self).seen@.update(pred.uidx() as int, true)
                    && (old(self).lbd_levels@.contains(l) ==> final(self).lbd_levels@ == old(self).lbd_levels@)
                    && (!old(self).lbd_levels@.contains(l) ==> final(self).lbd_levels@ == old(self).lbd_levels@.push(l))
            },
    {
        let key = pred.get_unsigned_index() as usize;
        if key >= self.seen.len() || self.seen[key] {
            return true;
        }
        let level = match history.get_literal_level(&pred) {
            Some(l) => l,
            None => { return true; },
        };
        let internal = if key < analysis.pos_of.len() {
            match analysis.pos_of[key] {
                Some(pos) => (pos < region.len() && region[pos]) || (pos < covered.len() && covered[pos]),
                None => false,
            }
        } else {
            false
        };
        if internal || (!include_current && level >= analysis.current_level) {
            return true;
        }
        let ghost old_levels = self.levels@;
        let ghost old_lbd = self.lbd_levels@;
        let ghost old_lits = self.literals@;
        if !contains_usize(&self.lbd_levels, level) {
            if self.lbd_levels.len() >= 2 {
                return false;
            }
            self.lbd_levels.push(level);
        }
        proof { lemma_count_true_set(self.seen@, key as int); }
        self.seen.set(key, true);
        let neg = pred.negated();
        self.literals.push(neg);
        self.levels.push(level);
        proof {
            assert(self.levels@.drop_last() =~= old_levels);
            assert forall|x: usize| self.levels@.contains(x) <==> self.lbd_levels@.contains(x) by {
                vstd::seq_lib::lemma_seq_contains_after_push(old_levels, level, x);
                if old_lbd.contains(level) {
                    assert(self.lbd_levels@ == old_lbd);
                } else {
                    vstd::seq_lib::lemma_seq_contains_after_push(old_lbd, level, x);
                }
            }
            assert(history.level_of(neg) == history.level_of(pred));
            assert forall|i: int| 0 <= i < self.literals@.len() - lit_off implies
                history.level_of(#[trigger] self.literals@[lit_off + i]) == Some(self.levels@[lvl_off + i])
                && (include_current || self.levels@[lvl_off + i] < analysis.current_level) by {
                if i < old_lits.len() - lit_off {
                    assert(self.literals@[lit_off + i] == old_lits[lit_off + i]);
                    assert(self.levels@[lvl_off + i] == old_levels[lvl_off + i]);
                }
            }
            assert forall|i: int| 0 <= i < self.literals@.len() implies (#[trigger] self.literals@[i]).wf() && self.literals@[i].var() < n by {
                if i < old_lits.len() {
                    assert(self.literals@[i] == old_lits[i]);
                }
            }
        }
        true
    }
}

/// Literal `p` is the negation of literal `j` of the clause feeding node `idx`: the conflict
/// clause for the conflict node, the reason clause (without the node's own literal) for a trail
/// node.
spec fn feeds(analysis: &ConflictAnalysis, formula: &Formula, conflict_clause_idx: usize, idx: int, j: int, p: Literal) -> bool {
    if idx == analysis.trail@.len() {
        0 <= j < formula.clauses@[conflict_clause_idx as int]@.len()
            && p@ == -formula.clauses@[conflict_clause_idx as int]@[j]@
    } else {
        match analysis.reason_of@[idx] {
            Some(ri) => 0 <= j < formula.clauses@[ri as int]@.len()
                && formula.clauses@[ri as int]@[j] != analysis.trail@[idx]
                && p@ == -formula.clauses@[ri as int]@[j]@,
            None => false,
        }
    }
}

/// `p` is an external predecessor that a DIP clause over `region` collects: it feeds a node of
/// `region`, is no node of `region` or `covered`, and has a recorded level that counts.
spec fn collected_pred(region: &Vec<bool>, covered: &Vec<bool>, include_current: bool, analysis: &ConflictAnalysis,
    history: &History, formula: &Formula, conflict_clause_idx: usize, p: Literal) -> bool {
    &&& exists|idx: int, j: int| 0 <= idx < region@.len() && region@[idx] && #[trigger] feeds(analysis, formula, conflict_clause_idx, idx, j, p)
    &&& counted(region, covered, include_current, analysis, history, p)
}

/// `p` is no node of `region` or `covered` and has a recorded level that counts.
spec fn counted(region: &Vec<bool>, covered: &Vec<bool>, include_current: bool, analysis: &ConflictAnalysis,
    history: &History, p: Literal) -> bool {
    &&& !internal_node(analysis, region, covered, p.uidx() as int)
    &&& match history.level_of(p) {
        Some(l) => include_current || l < analysis.current_level,
        None => false,
    }
}

/// `l` is the initial level or the level of a collected predecessor.
spec fn level_source(region: &Vec<bool>, covered: &Vec<bool>, include_current: bool, initial_level: Option<usize>,
    analysis: &ConflictAnalysis, history: &History, formula: &Formula, conflict_clause_idx: usize, l: usize) -> bool {
    ||| initial_level == Some(l)
    ||| exists|p: Literal| #[trigger] collected_pred(region, covered, include_current, analysis, history, formula, conflict_clause_idx, p)
        && history.level_of(p) == Some(l)
}

/// The negation of `p` is among the literals of `lits` from position `off` on.
spec fn emitted(lits: Seq<Literal>, off: int, p: Literal) -> bool {
    exists|i: int| off <= i < lits.len() && #[trigger] lits[i]@ == -p@
}

/// `lits` from position `off` on lists, once each, exactly the negations of the collected
/// predecessors.
#[verifier::opaque]
spec fn lists_collected(lits: Seq<Literal>, off: int, region: &Vec<bool>, covered: &Vec<bool>, include_current: bool,
    analysis: &ConflictAnalysis, history: &History, formula: &Formula, conflict_clause_idx: usize) -> bool {
    &&& forall|p: Literal| #[trigger] collected_pred(region, covered, include_current, analysis, history, formula,
        conflict_clause_idx, p) ==> emitted(lits, off, p)
    &&& forall|i: int| off <= i < lits.len() ==> #[trigger] negates_collected(lits[i], region, covered, include_current,
        analysis, history, formula, conflict_clause_idx)
    &&& forall|i: int, k: int| off <= i < k < lits.len() ==> lits[i] != lits[k]
}

/// `lit` is the negation of a collected predecessor.
spec fn negates_collected(lit: Literal, region: &Vec<bool>, covered: &Vec<bool>, include_current: bool,
    analysis: &ConflictAnalysis, history: &History, formula: &Formula, conflict_clause_idx: usize) -> bool {
    exists|p: Literal| #[trigger] collected_pred(region, covered, include_current, analysis, history, formula,
        conflict_clause_idx, p) && lit@ == -p@
}

/// What the collection of a DIP clause keeps between visits: the literals from `lit_off` on are
/// distinct negations of collected predecessors, `seen` marks exactly their predecessors' dense
/// indices, the distinct levels are listed once each, and the levels before `lvl_off` are the
/// initial one.
spec fn collect_state(c: PredCollector, lit_off: int, lvl_off: int, region: &Vec<bool>, covered: &Vec<bool>,
    include_current: bool, initial_level: Option<usize>, analysis: &ConflictAnalysis, history: &History,
    formula: &Formula, conflict_clause_idx: usize) -> bool {
    &&& forall|i: int| #![trigger c.literals@[i]] lit_off <= i < c.literals@.len() ==> exists|p: Literal|
        #[trigger] collected_pred(region, covered, include_current, analysis, history, formula, conflict_clause_idx, p)
        && c.literals@[i]@ == -p@
    &&& forall|k: int| 0 <= k < c.seen@.len() ==> (#[trigger] c.seen@[k] <==> exists|i: int| lit_off <= i < c.literals@.len()
        && unsigned_index_of(-c.literals@[i]@) == k)
    &&& forall|i: int, k: int| lit_off <= i < k < c.literals@.len() ==> c.literals@[i] != c.literals@[k]
    &&& forall|a: int, b: int| 0 <= a < b < c.lbd_levels@.len() ==> c.lbd_levels@[a] != c.lbd_levels@[b]
    &&& (lvl_off == 1 ==> c.levels@.len() >= 1 && initial_level == Some(c.levels@[0]))
    &&& (lvl_off == 0 ==> initial_level is None)
}

/// Three distinct levels come from the initial level and the collected predecessors.
spec fn three_levels(region: &Vec<bool>, covered: &Vec<bool>, include_current: bool, initial_level: Option<usize>,
    analysis: &ConflictAnalysis, history: &History, formula: &Formula, conflict_clause_idx: usize) -> bool {
    exists|l1: usize, l2: usize, l3: usize| l1 != l2 && l1 != l3 && l2 != l3
        && #[trigger] level_source(region, covered, include_current, initial_level, analysis, history, formula, conflict_clause_idx, l1)
        && #[trigger] level_source(region, covered, include_current, initial_level, analysis, history, formula, conflict_clause_idx, l2)
        && #[trigger] level_source(region, covered, include_current, initial_level, analysis, history, formula, conflict_clause_idx, l3)
}

/// Every level listed by the collector is a level source.
proof fn lemma_levels_are_sources(c: PredCollector, lit_off: int, lvl_off: int, region: &Vec<bool>, covered: &Vec<bool>,
    include_current: bool, initial_level: Option<usize>, analysis: &ConflictAnalysis, history: &History,
    formula: &Formula, conflict_clause_idx: usize, n: nat, m: int)
    requires
        c.inv(history, n, lit_off as nat, lvl_off as nat, analysis.current_level, include_current),
        collect_state(c, lit_off, lvl_off, region, covered, include_current, initial_level, analysis, history, formula, conflict_clause_idx),
        0 <= lit_off <= 1,
        0 <= lvl_off <= 1,
        0 <= m < c.levels@.len(),
    ensures
        level_source(region, covered, include_current, initial_level, analysis, history, formula, conflict_clause_idx, c.levels@[m]),
{
    if m < lvl_off {
    } else {
        let i = m - lvl_off + lit_off;
        assert(c.literals@[lit_off + (m - lvl_off)] == c.literals@[i]);
        assert(history.level_of(c.literals@[i]) == Some(c.levels@[m]));
        let p = choose|p: Literal| #[trigger] collected_pred(region, covered, include_current, analysis, history, formula, conflict_clause_idx, p)
            && c.literals@[i]@ == -p@;
        assert(p.var() == c.literals@[i].var());
        assert(history.level_of(p) == Some(c.levels@[m]));
    }
}

/// A visit keeps the collection state, records a collected predecessor, and fails only on
/// three distinct levels.
proof fn lemma_collect_step(c0: PredCollector, c1: PredCollector, ok: bool, pred: Literal, region: &Vec<bool>, covered: &Vec<bool>,
    include_current: bool, initial_level: Option<usize>, analysis: &ConflictAnalysis, history: &History,
    formula: &Formula, conflict_clause_idx: usize, n: nat, lit_off: int, lvl_off: int, idx: int, j: int)
    requires
        c0.inv(history, n, lit_off as nat, lvl_off as nat, analysis.current_level, include_current),
        c1.inv(history, n, lit_off as nat, lvl_off as nat, analysis.current_level, include_current),
        collect_state(c0, lit_off, lvl_off, region, covered, include_current, initial_level, analysis, history, formula, conflict_clause_idx),
        0 <= lit_off <= 1,
        0 <= lvl_off <= 1,
        pred.wf(),
        pred.var() < n,
        0 <= idx < region@.len(),
        region@[idx],
        feeds(analysis, formula, conflict_clause_idx, idx, j, pred),
        forall|i: int| 0 <= i < c0.levels@.len() ==> c1.levels@[i] == c0.levels@[i],
        !c0.emits(pred, region, covered, include_current, analysis, history) ==> ok && c1 == c0,
        c0.emits(pred, region, covered, include_current, analysis, history) ==> {
            let l = history.level_of(pred)->0;
            &&& ok == (c0.lbd_levels@.contains(l) || c0.lbd_levels@.len() < 2)
            &&& !ok ==> c1 == c0
            &&& ok ==> c1.levels@ == c0.levels@.push(l)
                && c1.literals@.len() == c0.literals@.len() + 1
                && c1.literals@.last()@ == -pred@
                && c1.seen@ == c0.seen@.update(pred.uidx() as int, true)
                && (c0.lbd_levels@.contains(l) ==> c1.lbd_levels@ == c0.lbd_levels@)
                && (!c0.lbd_levels@.contains(l) ==> c1.lbd_levels@ == c0.lbd_levels@.push(l))
        },
        forall|i: int| 0 <= i < c0.literals@.len() ==> c1.literals@[i] == c0.literals@[i],
    ensures
        ok ==> collect_state(c1, lit_off, lvl_off, region, covered, include_current, initial_level, analysis, history, formula, conflict_clause_idx),
        ok ==> forall|p: Literal| emitted(c0.literals@, lit_off, p) ==> emitted(c1.literals@, lit_off, p),
        ok && collected_pred(region, covered, include_current, analysis, history, formula, conflict_clause_idx, pred)
            ==> emitted(c1.literals@, lit_off, pred),
        !ok ==> three_levels(region, covered, include_current, initial_level, analysis, history, formula, conflict_clause_idx),
{
    let key = pred.uidx() as int;
    assert(key < 2 * n);
    let cp = collected_pred(region, covered, include_current, analysis, history, formula, conflict_clause_idx, pred);
    if c0.emits(pred, region, covered, include_current, analysis, history) {
        assert(cp);
        let l = history.level_of(pred)->0;
        if ok {
            let old_lits = c0.literals@;
            let new_lits = c1.literals@;
            assert(new_lits =~= old_lits.push(new_lits.last()));
            assert forall|i: int| #![trigger new_lits[i]] lit_off <= i < new_lits.len() implies exists|p: Literal|
                #[trigger] collected_pred(region, covered, include_current, analysis, history, formula, conflict_clause_idx, p)
                && new_lits[i]@ == -p@ by {
                if i == new_lits.len() - 1 {
                    assert(new_lits[i]@ == -pred@);
                } else {
                    assert(new_lits[i] == old_lits[i]);
                }
            }
            assert forall|k: int| 0 <= k < c1.seen@.len() implies (#[trigger] c1.seen@[k] <==> exists|i: int| lit_off <= i < new_lits.len()
                && unsigned_index_of(-new_lits[i]@) == k) by {
                let last = new_lits.len() - 1;
                assert(unsigned_index_of(-new_lits[last]@) == key);
                if k != key {
                    if c0.seen@[k] {
                        let i = choose|i: int| lit_off <= i < old_lits.len() && unsigned_index_of(-old_lits[i]@) == k;
                        assert(new_lits[i] == old_lits[i]);
                    }
                    if exists|i: int| lit_off <= i < new_lits.len() && unsigned_index_of(-new_lits[i]@) == k {
                        let i = choose|i: int| lit_off <= i < new_lits.len() && unsigned_index_of(-new_lits[i]@) == k;
                        assert(i != last);
                        assert(new_lits[i] == old_lits[i]);
                    }
                }
            }
            assert forall|i: int, k: int| lit_off <= i < k < new_lits.len() implies new_lits[i] != new_lits[k] by {
                if k == new_lits.len() - 1 {
                    assert(new_lits[i] == old_lits[i]);
                    if new_lits[i] == new_lits[k] {
                        assert(unsigned_index_of(-old_lits[i]@) == key);
                        assert(c0.seen@[key]);
                    }
                } else {
                    assert(new_lits[i] == old_lits[i] && new_lits[k] == old_lits[k]);
                }
            }
            assert forall|p: Literal| emitted(c0.literals@, lit_off, p) implies emitted(c1.literals@, lit_off, p) by {
                let i = choose|i: int| lit_off <= i < old_lits.len() && #[trigger] old_lits[i]@ == -p@;
                assert(new_lits[i] == old_lits[i]);
            }
            assert(new_lits[new_lits.len() - 1]@ == -pred@);
            assert(emitted(c1.literals@, lit_off, pred));
            if lvl_off == 1 {
                assert(c1.levels@[0] == c0.levels@[0]);
            }
            if !c0.lbd_levels@.contains(l) {
                assert forall|a: int, b: int| 0 <= a < b < c1.lbd_levels@.len() implies c1.lbd_levels@[a] != c1.lbd_levels@[b] by {
                    if b == c1.lbd_levels@.len() - 1 {
                        assert(c1.lbd_levels@[a] == c0.lbd_levels@[a]);
                    }
                }
            }
        } else {
            let x0 = c0.lbd_levels@[0];
            let x1 = c0.lbd_levels@[1];
            assert(c0.lbd_levels@.contains(x0));
            assert(c0.lbd_levels@.contains(x1));
            assert(c0.levels@.contains(x0));
            assert(c0.levels@.contains(x1));
            let m0 = choose|m: int| 0 <= m < c0.levels@.len() && c0.levels@[m] == x0;
            let m1 = choose|m: int| 0 <= m < c0.levels@.len() && c0.levels@[m] == x1;
            lemma_levels_are_sources(c0, lit_off, lvl_off, region, covered, include_current, initial_level, analysis, history,
                formula, conflict_clause_idx, n, m0);
            lemma_levels_are_sources(c0, lit_off, lvl_off, region, covered, include_current, initial_level, analysis, history,
                formula, conflict_clause_idx, n, m1);
            assert(level_source(region, covered, include_current, initial_level, analysis, history, formula, conflict_clause_idx, l));
            assert(x0 != l && x1 != l && x0 != x1);
        }
    } else {
        if cp && ok {
            assert(c0.seen@[key]);
            let i = choose|i: int| lit_off <= i < c0.literals@.len() && unsigned_index_of(-c0.literals@[i]@) == key;
            assert(-c0.literals@[i]@ == pred@);
            assert(c1.literals@[i]@ == -pred@);
        }
    }
}

/// Once every collected predecessor is listed, each level source is among the distinct levels.
proof fn lemma_source_listed(c: PredCollector, lit_off: int, lvl_off: int, region: &Vec<bool>, covered: &Vec<bool>,
    include_current: bool, initial_level: Option<usize>, analysis: &ConflictAnalysis, history: &History,
    formula: &Formula, conflict_clause_idx: usize, n: nat, l: usize)
    requires
        c.inv(history, n, lit_off as nat, lvl_off as nat, analysis.current_level, include_current),
        lvl_off == 1 ==> c.levels@.len() >= 1 && initial_level == Some(c.levels@[0]),
        lvl_off == 0 ==> initial_level is None,
        0 <= lit_off <= 1,
        0 <= lvl_off <= 1,
        forall|p: Literal| #[trigger] collected_pred(region, covered, include_current, analysis, history, formula, conflict_clause_idx, p)
            ==> emitted(c.literals@, lit_off, p),
        level_source(region, covered, include_current, initial_level, analysis, history, formula, conflict_clause_idx, l),
    ensures
        c.lbd_levels@.contains(l),
{
    if initial_level == Some(l) {
        assert(c.levels@.contains(c.levels@[0]));
    } else {
        let p = choose|p: Literal| #[trigger] collected_pred(region, covered, include_current, analysis, history, formula,
            conflict_clause_idx, p) && history.level_of(p) == Some(l);
        assert(emitted(c.literals@, lit_off, p));
        let i = choose|i: int| lit_off <= i < c.literals@.len() && #[trigger] c.literals@[i]@ == -p@;
        let m = i - lit_off + lvl_off;
        assert(c.literals@[lit_off + (i - lit_off)] == c.literals@[i]);
        assert(history.level_of(c.literals@[i]) == Some(c.levels@[m]));
        assert(c.literals@[i].var() == p.var());
        assert(c.levels@[m] == l);
        assert(c.levels@.contains(l));
    }
}

/// Once every collected predecessor is listed, no three distinct levels come from them.
proof fn lemma_no_three_levels(c: PredCollector, lit_off: int, lvl_off: int, region: &Vec<bool>, covered: &Vec<bool>,
    include_current: bool, initial_level: Option<usize>, analysis: &ConflictAnalysis, history: &History,
    formula: &Formula, conflict_clause_idx: usize, n: nat)
    requires
        c.inv(history, n, lit_off as nat, lvl_off as nat, analysis.current_level, include_current),
        collect_state(c, lit_off, lvl_off, region, covered, include_current, initial_level, analysis, history, formula, conflict_clause_idx),
        0 <= lit_off <= 1,
        0 <= lvl_off <= 1,
        forall|p: Literal| #[trigger] collected_pred(region, covered, include_current, analysis, history, formula, conflict_clause_idx, p)
            ==> emitted(c.literals@, lit_off, p),
    ensures
        !three_levels(region, covered, include_current, initial_level, analysis, history, formula, conflict_clause_idx),
{
    if three_levels(region, covered, include_current, initial_level, analysis, history, formula, conflict_clause_idx) {
        let (l1, l2, l3) = choose|l1: usize, l2: usize, l3: usize| l1 != l2 && l1 != l3 && l2 != l3
            && #[trigger] level_source(region, covered, include_current, initial_level, analysis, history, formula, conflict_clause_idx, l1)
            && #[trigger] level_source(region, covered, include_current, initial_level, analysis, history, formula, conflict_clause_idx, l2)
            && #[trigger] level_source(region, covered, include_current, initial_level, analysis, history, formula, conflict_clause_idx, l3);
        lemma_source_listed(c, lit_off, lvl_off, region, covered, include_current, initial_level, analysis, history, formula,
            conflict_clause_idx, n, l1);
        lemma_source_listed(c, lit_off, lvl_off, region, covered, include_current, initial_level, analysis, history, formula,
            conflict_clause_idx, n, l2);
        lemma_source_listed(c, lit_off, lvl_off, region, covered, include_current, initial_level, analysis, history, formula,
            conflict_clause_idx, n, l3);
        let s = c.lbd_levels@;
        let a1 = choose|a: int| 0 <= a < s.len() && s[a] == l1;
        let a2 = choose|a: int| 0 <= a < s.len() && s[a] == l2;
        let a3 = choose|a: int| 0 <= a < s.len() && s[a] == l3;
        assert(s.len() <= 2);
        assert(a1 != a2 && a1 != a3 && a2 != a3);
        assert(false);
    }
}

/// One more clause position `j` of node `idx` is done: its predecessor was visited and
/// collected, or the position holds the node's own literal and feeds nothing.
proof fn lemma_feed_step(c0: PredCollector, c1: PredCollector, visited: bool, pred: Literal, region: &Vec<bool>,
    covered: &Vec<bool>, include_current: bool, analysis: &ConflictAnalysis, history: &History, formula: &Formula,
    conflict_clause_idx: usize, lit_off: int, idx: int, j: int)
    requires
        0 <= idx < region@.len(),
        region@[idx],
        forall|p: Literal, i: int, j2: int| ((0 <= i < idx && region@[i]) || (i == idx && j2 < j))
            && #[trigger] feeds(analysis, formula, conflict_clause_idx, i, j2, p)
            && counted(region, covered, include_current, analysis, history, p) ==> emitted(c0.literals@, lit_off, p),
        forall|p: Literal| emitted(c0.literals@, lit_off, p) ==> emitted(c1.literals@, lit_off, p),
        visited ==> feeds(analysis, formula, conflict_clause_idx, idx, j, pred),
        visited && collected_pred(region, covered, include_current, analysis, history, formula, conflict_clause_idx, pred)
            ==> emitted(c1.literals@, lit_off, pred),
        !visited ==> idx < analysis.trail@.len() && analysis.reason_of@[idx] is Some
            && 0 <= j < formula.clauses@[analysis.reason_of@[idx]->0 as int]@.len()
            && formula.clauses@[analysis.reason_of@[idx]->0 as int]@[j] == analysis.trail@[idx],
    ensures
        forall|p: Literal, i: int, j2: int| ((0 <= i < idx && region@[i]) || (i == idx && j2 < j + 1))
            && #[trigger] feeds(analysis, formula, conflict_clause_idx, i, j2, p)
            && counted(region, covered, include_current, analysis, history, p) ==> emitted(c1.literals@, lit_off, p),
{
    assert forall|p: Literal, i: int, j2: int| ((0 <= i < idx && region@[i]) || (i == idx && j2 < j + 1))
        && #[trigger] feeds(analysis, formula, conflict_clause_idx, i, j2, p)
        && counted(region, covered, include_current, analysis, history, p) implies emitted(c1.literals@, lit_off, p) by {
        if i == idx && j2 == j {
            if visited {
                assert(p@ == pred@);
                assert(collected_pred(region, covered, include_current, analysis, history, formula, conflict_clause_idx, pred));
                let w = choose|w: int| lit_off <= w < c1.literals@.len() && #[trigger] c1.literals@[w]@ == -pred@;
                assert(c1.literals@[w]@ == -p@);
            }
        } else {
            assert(emitted(c0.literals@, lit_off, p));
        }
    }
}

/// After every node of `region` has been visited, the collector lists exactly the collected
/// predecessors and no three distinct levels come from them.
proof fn lemma_collection_done(c: PredCollector, lit_off: int, lvl_off: int, region: &Vec<bool>, covered: &Vec<bool>,
    include_current: bool, initial_level: Option<usize>, analysis: &ConflictAnalysis, history: &History,
    formula: &Formula, conflict_clause_idx: usize, n: nat)
    requires
        c.inv(history, n, lit_off as nat, lvl_off as nat, analysis.current_level, include_current),
        collect_state(c, lit_off, lvl_off, region, covered, include_current, initial_level, analysis, history, formula, conflict_clause_idx),
        0 <= lit_off <= 1,
        0 <= lvl_off <= 1,
        forall|p: Literal, i: int, j: int| 0 <= i < region@.len() && region@[i]
            && #[trigger] feeds(analysis, formula, conflict_clause_idx, i, j, p)
            && counted(region, covered, include_current, analysis, history, p) ==> emitted(c.literals@, lit_off, p),
    ensures
        lists_collected(c.literals@, lit_off, region, covered, include_current, analysis, history, formula, conflict_clause_idx),
        !three_levels(region, covered, include_current, initial_level, analysis, history, formula, conflict_clause_idx),
{
    assert forall|p: Literal| #[trigger] collected_pred(region, covered, include_current, analysis, history, formula,
        conflict_clause_idx, p) implies emitted(c.literals@, lit_off, p) by {
        let (i, j) = choose|i: int, j: int| 0 <= i < region@.len() && region@[i]
            && #[trigger] feeds(analysis, formula, conflict_clause_idx, i, j, p);
    }
    lemma_no_three_levels(c, lit_off, lvl_off, region, covered, include_current, initial_level, analysis, history,
        formula, conflict_clause_idx, n);
    let lits = c.literals@;
    assert(lists_collected(lits, lit_off, region, covered, include_current, analysis, history, formula, conflict_clause_idx)) by {
        reveal(lists_collected);
        assert forall|i: int| lit_off <= i < lits.len() implies #[trigger] negates_collected(lits[i], region, covered,
            include_current, analysis, history, formula, conflict_clause_idx) by {
            let x = lits[i];
            let p = choose|p: Literal| #[trigger] collected_pred(region, covered, include_current, analysis, history, formula,
                conflict_clause_idx, p) && c.literals@[i]@ == -p@;
            assert(collected_pred(region, covered, include_current, analysis, history, formula, conflict_clause_idx, p));
            assert(x@ == -p@);
        }
    }
}

/// Collects the literals of a DIP clause: the negations of the predecessors of the nodes of
/// `region` that lie outside it (and outside `covered`), each variable once, after the optional
/// initial literal and level. Predecessors at the current level count only when
/// `include_current_level_external_preds` is set. `None` once more distinct levels than the cap
/// are met.
#[verifier::rlimit(40)]
fn collect_external_preds_capped(
    region: &Vec<bool>,
    covered: &Vec<bool>,
    include_current_level_external_preds: bool,
    initial_literal: Option<Literal>,
    initial_level: Option<usize>,
    analysis: &ConflictAnalysis,
    history: &History,
    formula: &Formula,
    conflict_clause_idx: usize,
) -> (r: Option<(Vec<Literal>, Vec<usize>)>)
    requires
        formula.wf(),
        formula.tracks(history),
        analysis.wf(history, formula.n_vars()),
        conflict_clause_idx < formula.clauses@.len(),
        region@.len() == analysis.trail@.len() + 1,
        initial_literal matches Some(l) ==> l.wf() && l.var() < formula.n_vars(),
    ensures
        r matches Some((lits, levels)) ==> {
            let lit_off: int = if initial_literal is Some { 1 } else { 0 };
            let lvl_off: int = if initial_level is Some { 1 } else { 0 };
            &&& lits_in_range(lits@, formula.n_vars())
            &&& distinct_count(levels@) <= DIP_MAX_CLAUSE_LBD
            &&& levels@.len() <= 2 * formula.n_vars() + 1
            &&& lits@.len() - lit_off == levels@.len() - lvl_off
            &&& (initial_literal matches Some(l) ==> lits@.len() >= 1 && lits@[0] == l)
            &&& (initial_level matches Some(v) ==> levels@.len() >= 1 && levels@[0] == v)
            &&& forall|i: int| lit_off <= i < lits@.len() ==>
                history.level_of(#[trigger] lits@[i]) == Some(levels@[i - lit_off + lvl_off])
                && (include_current_level_external_preds || levels@[i - lit_off + lvl_off] < analysis.current_level)
            &&& lists_collected(lits@, lit_off, region, covered, include_current_level_external_preds, analysis, history,
                formula, conflict_clause_idx)
        },
        r is None <==> three_levels(region, covered, include_current_level_external_preds, initial_level, analysis, history,
            formula, conflict_clause_idx),
{
    let ghost n = formula.n_vars();
    let conflict_idx = analysis.trail.len();
    let mut seen: Vec<bool> = Vec::new();
    for _i in 0..analysis.pos_of.len()
        invariant
            seen@.len() == _i,
            forall|k: int| 0 <= k < seen@.len() ==> !(#[trigger] seen@[k]),
    {
        seen.push(false);
    }
    proof {
        assert(count_true(seen@) == 0) by {
            lemma_count_true_zero(seen@);
        }
    }
    let mut c = PredCollector { seen, lbd_levels: Vec::new(), literals: Vec::new(), levels: Vec::new() };
    if let Some(level) = initial_level {
        c.lbd_levels.push(level);
        c.levels.push(level);
        proof {
            assert(c.levels@.drop_last() =~= Seq::<usize>::empty());
            assert forall|x: usize| c.levels@.contains(x) <==> c.lbd_levels@.contains(x) by {
                if c.levels@.contains(x) {
                    assert(c.lbd_levels@[0] == x);
                }
                if c.lbd_levels@.contains(x) {
                    assert(c.levels@[0] == x);
                }
            }
        }
    }
    if let Some(lit) = initial_literal {
        c.literals.push(lit);
    }
    let ghost lit_off: nat = if initial_literal is Some { 1 } else { 0 };
    let ghost lvl_off: nat = if initial_level is Some { 1 } else { 0 };
    proof {
        match initial_level {
            Some(v) => {
                assert(c.levels@ =~= seq![v]);
                assert(seq![v].drop_last() =~= Seq::<usize>::empty());
                assert(!Seq::<usize>::empty().contains(v));
                assert(distinct_count(Seq::<usize>::empty()) == 0);
                assert(distinct_count(c.levels@) == 1);
            },
            None => {
                assert forall|x: usize| c.levels@.contains(x) <==> c.lbd_levels@.contains(x) by {}
                assert(distinct_count(c.levels@) == 0);
            },
        }
        assert(lits_in_range(c.literals@, n));
        assert(c.inv(history, n, lit_off, lvl_off, analysis.current_level, include_current_level_external_preds));
    }
    let ghost first_lit = c.literals@;
    let ghost first_lvl = c.levels@;
    let ghost inc = include_current_level_external_preds;
    proof {
        assert(collect_state(c, lit_off as int, lvl_off as int, region, covered, inc, initial_level, analysis, history,
            formula, conflict_clause_idx)) by {
            if lvl_off == 1 {
                assert(c.levels@[0] == initial_level->0);
            }
        }
    }
    for idx in 0..region.len()
        invariant
            formula.wf(),
            formula.tracks(history),
            analysis.wf(history, n),
            n == formula.n_vars(),
            conflict_idx == analysis.trail@.len(),
            conflict_clause_idx < formula.clauses@.len(),
            region@.len() == conflict_idx + 1,
            inc == include_current_level_external_preds,
            lit_off == (if initial_literal is Some { 1nat } else { 0nat }),
            lvl_off == (if initial_level is Some { 1nat } else { 0nat }),
            c.inv(history, n, lit_off, lvl_off, analysis.current_level, include_current_level_external_preds),
            c.literals@.len() >= first_lit.len(),
            c.levels@.len() >= first_lvl.len(),
            forall|i: int| 0 <= i < first_lit.len() ==> c.literals@[i] == first_lit[i],
            forall|i: int| 0 <= i < first_lvl.len() ==> c.levels@[i] == first_lvl[i],
            first_lit.len() == lit_off,
            first_lvl.len() == lvl_off,
            initial_literal matches Some(l) ==> first_lit[0] == l,
            initial_level matches Some(v) ==> first_lvl[0] == v,
            collect_state(c, lit_off as int, lvl_off as int, region, covered, inc, initial_level, analysis, history,
                formula, conflict_clause_idx),
            forall|p: Literal, i: int, j: int| 0 <= i < idx && region@[i]
                && #[trigger] feeds(analysis, formula, conflict_clause_idx, i, j, p)
                && counted(region, covered, inc, analysis, history, p) ==> emitted(c.literals@, lit_off as int, p),
    {
        if region[idx] {
            if idx == conflict_idx {
                let lits = &formula.clauses[conflict_clause_idx].literals;
                proof { assert(formula.clause_fits(formula.clauses@[conflict_clause_idx as int])); }
                for j in 0..lits.len()
                    invariant
                        *lits == formula.clauses@[conflict_clause_idx as int].literals,
                        formula.clause_fits(formula.clauses@[conflict_clause_idx as int]),
                        n == formula.n_vars(),
                        idx == conflict_idx,
                        conflict_idx == analysis.trail@.len(),
                        region@.len() == conflict_idx + 1,
                        region@[idx as int],
                        conflict_clause_idx < formula.clauses@.len(),
                        inc == include_current_level_external_preds,
                        0 <= lit_off <= 1,
                        0 <= lvl_off <= 1,
                        c.inv(history, n, lit_off, lvl_off, analysis.current_level, include_current_level_external_preds),
                        c.literals@.len() >= first_lit.len(),
                        c.levels@.len() >= first_lvl.len(),
                        forall|i: int| 0 <= i < first_lit.len() ==> c.literals@[i] == first_lit[i],
                        forall|i: int| 0 <= i < first_lvl.len() ==> c.levels@[i] == first_lvl[i],
                        collect_state(c, lit_off as int, lvl_off as int, region, covered, inc, initial_level, analysis, history,
                            formula, conflict_clause_idx),
                        forall|p: Literal, i: int, j2: int| ((0 <= i < idx && region@[i]) || (i == idx && j2 < j))
                            && #[trigger] feeds(analysis, formula, conflict_clause_idx, i, j2, p)
                            && counted(region, covered, inc, analysis, history, p) ==> emitted(c.literals@, lit_off as int, p),
                {
                    proof {
                        assert(formula.clauses@[conflict_clause_idx as int]@[j as int].wf());
                        assert(formula.clauses@[conflict_clause_idx as int]@[j as int].var() < n);
                    }
                    let pred = lits[j].negated();
                    let ghost c0 = c;
                    let ok = c.visit(pred, region, covered, include_current_level_external_preds, analysis, history,
                        Ghost(n), Ghost(lit_off), Ghost(lvl_off));
                    proof {
                        assert(feeds(analysis, formula, conflict_clause_idx, idx as int, j as int, pred));
                        lemma_collect_step(c0, c, ok, pred, region, covered, inc, initial_level, analysis, history, formula,
                            conflict_clause_idx, n, lit_off as int, lvl_off as int, idx as int, j as int);
                    }
                    if !ok {
                        return None;
                    }
                    proof {
                        lemma_feed_step(c0, c, true, pred, region, covered, inc, analysis, history, formula, conflict_clause_idx,
                            lit_off as int, idx as int, j as int);
                    }
                }
            } else {
                if let Some(reason_idx) = analysis.reason_of[idx] {
                    proof { lemma_reason_of_below(analysis, history, formula, idx as int); }
                    let lit = analysis.trail[idx];
                    let rl = &formula.clauses[reason_idx].literals;
                    proof { assert(formula.clause_fits(formula.clauses@[reason_idx as int])); }
                    for j in 0..rl.len()
                        invariant
                            *rl == formula.clauses@[reason_idx as int].literals,
                            formula.clause_fits(formula.clauses@[reason_idx as int]),
                            n == formula.n_vars(),
                            idx < conflict_idx,
                            conflict_idx == analysis.trail@.len(),
                            region@.len() == conflict_idx + 1,
                            region@[idx as int],
                            analysis.reason_of@[idx as int] == Some(reason_idx),
                            lit == analysis.trail@[idx as int],
                            reason_idx < formula.clauses@.len(),
                            inc == include_current_level_external_preds,
                            0 <= lit_off <= 1,
                            0 <= lvl_off <= 1,
                            c.inv(history, n, lit_off, lvl_off, analysis.current_level, include_current_level_external_preds),
                            c.literals@.len() >= first_lit.len(),
                            c.levels@.len() >= first_lvl.len(),
                            forall|i: int| 0 <= i < first_lit.len() ==> c.literals@[i] == first_lit[i],
                            forall|i: int| 0 <= i < first_lvl.len() ==> c.levels@[i] == first_lvl[i],
                            collect_state(c, lit_off as int, lvl_off as int, region, covered, inc, initial_level, analysis, history,
                                formula, conflict_clause_idx),
                            forall|p: Literal, i: int, j2: int| ((0 <= i < idx && region@[i]) || (i == idx && j2 < j))
                                && #[trigger] feeds(analysis, formula, conflict_clause_idx, i, j2, p)
                                && counted(region, covered, inc, analysis, history, p) ==> emitted(c.literals@, lit_off as int, p),
                    {
                        proof {
                            assert(formula.clauses@[reason_idx as int]@[j as int].wf());
                            assert(formula.clauses@[reason_idx as int]@[j as int].var() < n);
                        }
                        if rl[j] != lit {
                            let pred = rl[j].negated();
                            let ghost c0 = c;
                            let ok = c.visit(pred, region, covered, include_current_level_external_preds, analysis, history,
                                Ghost(n), Ghost(lit_off), Ghost(lvl_off));
                            proof {
                                assert(feeds(analysis, formula, conflict_clause_idx, idx as int, j as int, pred));
                                lemma_collect_step(c0, c, ok, pred, region, covered, inc, initial_level, analysis, history, formula,
                                    conflict_clause_idx, n, lit_off as int, lvl_off as int, idx as int, j as int);
                            }
                            if !ok {
                                return None;
                            }
                            proof {
                                lemma_feed_step(c0, c, true, pred, region, covered, inc, analysis, history, formula,
                                    conflict_clause_idx, lit_off as int, idx as int, j as int);
                            }
                        } else {
                            proof {
                                lemma_feed_step(c, c, false, lit, region, covered, inc, analysis, history, formula,
                                    conflict_clause_idx, lit_off as int, idx as int, j as int);
                            }
                        }
                    }
                }
            }
        }
    }
    proof {
        lemma_count_true_le(c.seen@);
        lemma_distinct_count_le(c.levels@);
        assert forall|i: int| lit_off <= i < c.literals@.len() implies
            history.level_of(#[trigger] c.literals@[i]) == Some(c.levels@[i - lit_off + lvl_off])
            && (include_current_level_external_preds || c.levels@[i - lit_off + lvl_off] < analysis.current_level) by {
            let k = i - lit_off;
            assert(c.literals@[lit_off + k] == c.literals@[i]);
            assert(c.levels@[lvl_off + k] == c.levels@[i - lit_off + lvl_off]);
        }
        lemma_collection_done(c, lit_off as int, lvl_off as int, region, covered, inc, initial_level, analysis, history,
            formula, conflict_clause_idx, n);
    }
    Some((c.literals, c.levels))
}

/// A sequence with no set entry counts none.
proof fn lemma_count_true_zero(s: Seq<bool>)
    requires
        forall|k: int| 0 <= k < s.len() ==> !(#[trigger] s[k]),
    ensures
        count_true(s) == 0,
    decreases s.len(),
{
    if s.len() > 0 {
        lemma_count_true_zero(s.drop_last());
    }
}

/// Every recorded reason of a node of the analysed level names a clause of the formula.
proof fn lemma_reason_of_below(analysis: &ConflictAnalysis, history: &History, formula: &Formula, idx: int)
    requires
        formula.tracks(history),
        analysis.wf(history, formula.n_vars()),
        0 <= idx < analysis.trail@.len(),
        analysis.reason_of@[idx] is Some,
    ensures
        analysis.reason_of@[idx]->0 < formula.clauses@.len(),
{
    let l = history.decision_levels@.last();
    assert(history.decision_levels@[history.decision_levels@.len() - 1].reasons_below(formula.clauses@.len()));
    let implied = Seq::new(l.implied_literals@.len(), |i: int| l.reason_spec(l.implied_literals@[i].0));
    match l.decision_literal {
        Some(d) => {
            if idx >= 1 {
                assert(analysis.reason_of@[idx] == implied[idx - 1]);
            }
        },
        None => {
            assert(analysis.reason_of@[idx] == implied[idx]);
        },
    }
}

/// No sequence has fewer entries than distinct values.
proof fn lemma_distinct_count_le(s: Seq<usize>)
    ensures
        distinct_count(s) <= s.len(),
    decreases s.len(),
{
    if s.len() > 0 {
        lemma_distinct_count_le(s.drop_last());
    }
}

/// The two clauses found for a dominating pair `(dip_a, dip_b)`, with their LBDs and the highest
/// levels below the current one that they hold.
struct DipCandidate {
    dip_a: Literal,
    dip_b: Literal,
    pre_clause_without_z: Vec<Literal>,
    post_clause_without_z: Vec<Literal>,
    pre_lbd: i64,
    post_lbd: i64,
    l_c: usize,
    l_d: usize,
}

/// Builds the pre clause (the negated first UIP with the outside predecessors of the region
/// between the UIP and the pair) and the post clause (the outside predecessors of the region
/// between the pair and the conflict), for the pair at trail positions `dip_a_pos` and
/// `dip_b_pos`. `None` when the pair is degenerate, the conflict is not reached from the pair,
/// the post clause is empty or an LBD exceeds the cap.
fn find_capped_clauses_from_dip_pair(
    analysis: &ConflictAnalysis,
    history: &History,
    formula: &Formula,
    conflict_clause_idx: usize,
    dip_a_pos: usize,
    dip_b_pos: usize,
) -> (r: Option<DipCandidate>)
    requires
        formula.wf(),
        formula.tracks(history),
        analysis.wf(history, formula.n_vars()),
        conflict_clause_idx < formula.clauses@.len(),
        dip_a_pos < analysis.trail@.len(),
        dip_b_pos < analysis.trail@.len(),
    ensures
        r matches Some(c) ==> {
            &&& dip_a_pos != dip_b_pos && dip_a_pos != analysis.first_uip_pos && dip_b_pos != analysis.first_uip_pos
            &&& c.dip_a == analysis.trail@[dip_a_pos as int]
            &&& c.dip_b == analysis.trail@[dip_b_pos as int]
            &&& lits_in_range(c.pre_clause_without_z@, formula.n_vars())
            &&& lits_in_range(c.post_clause_without_z@, formula.n_vars())
            &&& c.pre_clause_without_z@.len() >= 1
            &&& c.pre_clause_without_z@[0]@ == -analysis.trail@[analysis.first_uip_pos as int]@
            &&& c.post_clause_without_z@.len() >= 1
            &&& 1 <= c.pre_lbd <= DIP_MAX_CLAUSE_LBD
            &&& 1 <= c.post_lbd <= DIP_MAX_CLAUSE_LBD
            &&& c.l_c == 0 || c.l_c < analysis.current_level
            &&& c.l_d == 0 || c.l_d < analysis.current_level
            &&& candidate_levels_ok(c, *analysis, *history)
        },
{
    if dip_a_pos == dip_b_pos || dip_a_pos == analysis.first_uip_pos || dip_b_pos == analysis.first_uip_pos {
        return None;
    }
    let ghost n = formula.n_vars();
    let conflict_idx = analysis.trail.len();
    proof {
        assert forall|u: int, k: int| 0 <= u < analysis.successors@.len() && 0 <= k < analysis.successors@[u]@.len()
            implies #[trigger] analysis.successors@[u]@[k] < analysis.successors@.len() by {
            assert(analysis.successors@[u]@[k] <= analysis.trail@.len());
        }
    }
    let pre_seeds: Vec<usize> = vec![analysis.first_uip_pos];
    let stops: Vec<usize> = vec![dip_a_pos, dip_b_pos];
    let mut pre_region = forward_region(analysis, &pre_seeds, &stops);
    pre_region.set(dip_a_pos, true);
    pre_region.set(dip_b_pos, true);

    let mut post_seeds: Vec<usize> = Vec::new();
    let sa = &analysis.successors[dip_a_pos];
    for k in 0..sa.len()
        invariant
            adj_ok(analysis.successors@),
            dip_a_pos < analysis.successors@.len(),
            *sa == analysis.successors@[dip_a_pos as int],
            forall|q: int| 0 <= q < post_seeds@.len() ==> #[trigger] post_seeds@[q] < analysis.successors@.len(),
    {
        proof { assert(analysis.successors@[dip_a_pos as int]@[k as int] < analysis.successors@.len()); }
        post_seeds.push(sa[k]);
    }
    let sb = &analysis.successors[dip_b_pos];
    for k in 0..sb.len()
        invariant
            adj_ok(analysis.successors@),
            dip_b_pos < analysis.successors@.len(),
            *sb == analysis.successors@[dip_b_pos as int],
            forall|q: int| 0 <= q < post_seeds@.len() ==> #[trigger] post_seeds@[q] < analysis.successors@.len(),
    {
        proof { assert(analysis.successors@[dip_b_pos as int]@[k as int] < analysis.successors@.len()); }
        post_seeds.push(sb[k]);
    }
    let no_stops: Vec<usize> = Vec::new();
    let post_region = forward_region(analysis, &post_seeds, &no_stops);
    if !post_region[conflict_idx] {
        return None;
    }

    let mut covered_none: Vec<bool> = Vec::new();
    for _i in 0..analysis.successors.len()
        invariant
            covered_none@.len() == _i,
    {
        covered_none.push(false);
    }
    let first_uip_lit = analysis.trail[analysis.first_uip_pos].negated();
    let (pre_lits, pre_levels) = match collect_external_preds_capped(&pre_region, &covered_none, true,
        Some(first_uip_lit), Some(analysis.current_level), analysis, history, formula, conflict_clause_idx) {
        Some(x) => x,
        None => { return None; },
    };

    let mut post_covered = covered_none;
    post_covered.set(dip_a_pos, true);
    post_covered.set(dip_b_pos, true);
    let (post_lits, post_levels) = match collect_external_preds_capped(&post_region, &post_covered, false,
        None, Some(analysis.current_level), analysis, history, formula, conflict_clause_idx) {
        Some(x) => x,
        None => { return None; },
    };

    if post_lits.len() == 0 {
        return None;
    }

    proof {
        lemma_distinct_count_pos(pre_levels@);
        lemma_distinct_count_pos(post_levels@);
    }
    let pre_lbd = Clause::calculate_lbd(pre_levels.as_slice());
    let post_lbd = Clause::calculate_lbd(post_levels.as_slice());
    if pre_lbd > DIP_MAX_CLAUSE_LBD || post_lbd > DIP_MAX_CLAUSE_LBD {
        return None;
    }
    let l_c = highest_non_current_level(&pre_levels, analysis.current_level);
    let l_d = highest_non_current_level(&post_levels, analysis.current_level);
    let ghost cur = analysis.current_level;
    proof {
        assert forall|i: int| 1 <= i < pre_lits@.len() implies history.level_of(#[trigger] pre_lits@[i]) is Some
            && (history.level_of(pre_lits@[i])->0 < cur ==> history.level_of(pre_lits@[i])->0 <= l_c) by {
            assert(history.level_of(pre_lits@[i]) == Some(pre_levels@[i]));
            assert(pre_levels@[i] < cur ==> pre_levels@[i] <= l_c);
        }
        if l_c != 0 {
            let j = choose|j: int| 0 <= j < pre_levels@.len() && #[trigger] pre_levels@[j] == l_c && l_c < cur;
            assert(j != 0);
            assert(history.level_of(pre_lits@[j]) == Some(pre_levels@[j]));
            assert(history.level_of(pre_lits@[j]) == Some(l_c));
        }
        assert forall|i: int| 0 <= i < post_lits@.len() implies history.level_of(#[trigger] post_lits@[i]) is Some
            && history.level_of(post_lits@[i])->0 < cur && history.level_of(post_lits@[i])->0 <= l_d by {
            assert(history.level_of(post_lits@[i]) == Some(post_levels@[i + 1]));
            assert(post_levels@[1 + i] < cur);
            assert(post_levels@[1 + i] <= l_d);
        }
        if l_d != 0 {
            let j = choose|j: int| 0 <= j < post_levels@.len() && #[trigger] post_levels@[j] == l_d && l_d < cur;
            assert(j != 0);
            assert(history.level_of(post_lits@[j - 1]) == Some(post_levels@[j]));
            assert(history.level_of(post_lits@[j - 1]) == Some(l_d));
        }
    }
    Some(DipCandidate {
        dip_a: analysis.trail[dip_a_pos],
        dip_b: analysis.trail[dip_b_pos],
        pre_clause_without_z: pre_lits,
        post_clause_without_z: post_lits,
        pre_lbd,
        post_lbd,
        l_c,
        l_d,
    })
}

/// A non-empty sequence has at least one distinct value.
proof fn lemma_distinct_count_pos(s: Seq<usize>)
    requires
        s.len() >= 1,
    ensures
        distinct_count(s) >= 1,
    decreases s.len(),
{
    if s.len() > 1 {
        lemma_distinct_count_pos(s.drop_last());
    }
}

/// An arc of the split flow network, with the index of its reverse arc in the list of `to`.
#[derive(Clone, Copy)]
struct FlowEdge {
    to: usize,
    rev: usize,
    cap: i32,
}

/// Every arc names a node of the network and a reverse arc that exists; no capacity is negative.
spec fn flow_ok(g: Seq<Vec<FlowEdge>>) -> bool {
    forall|u: int, k: int| 0 <= u < g.len() && 0 <= k < g[u]@.len() ==>
        (#[trigger] g[u]@[k]).to < g.len() && g[u]@[k].rev < g[g[u]@[k].to as int]@.len() && g[u]@[k].cap >= 0
}

/// The two networks have the same arcs, capacities aside.
spec fn same_arcs(a: Seq<Vec<FlowEdge>>, b: Seq<Vec<FlowEdge>>) -> bool {
    &&& a.len() == b.len()
    &&& forall|u: int| 0 <= u < a.len() ==> (#[trigger] a[u])@.len() == b[u]@.len()
    &&& forall|u: int, k: int| 0 <= u < a.len() && 0 <= k < a[u]@.len() ==>
        (#[trigger] a[u]@[k]).to == b[u]@[k].to && a[u]@[k].rev == b[u]@[k].rev
}

/// Each list of `b` extends the list of `a` at the same node.
spec fn arcs_extend(a: Seq<Vec<FlowEdge>>, b: Seq<Vec<FlowEdge>>) -> bool {
    &&& a.len() == b.len()
    &&& forall|u: int| 0 <= u < a.len() ==> (#[trigger] a[u])@.len() <= b[u]@.len()
    &&& forall|u: int, k: int| 0 <= u < a.len() && 0 <= k < a[u]@.len() ==> #[trigger] b[u]@[k] == a[u]@[k]
}

/// Adds the arc `from -> to` with capacity `cap` and its reverse arc of capacity 0; returns the
/// index of the new arc in the list of `from`.
fn add_flow_edge(graph: &mut Vec<Vec<FlowEdge>>, from: usize, to: usize, cap: i32) -> (r: usize)
    requires
        flow_ok(old(graph)@),
        from < old(graph)@.len(),
        to < old(graph)@.len(),
        cap >= 0,
    ensures
        flow_ok(final(graph)@),
        arcs_extend(old(graph)@, final(graph)@),
        r == old(graph)@[from as int]@.len(),
        r < final(graph)@[from as int]@.len(),
        final(graph)@[from as int]@[r as int].to == to,
        final(graph)@[from as int]@[r as int].cap == cap,
        forall|u: int| 0 <= u < final(graph)@.len() && u != from && u != to ==> #[trigger] final(graph)@[u] == old(graph)@[u],
{
    let ghost g0 = graph@;
    let forward_idx = graph[from].len();
    let reverse_idx = graph[to].len();
    graph[from].push(FlowEdge { to, rev: reverse_idx, cap });
    let ghost g1 = graph@;
    graph[to].push(FlowEdge { to: from, rev: forward_idx, cap: 0 });
    proof {
        assert forall|u: int, k: int| 0 <= u < g0.len() && 0 <= k < g0[u]@.len() implies #[trigger] graph@[u]@[k] == g0[u]@[k] by {
            if u == from as int {
                assert(g1[u]@[k] == g0[u]@[k]);
            }
            if u == to as int {
                assert(graph@[u]@[k] == g1[u]@[k]);
                if u == from as int {
                    assert(g1[u]@[k] == g0[u]@[k]);
                }
            }
        }
        assert(graph@[from as int]@[forward_idx as int] == FlowEdge { to, rev: reverse_idx, cap }) by {
            if from == to {
                assert(graph@[from as int]@[forward_idx as int] == g1[from as int]@[forward_idx as int]);
            }
        }
        assert forall|u: int, k: int| 0 <= u < graph@.len() && 0 <= k < graph@[u]@.len() implies
            (#[trigger] graph@[u]@[k]).to < graph@.len() && graph@[u]@[k].rev < graph@[graph@[u]@[k].to as int]@.len()
            && graph@[u]@[k].cap >= 0 by {
            if k < g0[u]@.len() {
                assert(graph@[u]@[k] == g0[u]@[k]);
                assert(graph@[g0[u]@[k].to as int]@.len() >= g0[g0[u]@[k].to as int]@.len());
            }
        }
    }
    forward_idx
}

/// The node a parent entry points back to.
spec fn pnode(p: Option<(usize, usize)>) -> usize {
    match p {
        Some(x) => x.0,
        None => 0,
    }
}

/// The arc index a parent entry records.
spec fn parc(p: Option<(usize, usize)>) -> usize {
    match p {
        Some(x) => x.1,
        None => 0,
    }
}

/// Flags each network node as reached (mirrors which `parent` entries are set).
spec fn parents_ok(parent: Seq<Option<(usize, usize)>>, found: Seq<bool>, g: Seq<Vec<FlowEdge>>, source: usize) -> bool {
    &&& parent.len() == g.len()
    &&& found.len() == g.len()
    &&& forall|v: int| 0 <= v < g.len() ==> (#[trigger] found[v] <==> parent[v] is Some)
    &&& forall|v: int| 0 <= v < g.len() && v != source && #[trigger] parent[v] is Some ==>
        pnode(parent[v]) < g.len() && parc(parent[v]) < g[pnode(parent[v]) as int]@.len()
        && g[pnode(parent[v]) as int]@[parc(parent[v]) as int].to == v
}

/// No arc with positive capacity leaves the nodes marked in `cut`.
spec fn cut_closed(g: Seq<Vec<FlowEdge>>, cut: Seq<bool>) -> bool {
    forall|v: int, k: int| 0 <= v < g.len() && 0 <= k < g[v]@.len() && cut[v] && (#[trigger] g[v]@[k]).cap > 0
        ==> cut[g[v]@[k].to as int]
}

/// Some set of nodes that no arc with positive capacity leaves holds `source` but not `sink`:
/// no path of such arcs leads from `source` to `sink`.
spec fn separated(g: Seq<Vec<FlowEdge>>, source: usize, sink: usize) -> bool {
    exists|cut: Seq<bool>| cut.len() == g.len() && cut[source as int] && !cut[sink as int] && #[trigger] cut_closed(g, cut)
}

/// Every arc with positive capacity out of node `v` leads to a node marked in `f`.
spec fn closed_at(g: Seq<Vec<FlowEdge>>, f: Seq<bool>, v: int) -> bool {
    forall|k: int| 0 <= k < g[v]@.len() && (#[trigger] g[v]@[k]).cap > 0 ==> f[g[v]@[k].to as int]
}

/// Search order of the reached nodes: `source` first, each other reached node after its
/// reached parent, through an arc with positive capacity; `ord` counts the nodes reached before.
spec fn bfs_order(parent: Seq<Option<(usize, usize)>>, found: Seq<bool>, ord: Seq<int>, g: Seq<Vec<FlowEdge>>,
    source: usize) -> bool {
    &&& ord.len() == g.len()
    &&& found[source as int]
    &&& forall|v: int| 0 <= v < g.len() && #[trigger] found[v] ==> 0 <= ord[v] < g.len() - count_false(found)
    &&& forall|v: int| 0 <= v < g.len() && #[trigger] found[v] && v != source ==>
        found[pnode(parent[v]) as int] && ord[pnode(parent[v]) as int] < ord[v]
        && g[pnode(parent[v]) as int]@[parc(parent[v]) as int].cap > 0
}

/// A sequence with no set flag counts every entry as unset.
proof fn lemma_count_false_none(s: Seq<bool>)
    requires
        forall|k: int| 0 <= k < s.len() ==> !(#[trigger] s[k]),
    ensures
        count_false(s) == s.len(),
    decreases s.len(),
{
    if s.len() > 0 {
        lemma_count_false_none(s.drop_last());
    }
}

/// Reaching the target of arc `e` of node `u` from `u` keeps the search order, and every node
/// that was closed stays closed.
proof fn lemma_bfs_reach(parent: Seq<Option<(usize, usize)>>, found: Seq<bool>, ord: Seq<int>, g: Seq<Vec<FlowEdge>>,
    source: usize, sink: usize, u: usize, e: usize, queue: Seq<usize>) -> (ord1: Seq<int>)
    requires
        flow_ok(g),
        parents_ok(parent, found, g, source),
        bfs_order(parent, found, ord, g, source),
        source < g.len(),
        u < g.len(),
        found[u as int],
        e < g[u as int]@.len(),
        g[u as int]@[e as int].cap > 0,
        !found[g[u as int]@[e as int].to as int],
        forall|v: int| 0 <= v < g.len() && #[trigger] found[v] && !queue.contains(v as usize) && v != u as int && v != sink
            ==> closed_at(g, found, v),
        forall|k: int| 0 <= k < e && (#[trigger] g[u as int]@[k]).cap > 0 ==> found[g[u as int]@[k].to as int],
        forall|q: int| 0 <= q < queue.len() ==> #[trigger] queue[q] < g.len() && found[queue[q] as int],
    ensures ({
        let to = g[u as int]@[e as int].to as int;
        let parent1 = parent.update(to, Some((u, e)));
        let found1 = found.update(to, true);
        &&& parents_ok(parent1, found1, g, source)
        &&& bfs_order(parent1, found1, ord1, g, source)
        &&& forall|v: int| 0 <= v < g.len() && #[trigger] found1[v] && !queue.contains(v as usize) && v != u as int && v != sink
            && v != to ==> closed_at(g, found1, v)
        &&& forall|k: int| 0 <= k < e + 1 && (#[trigger] g[u as int]@[k]).cap > 0 ==> found1[g[u as int]@[k].to as int]
        &&& forall|q: int| 0 <= q < queue.len() ==> #[trigger] queue[q] < g.len() && found1[queue[q] as int]
        &&& count_false(found1) + 1 == count_false(found)
        &&& found1[u as int]
    }),
{
    let n = g.len();
    let to = g[u as int]@[e as int].to as int;
    let parent1 = parent.update(to, Some((u, e)));
    let found1 = found.update(to, true);
    lemma_count_false_set(found, to);
    let nf0 = n - count_false(found);
    let ord1 = ord.update(to, nf0);
    assert forall|v: int| 0 <= v < n implies (#[trigger] found1[v] <==> parent1[v] is Some) by {
        if v != to {
            assert(found1[v] == found[v]);
            assert(parent1[v] == parent[v]);
        }
    }
    assert forall|v: int| 0 <= v < n && v != source && #[trigger] parent1[v] is Some implies
        pnode(parent1[v]) < n && parc(parent1[v]) < g[pnode(parent1[v]) as int]@.len()
        && g[pnode(parent1[v]) as int]@[parc(parent1[v]) as int].to == v by {
        if v != to {
            assert(parent1[v] == parent[v]);
        }
    }
    assert forall|v: int| 0 <= v < n && #[trigger] found1[v] implies 0 <= ord1[v] < n - count_false(found1) by {
        if v != to {
            assert(found[v]);
        }
    }
    assert forall|v: int| 0 <= v < n && #[trigger] found1[v] && v != source implies
        found1[pnode(parent1[v]) as int] && ord1[pnode(parent1[v]) as int] < ord1[v]
        && g[pnode(parent1[v]) as int]@[parc(parent1[v]) as int].cap > 0 by {
        if v != to {
            assert(found[v]);
            assert(parent1[v] == parent[v]);
            assert(found[pnode(parent[v]) as int]);
        } else {
            assert(found[u as int]);
        }
    }
    assert forall|v: int| 0 <= v < n && #[trigger] found1[v] && !queue.contains(v as usize) && v != u as int && v != sink
        && v != to implies closed_at(g, found1, v) by {
        assert(found[v]);
        assert(closed_at(g, found, v));
    }
    assert forall|k: int| 0 <= k < e + 1 && (#[trigger] g[u as int]@[k]).cap > 0 implies found1[g[u as int]@[k].to as int] by {
        if k < e {
            assert(found[g[u as int]@[k].to as int]);
        }
    }
    assert forall|q: int| 0 <= q < queue.len() implies #[trigger] queue[q] < n && found1[queue[q] as int] by {
        assert(found[queue[q] as int]);
    }
    ord1
}

/// Listing the newly reached node `to` keeps every reached node either listed or closed.
proof fn lemma_bfs_enqueue(found: Seq<bool>, g: Seq<Vec<FlowEdge>>, queue: Seq<usize>, to: usize, u: usize, sink: usize)
    requires
        to < g.len(),
        found.len() == g.len(),
        found[to as int],
        forall|v: int| 0 <= v < g.len() && #[trigger] found[v] && !queue.contains(v as usize) && v != u as int && v != sink
            && v != to ==> closed_at(g, found, v),
        forall|q: int| 0 <= q < queue.len() ==> #[trigger] queue[q] < g.len() && found[queue[q] as int],
    ensures
        forall|v: int| 0 <= v < g.len() && #[trigger] found[v] && !queue.push(to).contains(v as usize) && v != u as int
            && v != sink ==> closed_at(g, found, v),
        forall|q: int| 0 <= q < queue.push(to).len() ==> #[trigger] queue.push(to)[q] < g.len() && found[queue.push(to)[q] as int],
{
    let q1 = queue.push(to);
    assert forall|v: int| 0 <= v < g.len() && #[trigger] found[v] && !q1.contains(v as usize) && v != u as int
        && v != sink implies closed_at(g, found, v) by {
        if v == to as int {
            assert(q1[q1.len() - 1] == to);
            assert(q1.contains(to));
        } else if queue.contains(v as usize) {
            let q = choose|q: int| 0 <= q < queue.len() && queue[q] == v as usize;
            assert(q1[q] == queue[q]);
            assert(q1.contains(v as usize));
        }
    }
    assert forall|q: int| 0 <= q < q1.len() implies #[trigger] q1[q] < g.len() && found[q1[q] as int] by {
        if q < queue.len() {
            assert(q1[q] == queue[q]);
        }
    }
}

/// A reached node lies in every closed set of nodes that holds the source.
proof fn lemma_found_in_cut(parent: Seq<Option<(usize, usize)>>, found: Seq<bool>, ord: Seq<int>, g: Seq<Vec<FlowEdge>>,
    source: usize, cut: Seq<bool>, v: int)
    requires
        parents_ok(parent, found, g, source),
        bfs_order(parent, found, ord, g, source),
        source < g.len(),
        cut.len() == g.len(),
        cut[source as int],
        cut_closed(g, cut),
        0 <= v < g.len(),
        found[v],
    ensures
        cut[v],
    decreases ord[v],
{
    if v != source as int {
        let p = pnode(parent[v]) as int;
        assert(parent[v] is Some);
        lemma_found_in_cut(parent, found, ord, g, source, cut, p);
        assert(g[p]@[parc(parent[v]) as int].to == v);
    }
}

/// Finds by breadth-first search a path of arcs with positive capacity from `source` to `sink`
/// and pushes one unit along it. `false`, with the network unchanged, when there is none.
#[verifier::rlimit(80)]
#[verifier::spinoff_prover]
fn augment_one_path(graph: &mut Vec<Vec<FlowEdge>>, source: usize, sink: usize) -> (r: bool)
    requires
        flow_ok(old(graph)@),
        source < old(graph)@.len(),
        sink < old(graph)@.len(),
    ensures
        flow_ok(final(graph)@),
        same_arcs(old(graph)@, final(graph)@),
        !r ==> final(graph)@ == old(graph)@,
        r <==> !separated(old(graph)@, source, sink),
{
    let n = graph.len();
    let mut parent: Vec<Option<(usize, usize)>> = Vec::new();
    let mut found: Vec<bool> = Vec::new();
    for _i in 0..n
        invariant
            parent@.len() == _i,
            found@.len() == _i,
            forall|v: int| 0 <= v < parent@.len() ==> #[trigger] parent@[v] is None,
            forall|v: int| 0 <= v < found@.len() ==> !(#[trigger] found@[v]),
    {
        parent.push(None);
        found.push(false);
    }
    let ghost g_in = graph@;
    proof {
        lemma_count_false_set(found@, source as int);
        lemma_count_false_none(found@);
    }
    let ghost f_init = found@;
    parent.set(source, Some((source, usize::MAX)));
    found.set(source, true);
    let ghost mut ord: Seq<int> = Seq::new(n as nat, |i: int| 0int);
    let mut queue: VecDeque<usize> = VecDeque::new();
    queue.push_back(source);
    proof {
        assert forall|v: int| 0 <= v < n && #[trigger] found@[v] implies 0 <= ord[v] < n - count_false(found@) by {
            if v != source as int {
                assert(found@[v] == f_init[v]);
            }
        }
        assert(queue@[0] == source);
        assert forall|v: int| 0 <= v < n && #[trigger] found@[v] && !queue@.contains(v as usize) && v != sink
            implies closed_at(graph@, found@, v) by {
            if v != source as int {
                assert(found@[v] == f_init[v]);
            } else {
                assert(queue@.contains(source));
            }
        }
    }
    while queue.len() > 0
        invariant_except_break
            forall|v: int| 0 <= v < n && #[trigger] found@[v] && !queue@.contains(v as usize) && v != sink
                ==> closed_at(graph@, found@, v),
        invariant
            n == graph@.len(),
            graph@ == g_in,
            source < n,
            sink < n,
            flow_ok(graph@),
            parents_ok(parent@, found@, graph@, source),
            bfs_order(parent@, found@, ord, graph@, source),
            forall|q: int| 0 <= q < queue@.len() ==> #[trigger] queue@[q] < n && found@[queue@[q] as int],
        ensures
            found@[sink as int] || forall|v: int| 0 <= v < n && #[trigger] found@[v] ==> closed_at(graph@, found@, v),
        decreases 2 * count_false(found@) + queue@.len(),
    {
        let ghost q0 = queue@;
        let u = match queue.pop_front() {
            Some(x) => x,
            None => { break; },
        };
        proof {
            assert(q0[0] == u);
            assert forall|v: int| 0 <= v < n && #[trigger] found@[v] && !queue@.contains(v as usize) && v != u && v != sink
                implies closed_at(graph@, found@, v) by {
                if q0.contains(v as usize) {
                    let q = choose|q: int| 0 <= q < q0.len() && q0[q] == v as usize;
                    assert(q != 0);
                    assert(queue@[q - 1] == q0[q]);
                    assert(queue@.contains(v as usize));
                }
            }
            assert forall|q: int| 0 <= q < queue@.len() implies #[trigger] queue@[q] < n && found@[queue@[q] as int] by {
                assert(queue@[q] == q0[q + 1]);
            }
        }
        let deg = graph[u].len();
        let ghost popped = queue@.len();
        let ghost c0 = count_false(found@);
        let mut edge_idx: usize = 0;
        while edge_idx < deg
            invariant
                n == graph@.len(),
                graph@ == g_in,
                source < n,
                sink < n,
                flow_ok(graph@),
                u < n,
                found@[u as int],
                deg == graph@[u as int]@.len(),
                edge_idx <= deg,
                parents_ok(parent@, found@, graph@, source),
                bfs_order(parent@, found@, ord, graph@, source),
                forall|q: int| 0 <= q < queue@.len() ==> #[trigger] queue@[q] < n && found@[queue@[q] as int],
                queue@.len() >= popped,
                queue@.len() - popped + count_false(found@) <= c0,
                count_false(found@) <= c0,
                forall|v: int| 0 <= v < n && #[trigger] found@[v] && !queue@.contains(v as usize) && v != u && v != sink
                    ==> closed_at(graph@, found@, v),
                forall|k: int| 0 <= k < edge_idx && (#[trigger] graph@[u as int]@[k]).cap > 0 ==> found@[graph@[u as int]@[k].to as int],
            ensures
                found@[sink as int] || edge_idx == deg,
            decreases deg - edge_idx,
        {
            let edge = graph[u][edge_idx];
            proof { assert(graph@[u as int]@[edge_idx as int].to < n); }
            if edge.cap > 0 && !found[edge.to] {
                let ghost p0 = parent@;
                let ghost f0 = found@;
                let ghost qq = queue@;
                proof { assert(graph@[u as int]@[edge_idx as int] == edge); }
                parent.set(edge.to, Some((u, edge_idx)));
                found.set(edge.to, true);
                proof {
                    ord = lemma_bfs_reach(p0, f0, ord, graph@, source, sink, u, edge_idx, qq);
                    assert(parent@ == p0.update(edge.to as int, Some((u, edge_idx))));
                    assert(found@ == f0.update(edge.to as int, true));
                }
                if edge.to == sink {
                    break;
                }
                queue.push_back(edge.to);
                proof { lemma_bfs_enqueue(found@, graph@, qq, edge.to, u, sink); }
            }
            edge_idx = edge_idx + 1;
        }
        if found[sink] {
            break;
        }
        proof {
            assert forall|v: int| 0 <= v < n && #[trigger] found@[v] && !queue@.contains(v as usize) && v != sink
                implies closed_at(graph@, found@, v) by {
                if v == u as int {
                    assert forall|k: int| 0 <= k < graph@[v]@.len() && (#[trigger] graph@[v]@[k]).cap > 0
                        implies found@[graph@[v]@[k].to as int] by {
                        assert(graph@[u as int]@[k] == graph@[v]@[k]);
                    }
                }
            }
        }
    }
    if !found[sink] {
        proof {
            assert(cut_closed(graph@, found@)) by {
                assert forall|v: int, k: int| 0 <= v < graph@.len() && 0 <= k < graph@[v]@.len() && found@[v]
                    && (#[trigger] graph@[v]@[k]).cap > 0 implies found@[graph@[v]@[k].to as int] by {
                    assert(closed_at(graph@, found@, v));
                }
            }
            assert(separated(graph@, source, sink));
        }
        return false;
    }
    proof {
        assert(!separated(graph@, source, sink)) by {
            if separated(graph@, source, sink) {
                let cut = choose|cut: Seq<bool>| cut.len() == graph@.len() && cut[source as int] && !cut[sink as int]
                    && #[trigger] cut_closed(graph@, cut);
                lemma_found_in_cut(parent@, found@, ord, graph@, source, cut, sink as int);
            }
        }
    }
    let mut path: Vec<(usize, usize)> = Vec::new();
    let mut v = sink;
    let mut fuel = n;
    while v != source && fuel > 0
        invariant
            n == graph@.len(),
            graph@ == g_in,
            flow_ok(graph@),
            v < n,
            source < n,
            found@[v as int],
            ord[v as int] < fuel,
            parents_ok(parent@, found@, graph@, source),
            bfs_order(parent@, found@, ord, graph@, source),
            forall|q: int| 0 <= q < path@.len() ==> (#[trigger] path@[q]).0 < n && path@[q].1 < graph@[path@[q].0 as int]@.len(),
        decreases fuel,
    {
        match parent[v] {
            Some(p) => {
                path.push(p);
                v = p.0;
            },
            None => {
                return false;
            },
        }
        fuel = fuel - 1;
    }
    if v != source {
        return false;
    }
    let ghost g0 = graph@;
    for q in 0..path.len()
        invariant
            n == graph@.len(),
            flow_ok(graph@),
            same_arcs(g0, graph@),
            forall|q: int| 0 <= q < path@.len() ==> (#[trigger] path@[q]).0 < n && path@[q].1 < g0[path@[q].0 as int]@.len(),
    {
        let (a, e) = path[q];
        let edge = graph[a][e];
        proof {
            assert(graph@[a as int]@[e as int] == edge);
            assert(edge.to < n);
            assert(edge.rev < graph@[edge.to as int]@.len());
        }
        let ghost g1 = graph@;
        let lowered = FlowEdge { to: edge.to, rev: edge.rev, cap: if edge.cap > 0 { edge.cap - 1 } else { edge.cap } };
        graph[a].set(e, lowered);
        let back = graph[edge.to][edge.rev];
        let raised = FlowEdge { to: back.to, rev: back.rev, cap: if back.cap < i32::MAX { back.cap + 1 } else { back.cap } };
        let ghost g2 = graph@;
        graph[edge.to].set(edge.rev, raised);
        proof {
            assert(same_arcs(g1, g2)) by {
                assert forall|x: int, k: int| 0 <= x < g1.len() && 0 <= k < g1[x]@.len() implies
                    (#[trigger] g1[x]@[k]).to == g2[x]@[k].to && g1[x]@[k].rev == g2[x]@[k].rev by {
                    if x != a as int || k != e as int {
                        assert(g2[x]@[k] == g1[x]@[k]);
                    }
                }
            }
            assert(back == g2[edge.to as int]@[edge.rev as int]);
            assert(same_arcs(g2, graph@)) by {
                assert forall|x: int, k: int| 0 <= x < g2.len() && 0 <= k < g2[x]@.len() implies
                    (#[trigger] g2[x]@[k]).to == graph@[x]@[k].to && g2[x]@[k].rev == graph@[x]@[k].rev by {
                    if x != edge.to as int || k != edge.rev as int {
                        assert(graph@[x]@[k] == g2[x]@[k]);
                    }
                }
            }
            assert(flow_ok(graph@)) by {
                assert forall|x: int, k: int| 0 <= x < graph@.len() && 0 <= k < graph@[x]@.len() implies
                    (#[trigger] graph@[x]@[k]).to < graph@.len() && graph@[x]@[k].rev < graph@[graph@[x]@[k].to as int]@.len()
                    && graph@[x]@[k].cap >= 0 by {
                    assert(g1[x]@[k].to == graph@[x]@[k].to);
                    assert(g1[x]@[k].rev == graph@[x]@[k].rev);
                    if (x != a as int || k != e as int) && (x != edge.to as int || k != edge.rev as int) {
                        assert(graph@[x]@[k] == g1[x]@[k]);
                    }
                }
            }
        }
    }
    true
}

/// Removes and returns the last listed successor of `node`, if any.
fn pop_used_successor(used_adj: &mut Vec<Vec<usize>>, node: usize) -> (r: Option<usize>)
    ensures
        final(used_adj)@.len() == old(used_adj)@.len(),
        r == (if node < old(used_adj)@.len() && old(used_adj)@[node as int]@.len() > 0 {
            Some(old(used_adj)@[node as int]@.last())
        } else {
            None::<usize>
        }),
        r is Some ==> final(used_adj)@[node as int]@ == old(used_adj)@[node as int]@.drop_last(),
        r is None ==> final(used_adj)@ == old(used_adj)@,
        forall|w: int| 0 <= w < old(used_adj)@.len() && w != node ==> #[trigger] final(used_adj)@[w] == old(used_adj)@[w],
{
    if node < used_adj.len() && used_adj[node].len() > 0 {
        used_adj[node].pop()
    } else {
        None
    }
}

/// Every listed successor is a successor in `adj` between relevant nodes.
spec fn used_ok(used: Seq<Vec<usize>>, adj: Seq<Vec<usize>>, relevant: Seq<bool>) -> bool {
    &&& used.len() == adj.len()
    &&& forall|u: int, k: int| 0 <= u < used.len() && 0 <= k < used[u]@.len() ==>
        adj[u]@.contains(#[trigger] used[u]@[k]) && used[u]@[k] < adj.len() && relevant[u] && relevant[used[u]@[k] as int]
}

/// Dropping the last listed successor of one node keeps the lists valid.
proof fn lemma_used_ok_after_pop(u0: Seq<Vec<usize>>, u1: Seq<Vec<usize>>, node: int, adj: Seq<Vec<usize>>, relevant: Seq<bool>)
    requires
        used_ok(u0, adj, relevant),
        u1.len() == u0.len(),
        0 <= node < u0.len(),
        u0[node]@.len() > 0,
        u1[node]@ == u0[node]@.drop_last(),
        forall|w: int| 0 <= w < u0.len() && w != node ==> #[trigger] u1[w] == u0[w],
    ensures
        used_ok(u1, adj, relevant),
{
    assert forall|u: int, k: int| 0 <= u < u1.len() && 0 <= k < u1[u]@.len() implies
        adj[u]@.contains(#[trigger] u1[u]@[k]) && u1[u]@[k] < adj.len() && relevant[u] && relevant[u1[u]@[k] as int] by {
        if u == node {
            assert(u0[u]@.drop_last()[k] == u0[u]@[k]);
            assert(u1[u]@[k] == u0[u]@[k]);
        } else {
            assert(u1[u] == u0[u]);
        }
    }
}

/// `p` runs from `s` to `t` along arcs of `adj`, meeting `t` only at its end.
spec fn flow_path_ok(p: Seq<usize>, adj: Seq<Vec<usize>>, s: usize, t: usize) -> bool {
    &&& p.len() >= 2
    &&& p[0] == s
    &&& p.last() == t
    &&& forall|i: int| 0 <= i < p.len() ==> #[trigger] p[i] < adj.len()
    &&& forall|i: int| 0 <= i < p.len() - 1 ==> #[trigger] p[i] != t
    &&& forall|i: int| 1 <= i < p.len() ==> adj[p[i - 1] as int]@.contains(#[trigger] p[i])
}

/// The successor lists, each by its entries.
spec fn lists_view(used: Seq<Vec<usize>>) -> Seq<Seq<usize>> {
    Seq::new(used.len(), |i: int| used[i]@)
}

/// The walk from `current` that takes, and removes, the last listed successor of the node it is
/// at until it reaches `t`, within `fuel` steps: the nodes entered after `current` (`None` when
/// a node without listed successors is met or the steps run out), and the lists afterwards.
spec fn follow_listed(lists: Seq<Seq<usize>>, current: usize, t: usize, fuel: nat) -> (Option<Seq<usize>>, Seq<Seq<usize>>)
    decreases fuel,
{
    if current == t {
        (Some(Seq::empty()), lists)
    } else if fuel == 0 || current >= lists.len() || lists[current as int].len() == 0 {
        (None, lists)
    } else {
        let next = lists[current as int].last();
        let rest = follow_listed(lists.update(current as int, lists[current as int].drop_last()), next, t, (fuel - 1) as nat);
        (match rest.0 {
            Some(p) => Some(seq![next] + p),
            None => None,
        }, rest.1)
    }
}

/// Follows the listed successors from `first` until `t`, consuming them, within `budget` steps.
fn extract_flow_path(used_adj: &mut Vec<Vec<usize>>, s: usize, first: usize, t: usize, budget: usize,
    Ghost(adj): Ghost<Seq<Vec<usize>>>, Ghost(relevant): Ghost<Seq<bool>>) -> (r: Option<Vec<usize>>)
    requires
        used_ok(old(used_adj)@, adj, relevant),
        s < adj.len(),
        first < adj.len(),
        t < adj.len(),
        s != t,
        adj[s as int]@.contains(first),
    ensures
        used_ok(final(used_adj)@, adj, relevant),
        r matches Some(p) ==> flow_path_ok(p@, adj, s, t) && p@[1] == first,
        ({
            let walk = follow_listed(lists_view(old(used_adj)@), first, t, budget as nat);
            &&& lists_view(final(used_adj)@) == walk.1
            &&& r is Some <==> walk.0 is Some
            &&& r matches Some(p) ==> p@ == seq![s, first] + walk.0->0
        }),
{
    let ghost walk = follow_listed(lists_view(old(used_adj)@), first, t, budget as nat);
    proof { assert(used_adj@ == old(used_adj)@); }
    let mut path: Vec<usize> = vec![s, first];
    let mut current = first;
    let mut fuel = budget;
    proof {
        assert(path@.subrange(2, path@.len() as int) =~= Seq::<usize>::empty());
    }
    while current != t
        invariant
            walk == follow_listed(lists_view(old(used_adj)@), first, t, budget as nat),
            ({
                let here = follow_listed(lists_view(used_adj@), current, t, fuel as nat);
                &&& here.1 == walk.1
                &&& (here.0 is Some <==> walk.0 is Some)
                &&& walk.0 is Some ==> walk.0->0 == path@.subrange(2, path@.len() as int) + here.0->0
            }),
            used_ok(used_adj@, adj, relevant),
            s < adj.len(),
            t < adj.len(),
            s != t,
            current < adj.len(),
            path@.len() >= 2,
            path@[0] == s,
            path@[1] == first,
            path@.last() == current,
            forall|i: int| 0 <= i < path@.len() ==> #[trigger] path@[i] < adj.len(),
            forall|i: int| 0 <= i < path@.len() - 1 ==> #[trigger] path@[i] != t,
            forall|i: int| 1 <= i < path@.len() ==> adj[path@[i - 1] as int]@.contains(#[trigger] path@[i]),
        decreases fuel,
    {
        if fuel == 0 {
            proof {
                let here = follow_listed(lists_view(used_adj@), current, t, fuel as nat);
                assert(here.0 is None && here.1 == lists_view(used_adj@));
            }
            return None;
        }
        fuel = fuel - 1;
        let ghost u0 = used_adj@;
        let ghost p0 = path@;
        let next = match pop_used_successor(used_adj, current) {
            Some(x) => x,
            None => {
                proof {
                    let lv = lists_view(u0);
                    assert(current >= lv.len() || lv[current as int].len() == 0);
                    let here = follow_listed(lv, current, t, (fuel + 1) as nat);
                    assert(here.0 is None && here.1 == lv);
                }
                return None;
            },
        };
        proof {
            let k = u0[current as int]@.len() - 1;
            assert(u0[current as int]@[k] == next);
            assert(adj[current as int]@.contains(next));
            lemma_used_ok_after_pop(u0, used_adj@, current as int, adj, relevant);
            let lv0 = lists_view(u0);
            assert(lists_view(used_adj@) =~= lv0.update(current as int, lv0[current as int].drop_last()));
            let rest = follow_listed(lists_view(used_adj@), next, t, fuel as nat);
            assert(follow_listed(lv0, current, t, (fuel + 1) as nat).1 == rest.1);
            if walk.0 is Some {
                assert(p0.push(next).subrange(2, p0.len() as int + 1) =~= p0.subrange(2, p0.len() as int).push(next));
                assert(walk.0->0 =~= p0.push(next).subrange(2, p0.len() as int + 1) + rest.0->0);
            }
        }
        path.push(next);
        current = next;
        proof {
            assert forall|i: int| 1 <= i < path@.len() implies adj[path@[i - 1] as int]@.contains(#[trigger] path@[i]) by {
                if i < p0.len() {
                    assert(path@[i] == p0[i]);
                    assert(path@[i - 1] == p0[i - 1]);
                }
            }
            assert forall|i: int| 0 <= i < path@.len() - 1 implies #[trigger] path@[i] != t by {
                assert(path@[i] == p0[i]);
            }
        }
    }
    proof {
        assert(path@[0] == s);
        assert(path@[1] == first);
        assert(path@ =~= seq![s, first] + path@.subrange(2, path@.len() as int));
        assert(walk.0->0 =~= path@.subrange(2, path@.len() as int));
    }
    Some(path)
}

/// The outcome of the vertex-disjoint path search between the first UIP and the conflict.
enum DisjointPaths {
    LessThanTwo,
    ThreeConnected,
    Two(Vec<usize>, Vec<usize>),
}

/// Runs up to three unit augmentations on the node-split network of the relevant part of `adj`
/// (inner capacity 1, or 3 at `s` and `t`) and, when exactly two succeed, reads the two paths
/// off the saturated arcs.
fn find_disjoint_paths(adj: &Vec<Vec<usize>>, relevant: &Vec<bool>, s: usize, t: usize) -> (r: DisjointPaths)
    requires
        adj_ok(adj@),
        relevant@.len() == adj@.len(),
        s < adj@.len(),
        t < adj@.len(),
        s != t,
        adj@.len() < usize::MAX / 4,
    ensures
        r matches DisjointPaths::Two(a, b) ==> flow_path_ok(a@, adj@, s, t) && flow_path_ok(b@, adj@, s, t),
{
    let len = adj.len();
    let split_len = len * 2;
    let mut graph: Vec<Vec<FlowEdge>> = Vec::new();
    for _i in 0..split_len
        invariant
            graph@.len() == _i,
            forall|u: int| 0 <= u < graph@.len() ==> (#[trigger] graph@[u])@.len() == 0,
    {
        graph.push(Vec::new());
    }
    for node in 0..len
        invariant
            len == adj@.len(),
            relevant@.len() == len,
            split_len == 2 * len,
            graph@.len() == split_len,
            flow_ok(graph@),
    {
        if relevant[node] {
            let cap: i32 = if node == s || node == t { 3 } else { 1 };
            add_flow_edge(&mut graph, node * 2, node * 2 + 1, cap);
        }
    }
    let mut original_edges: Vec<(usize, usize, usize, usize)> = Vec::new();
    for u in 0..len
        invariant
            len == adj@.len(),
            adj_ok(adj@),
            relevant@.len() == len,
            split_len == 2 * len,
            graph@.len() == split_len,
            flow_ok(graph@),
            forall|q: int| 0 <= q < original_edges@.len() ==> {
                let (from, e, a, b) = #[trigger] original_edges@[q];
                &&& from < split_len && e < graph@[from as int]@.len()
                &&& a < len && b < len && adj@[a as int]@.contains(b) && relevant@[a as int] && relevant@[b as int]
            },
    {
        if relevant[u] {
            let succs = &adj[u];
            for k in 0..succs.len()
                invariant
                    len == adj@.len(),
                    adj_ok(adj@),
                    u < len,
                    relevant@[u as int],
                    *succs == adj@[u as int],
                    relevant@.len() == len,
                    split_len == 2 * len,
                    graph@.len() == split_len,
                    flow_ok(graph@),
                    forall|q: int| 0 <= q < original_edges@.len() ==> {
                        let (from, e, a, b) = #[trigger] original_edges@[q];
                        &&& from < split_len && e < graph@[from as int]@.len()
                        &&& a < len && b < len && adj@[a as int]@.contains(b) && relevant@[a as int] && relevant@[b as int]
                    },
            {
                let v = succs[k];
                proof { assert(adj@[u as int]@[k as int] == v); }
                if v < len && relevant[v] {
                    let from = u * 2 + 1;
                    let to = v * 2;
                    let ghost g0 = graph@;
                    let edge_idx = add_flow_edge(&mut graph, from, to, 1);
                    proof {
                        assert forall|q: int| 0 <= q < original_edges@.len() implies {
                            let (from, e, a, b) = #[trigger] original_edges@[q];
                            &&& from < split_len && e < graph@[from as int]@.len()
                            &&& a < len && b < len && adj@[a as int]@.contains(b) && relevant@[a as int] && relevant@[b as int]
                        } by {
                            let (f, e, a, b) = original_edges@[q];
                            assert(g0[f as int]@.len() <= graph@[f as int]@.len());
                        }
                    }
                    original_edges.push((from, edge_idx, u, v));
                }
            }
        }
    }
    let source = s * 2 + 1;
    let sink = t * 2;
    let mut flow: usize = 0;
    let ghost g_built = graph@;
    loop
        invariant
            graph@.len() == split_len,
            split_len == 2 * len,
            source < split_len,
            sink < split_len,
            flow_ok(graph@),
            same_arcs(g_built, graph@),
            flow <= 3,
        decreases 3 - flow,
    {
        if flow >= 3 {
            break;
        }
        let ghost g0 = graph@;
        if !augment_one_path(&mut graph, source, sink) {
            break;
        }
        proof {
            assert forall|u: int| 0 <= u < g_built.len() implies (#[trigger] g_built[u])@.len() == graph@[u]@.len() by {
                assert(g0[u]@.len() == graph@[u]@.len());
            }
            assert forall|u: int, k: int| 0 <= u < g_built.len() && 0 <= k < g_built[u]@.len() implies
                (#[trigger] g_built[u]@[k]).to == graph@[u]@[k].to && g_built[u]@[k].rev == graph@[u]@[k].rev by {
                assert(g0[u]@.len() == g_built[u]@.len());
            }
        }
        flow = flow + 1;
    }
    if flow < 2 {
        return DisjointPaths::LessThanTwo;
    }
    if flow >= 3 {
        return DisjointPaths::ThreeConnected;
    }
    let mut used_adj: Vec<Vec<usize>> = Vec::new();
    for _i in 0..len
        invariant
            used_adj@.len() == _i,
            forall|u: int| 0 <= u < used_adj@.len() ==> (#[trigger] used_adj@[u])@.len() == 0,
    {
        used_adj.push(Vec::new());
    }
    for q in 0..original_edges.len()
        invariant
            len == adj@.len(),
            adj_ok(adj@),
            relevant@.len() == len,
            graph@.len() == split_len,
            same_arcs(g_built, graph@),
            used_ok(used_adj@, adj@, relevant@),
            forall|q: int| 0 <= q < original_edges@.len() ==> {
                let (from, e, a, b) = #[trigger] original_edges@[q];
                &&& from < split_len && e < g_built[from as int]@.len()
                &&& a < len && b < len && adj@[a as int]@.contains(b) && relevant@[a as int] && relevant@[b as int]
            },
    {
        let (from, edge_idx, u, v) = original_edges[q];
        proof {
            assert(g_built[from as int]@.len() == graph@[from as int]@.len());
        }
        if graph[from][edge_idx].cap == 0 {
            let ghost u0 = used_adj@;
            used_adj[u].push(v);
            proof {
                assert forall|x: int, k: int| 0 <= x < used_adj@.len() && 0 <= k < used_adj@[x]@.len() implies
                    adj@[x]@.contains(#[trigger] used_adj@[x]@[k]) && used_adj@[x]@[k] < len && relevant@[x]
                    && relevant@[used_adj@[x]@[k] as int] by {
                    if x != u as int {
                        assert(used_adj@[x] == u0[x]);
                    } else if k < u0[x]@.len() {
                        assert(used_adj@[x]@[k] == u0[x]@[k]);
                    }
                }
            }
        }
    }
    let budget = original_edges.len();
    let ghost u0 = used_adj@;
    let first = match pop_used_successor(&mut used_adj, s) {
        Some(x) => x,
        None => { return DisjointPaths::LessThanTwo; },
    };
    proof {
        assert(u0[s as int]@[u0[s as int]@.len() - 1] == first);
        lemma_used_ok_after_pop(u0, used_adj@, s as int, adj@, relevant@);
    }
    let ghost u1 = used_adj@;
    let second = match pop_used_successor(&mut used_adj, s) {
        Some(x) => x,
        None => { return DisjointPaths::LessThanTwo; },
    };
    proof {
        assert(u1[s as int]@[u1[s as int]@.len() - 1] == second);
        lemma_used_ok_after_pop(u1, used_adj@, s as int, adj@, relevant@);
    }
    let path_a = match extract_flow_path(&mut used_adj, s, first, t, budget, Ghost(adj@), Ghost(relevant@)) {
        Some(p) => p,
        None => { return DisjointPaths::LessThanTwo; },
    };
    let path_b = match extract_flow_path(&mut used_adj, s, second, t, budget, Ghost(adj@), Ghost(relevant@)) {
        Some(p) => p,
        None => { return DisjointPaths::LessThanTwo; },
    };
    DisjointPaths::Two(path_a, path_b)
}

/// For each node, the furthest position on either path reached by a relevant arc from it, either
/// directly onto the path or through relevant nodes on neither path (filled from `t` down).
fn directly_reachable_path_positions(adj: &Vec<Vec<usize>>, relevant: &Vec<bool>,
    path_pos: &Vec<(Option<usize>, Option<usize>)>, t: usize) -> (r: Vec<(usize, usize)>)
    requires
        adj_ok(adj@),
        relevant@.len() == adj@.len(),
        path_pos@.len() == adj@.len(),
        t < adj@.len(),
    ensures
        r@.len() == adj@.len(),
{
    let len = adj.len();
    let mut direct: Vec<(usize, usize)> = Vec::new();
    for _i in 0..len
        invariant
            direct@.len() == _i,
    {
        direct.push((0, 0));
    }
    let mut u = t + 1;
    while u > 0
        invariant
            len == adj@.len(),
            adj_ok(adj@),
            relevant@.len() == len,
            path_pos@.len() == len,
            direct@.len() == len,
            u <= t + 1,
            t < len,
        decreases u,
    {
        u = u - 1;
        if relevant[u] {
            let succs = &adj[u];
            for k in 0..succs.len()
                invariant
                    len == adj@.len(),
                    adj_ok(adj@),
                    u < len,
                    *succs == adj@[u as int],
                    relevant@.len() == len,
                    path_pos@.len() == len,
                    direct@.len() == len,
            {
                let v = succs[k];
                proof { assert(adj@[u as int]@[k as int] < len); }
                if v < len && relevant[v] {
                    let (mut d0, mut d1) = direct[u];
                    let (p0, p1) = path_pos[v];
                    let mut on_path = false;
                    if let Some(pos) = p0 {
                        if pos > d0 {
                            d0 = pos;
                        }
                        on_path = true;
                    }
                    if let Some(pos) = p1 {
                        if pos > d1 {
                            d1 = pos;
                        }
                        on_path = true;
                    }
                    if !on_path {
                        let (v0, v1) = direct[v];
                        if v0 > d0 {
                            d0 = v0;
                        }
                        if v1 > d1 {
                            d1 = v1;
                        }
                    }
                    direct.set(u, (d0, d1));
                }
            }
        }
    }
    direct
}

/// The furthest position reached directly from the nodes at positions before `p` of `path`
/// (path number `path_idx`): on the same path when `same`, else on the other one; at least
/// `base`.
spec fn reach_before(path: Seq<usize>, direct: Seq<(usize, usize)>, path_idx: usize, same: bool, base: int, p: nat) -> int
    decreases p,
{
    if p == 0 {
        base
    } else {
        let prev = reach_before(path, direct, path_idx, same, base, (p - 1) as nat);
        let d = direct[path[p - 1] as int];
        let x = if (path_idx == 0) == same { d.0 } else { d.1 };
        if x > prev { x as int } else { prev }
    }
}

/// Path `idx` (0 or 1) of `paths`.
spec fn path_seq(paths: (Vec<usize>, Vec<usize>), idx: usize) -> Seq<usize> {
    if idx == 0 { paths.0@ } else { paths.1@ }
}

/// Position `p` of `path` is internal and no arc from an earlier node of the path jumps over it.
spec fn not_bypassed(path: Seq<usize>, direct: Seq<(usize, usize)>, path_idx: usize, p: int) -> bool {
    &&& 0 < p
    &&& p + 1 < path.len()
    &&& reach_before(path, direct, path_idx, true, 0, p as nat) <= p
}

/// The internal nodes of path `path_idx` that no arc from an earlier node of the same path jumps
/// over, in path order, each with the furthest position of the other path reached before it.
fn non_bypassed_path_items(path_idx: usize, paths: &(Vec<usize>, Vec<usize>), direct: &Vec<(usize, usize)>) -> (r: Vec<PathItem>)
    requires
        path_idx < 2,
        forall|i: int| 0 <= i < paths.0@.len() ==> #[trigger] paths.0@[i] < direct@.len(),
        forall|i: int| 0 <= i < paths.1@.len() ==> #[trigger] paths.1@[i] < direct@.len(),
    ensures
        forall|i: int, j: int| 0 <= i < j < r@.len() ==> r@[i].pos < r@[j].pos,
        forall|i: int| 0 <= i < r@.len() ==> {
            let p = if path_idx == 0 { paths.0@ } else { paths.1@ };
            &&& 0 < (#[trigger] r@[i]).pos
            &&& r@[i].pos + 1 < p.len()
            &&& r@[i].node == p[r@[i].pos as int]
        },
        forall|i: int| 0 <= i < r@.len() ==> {
            let p = if path_idx == 0 { paths.0@ } else { paths.1@ };
            let o = if path_idx == 0 { paths.1@ } else { paths.0@ };
            &&& not_bypassed(p, direct@, path_idx, (#[trigger] r@[i]).pos as int)
            &&& r@[i].reach_other_pos == reach_before(p, direct@, path_idx, false, if o.len() > 2 { 1 } else { 0 }, r@[i].pos as nat)
        },
        forall|q: int| #[trigger] not_bypassed(path_seq(*paths, path_idx), direct@, path_idx, q)
            ==> exists|i: int| 0 <= i < r@.len() && (#[trigger] r@[i]).pos == q,
{
    let path = if path_idx == 0 { &paths.0 } else { &paths.1 };
    let other = if path_idx == 0 { &paths.1 } else { &paths.0 };
    let other_internal_start: usize = if other.len() > 2 { 1 } else { 0 };
    let mut max_same_from_prior: usize = 0;
    let mut max_other_from_prior: usize = other_internal_start;
    let mut items: Vec<PathItem> = Vec::new();
    for pos in 0..path.len()
        invariant
            path_idx < 2,
            *path == if path_idx == 0 { paths.0 } else { paths.1 },
            forall|i: int| 0 <= i < path@.len() ==> #[trigger] path@[i] < direct@.len(),
            forall|i: int, j: int| 0 <= i < j < items@.len() ==> items@[i].pos < items@[j].pos,
            forall|i: int| 0 <= i < items@.len() ==> (#[trigger] items@[i]).pos < pos,
            forall|i: int| 0 <= i < items@.len() ==> {
                &&& 0 < (#[trigger] items@[i]).pos
                &&& items@[i].pos + 1 < path@.len()
                &&& items@[i].node == path@[items@[i].pos as int]
            },
            *other == if path_idx == 0 { paths.1 } else { paths.0 },
            other_internal_start == if other@.len() > 2 { 1usize } else { 0usize },
            max_same_from_prior == reach_before(path@, direct@, path_idx, true, 0, pos as nat),
            max_other_from_prior == reach_before(path@, direct@, path_idx, false, other_internal_start as int, pos as nat),
            forall|i: int| 0 <= i < items@.len() ==> {
                &&& not_bypassed(path@, direct@, path_idx, (#[trigger] items@[i]).pos as int)
                &&& items@[i].reach_other_pos == reach_before(path@, direct@, path_idx, false,
                    other_internal_start as int, items@[i].pos as nat)
            },
            forall|q: int| q < pos && #[trigger] not_bypassed(path@, direct@, path_idx, q)
                ==> exists|i: int| 0 <= i < items@.len() && (#[trigger] items@[i]).pos == q,
    {
        let node = path[pos];
        let ghost items0 = items@;
        let is_internal = pos > 0 && pos + 1 < path.len();
        if is_internal && max_same_from_prior <= pos {
            items.push(PathItem { node, pos, reach_other_pos: max_other_from_prior });
        }
        proof {
            assert forall|q: int| q < pos + 1 && #[trigger] not_bypassed(path@, direct@, path_idx, q)
                implies exists|i: int| 0 <= i < items@.len() && (#[trigger] items@[i]).pos == q by {
                if q < pos {
                    let i = choose|i: int| 0 <= i < items0.len() && (#[trigger] items0[i]).pos == q;
                    assert(items@[i] == items0[i]);
                } else {
                    assert(items@[items0.len() as int].pos == q);
                }
            }
            assert forall|i: int| 0 <= i < items@.len() implies {
                &&& not_bypassed(path@, direct@, path_idx, (#[trigger] items@[i]).pos as int)
                &&& items@[i].reach_other_pos == reach_before(path@, direct@, path_idx, false,
                    other_internal_start as int, items@[i].pos as nat)
            } by {
                if i < items0.len() {
                    assert(items@[i] == items0[i]);
                }
            }
        }
        let (d0, d1) = direct[node];
        let (same, oth) = if path_idx == 0 { (d0, d1) } else { (d1, d0) };
        if same > max_same_from_prior {
            max_same_from_prior = same;
        }
        if oth > max_other_from_prior {
            max_other_from_prior = oth;
        }
    }
    items
}

/// A run of candidate second nodes: the nodes at indices `start..end` of the candidates of path
/// `right_path` pair with the node `left` of the other path.
struct DipPairRange {
    left: usize,
    right_path: usize,
    start: usize,
    end: usize,
}

/// The non-bypassed internal nodes of both paths and the ranges of pairs to try.
struct CompressedDipRanges {
    candidates: (Vec<usize>, Vec<usize>),
    ranges: Vec<DipPairRange>,
}

/// The items of path `idx` (0 or 1).
spec fn items_of(p: (Vec<PathItem>, Vec<PathItem>), idx: usize) -> Seq<PathItem> {
    if idx == 0 { p.0@ } else { p.1@ }
}

/// The number of leading items of `right` that reach no further than position `x` on the other
/// path.
spec fn reach_limit(right: Seq<PathItem>, x: int) -> nat
    decreases right.len(),
{
    if right.len() == 0 || right[0].reach_other_pos > x { 0 } else { 1 + reach_limit(right.drop_first(), x) }
}

/// The number of leading items of `right` at positions below `x`.
spec fn pos_below(right: Seq<PathItem>, x: int) -> nat
    decreases right.len(),
{
    if right.len() == 0 || right[0].pos >= x { 0 } else { 1 + pos_below(right.drop_first(), x) }
}

/// The range of items of `right` (path `right_path`) that `item` pairs with, if not empty.
spec fn range_for(item: PathItem, right: Seq<PathItem>, right_path: usize) -> Option<DipPairRange> {
    let end = reach_limit(right, item.pos as int);
    let start = pos_below(right, item.reach_other_pos as int);
    if start < end {
        Some(DipPairRange { left: item.node, right_path, start: start as usize, end: end as usize })
    } else {
        None
    }
}

/// The ranges of the first `k` items of `left`, in order.
spec fn ranges_for(left: Seq<PathItem>, right: Seq<PathItem>, right_path: usize, k: nat) -> Seq<DipPairRange>
    decreases k,
{
    if k == 0 {
        Seq::empty()
    } else {
        let prev = ranges_for(left, right, right_path, (k - 1) as nat);
        match range_for(left[k - 1], right, right_path) {
            Some(r) => prev.push(r),
            None => prev,
        }
    }
}

proof fn lemma_reach_limit(right: Seq<PathItem>, x: int, l: int)
    requires
        0 <= l <= right.len(),
        forall|j: int| 0 <= j < l ==> (#[trigger] right[j]).reach_other_pos <= x,
        l == right.len() || right[l].reach_other_pos > x,
    ensures
        reach_limit(right, x) == l,
    decreases right.len(),
{
    if right.len() > 0 && l > 0 {
        assert forall|j: int| 0 <= j < l - 1 implies (#[trigger] right.drop_first()[j]).reach_other_pos <= x by {
            assert(right.drop_first()[j] == right[j + 1]);
        }
        if l < right.len() {
            assert(right.drop_first()[l - 1] == right[l]);
        }
        lemma_reach_limit(right.drop_first(), x, l - 1);
    }
}

proof fn lemma_pos_below(right: Seq<PathItem>, x: int, l: int)
    requires
        0 <= l <= right.len(),
        forall|j: int| 0 <= j < l ==> (#[trigger] right[j]).pos < x,
        forall|j: int| l <= j < right.len() ==> (#[trigger] right[j]).pos >= x,
    ensures
        pos_below(right, x) == l,
    decreases right.len(),
{
    if right.len() > 0 && l > 0 {
        assert forall|j: int| 0 <= j < l - 1 implies (#[trigger] right.drop_first()[j]).pos < x by {
            assert(right.drop_first()[j] == right[j + 1]);
        }
        assert forall|j: int| l - 1 <= j < right.drop_first().len() implies (#[trigger] right.drop_first()[j]).pos >= x by {
            assert(right.drop_first()[j] == right[j + 1]);
        }
        lemma_pos_below(right.drop_first(), x, l - 1);
    }
}

/// For each item of path `left_path`, adds the range of items of the other path that it can pair
/// with: those reaching no further than it on its path, from the first one at or after the
/// position it reaches on theirs.
fn add_ranges_from_path(path_items: &(Vec<PathItem>, Vec<PathItem>), left_path: usize, ranges: &mut Vec<DipPairRange>)
    requires
        left_path < 2,
        forall|i: int, j: int| 0 <= i <= j < path_items.0@.len() ==> path_items.0@[i].pos <= path_items.0@[j].pos,
        forall|i: int, j: int| 0 <= i <= j < path_items.1@.len() ==> path_items.1@[i].pos <= path_items.1@[j].pos,
    ensures
        final(ranges)@.len() >= old(ranges)@.len(),
        forall|i: int| 0 <= i < old(ranges)@.len() ==> #[trigger] final(ranges)@[i] == old(ranges)@[i],
        forall|i: int| old(ranges)@.len() <= i < final(ranges)@.len() ==> {
            &&& (#[trigger] final(ranges)@[i]).right_path == 1 - left_path
            &&& final(ranges)@[i].start < final(ranges)@[i].end
            &&& final(ranges)@[i].end <= items_of(*path_items, (1 - left_path) as usize).len()
            &&& exists|k: int| 0 <= k < items_of(*path_items, left_path).len()
                && #[trigger] items_of(*path_items, left_path)[k].node == final(ranges)@[i].left
        },
        final(ranges)@ == old(ranges)@ + ranges_for(items_of(*path_items, left_path), items_of(*path_items, (1 - left_path) as usize),
            (1 - left_path) as usize, items_of(*path_items, left_path).len()),
{
    let right_path = 1 - left_path;
    let left_items = if left_path == 0 { &path_items.0 } else { &path_items.1 };
    let right_items = if left_path == 0 { &path_items.1 } else { &path_items.0 };
    let ghost r0 = ranges@;
    let mut right_limit: usize = 0;
    for li in 0..left_items.len()
        invariant
            left_path < 2,
            right_path == 1 - left_path,
            left_items@ == items_of(*path_items, left_path),
            right_items@ == items_of(*path_items, right_path),
            forall|i: int, j: int| 0 <= i <= j < right_items@.len() ==> right_items@[i].pos <= right_items@[j].pos,
            right_limit <= right_items@.len(),
            ranges@.len() >= r0.len(),
            forall|i: int| 0 <= i < r0.len() ==> #[trigger] ranges@[i] == r0[i],
            forall|i: int| r0.len() <= i < ranges@.len() ==> {
                &&& (#[trigger] ranges@[i]).right_path == right_path
                &&& ranges@[i].start < ranges@[i].end
                &&& ranges@[i].end <= right_items@.len()
                &&& exists|k: int| 0 <= k < items_of(*path_items, left_path).len()
                    && #[trigger] items_of(*path_items, left_path)[k].node == ranges@[i].left
            },
            forall|i: int, j: int| 0 <= i <= j < left_items@.len() ==> left_items@[i].pos <= left_items@[j].pos,
            ranges@ == r0 + ranges_for(left_items@, right_items@, right_path, li as nat),
            li == 0 ==> right_limit == 0,
            li > 0 ==> forall|j: int| 0 <= j < right_limit ==> (#[trigger] right_items@[j]).reach_other_pos <= left_items@[li - 1].pos,
    {
        let item = left_items[li];
        let ghost before_all = ranges@;
        loop
            invariant
                right_limit <= right_items@.len(),
                forall|j: int| 0 <= j < right_limit ==> (#[trigger] right_items@[j]).reach_other_pos <= item.pos,
            ensures
                right_limit <= right_items@.len(),
                forall|j: int| 0 <= j < right_limit ==> (#[trigger] right_items@[j]).reach_other_pos <= item.pos,
                right_limit == right_items@.len() || right_items@[right_limit as int].reach_other_pos > item.pos,
            decreases right_items@.len() - right_limit,
        {
            if right_limit >= right_items.len() {
                break;
            }
            if right_items[right_limit].reach_other_pos > item.pos {
                break;
            }
            right_limit = right_limit + 1;
        }
        proof {
            lemma_reach_limit(right_items@, item.pos as int, right_limit as int);
            let k = li as nat + 1;
            assert(left_items@[k - 1] == item);
        }
        if right_limit == 0 {
            proof {
                assert(range_for(item, right_items@, right_path) is None);
                assert(ranges@ == r0 + ranges_for(left_items@, right_items@, right_path, (li + 1) as nat));
            }
        }
        if right_limit > 0 {
            let start = lower_bound_path_pos(right_items, item.reach_other_pos);
            proof {
                lemma_pos_below(right_items@, item.reach_other_pos as int, start as int);
                if start >= right_limit {
                    assert(range_for(item, right_items@, right_path) is None);
                    assert(ranges@ == r0 + ranges_for(left_items@, right_items@, right_path, (li + 1) as nat));
                }
            }
            if start < right_limit {
                let ghost before = ranges@;
                ranges.push(DipPairRange { left: item.node, right_path, start, end: right_limit });
                proof {
                    assert(items_of(*path_items, left_path)[li as int].node == item.node);
                    assert forall|i: int| r0.len() <= i < ranges@.len() implies {
                        &&& (#[trigger] ranges@[i]).right_path == right_path
                        &&& ranges@[i].start < ranges@[i].end
                        &&& ranges@[i].end <= right_items@.len()
                        &&& exists|k: int| 0 <= k < items_of(*path_items, left_path).len()
                            && #[trigger] items_of(*path_items, left_path)[k].node == ranges@[i].left
                    } by {
                        if i < before.len() {
                            assert(ranges@[i] == before[i]);
                        }
                    }
                    assert(range_for(item, right_items@, right_path) == Some(DipPairRange { left: item.node, right_path, start, end: right_limit }));
                    assert(ranges@ =~= r0 + ranges_for(left_items@, right_items@, right_path, (li + 1) as nat));
                }
            }
        }
    }
}

/// The ranges of pair candidates of the relevant graph between `s` and `t`: empty unless there
/// are exactly two vertex-disjoint paths from `s` to `t`, both with internal nodes.
fn compressed_two_vertex_bottlenecks(adj: &Vec<Vec<usize>>, relevant: &Vec<bool>, s: usize, t: usize)
    -> (r: Option<CompressedDipRanges>)
    requires
        adj_ok(adj@),
        relevant@.len() == adj@.len(),
        s < t,
        t + 1 == adj@.len(),
        adj@.len() < usize::MAX / 4,
    ensures
        r matches Some(c) ==> {
            &&& forall|i: int| 0 <= i < c.candidates.0@.len() ==> #[trigger] c.candidates.0@[i] < t
            &&& forall|i: int| 0 <= i < c.candidates.1@.len() ==> #[trigger] c.candidates.1@[i] < t
            &&& forall|i: int| 0 <= i < c.ranges@.len() ==> {
                let g = #[trigger] c.ranges@[i];
                &&& g.left < t
                &&& g.right_path < 2
                &&& g.start < g.end
                &&& g.end <= (if g.right_path == 0 { c.candidates.0@.len() } else { c.candidates.1@.len() })
            }
        },
{
    let (path_a, path_b) = match find_disjoint_paths(adj, relevant, s, t) {
        DisjointPaths::Two(a, b) => (a, b),
        _ => { return None; },
    };
    if path_a.len() <= 2 || path_b.len() <= 2 {
        return None;
    }
    let len = adj.len();
    let mut path_pos: Vec<(Option<usize>, Option<usize>)> = Vec::new();
    for _i in 0..len
        invariant
            path_pos@.len() == _i,
    {
        path_pos.push((None, None));
    }
    for pos in 0..path_a.len()
        invariant
            path_pos@.len() == len,
            len == adj@.len(),
            flow_path_ok(path_a@, adj@, s, t),
    {
        let node = path_a[pos];
        let (_, q) = path_pos[node];
        path_pos.set(node, (Some(pos), q));
    }
    for pos in 0..path_b.len()
        invariant
            path_pos@.len() == len,
            len == adj@.len(),
            flow_path_ok(path_b@, adj@, s, t),
    {
        let node = path_b[pos];
        let (p, _) = path_pos[node];
        path_pos.set(node, (p, Some(pos)));
    }
    let direct = directly_reachable_path_positions(adj, relevant, &path_pos, t);
    let paths = (path_a, path_b);
    let items = (non_bypassed_path_items(0, &paths, &direct), non_bypassed_path_items(1, &paths, &direct));
    if items.0.len() == 0 || items.1.len() == 0 {
        return None;
    }
    let mut ranges: Vec<DipPairRange> = Vec::new();
    proof {
        assert(items_of(items, 1) == items.1@);
    }
    add_ranges_from_path(&items, 0, &mut ranges);
    if ranges.len() == 0 {
        return None;
    }
    let mut cand0: Vec<usize> = Vec::new();
    for i in 0..items.0.len()
        invariant
            cand0@.len() == i,
            forall|k: int| 0 <= k < i ==> #[trigger] cand0@[k] == items.0@[k].node,
    {
        cand0.push(items.0[i].node);
    }
    let mut cand1: Vec<usize> = Vec::new();
    for i in 0..items.1.len()
        invariant
            cand1@.len() == i,
            forall|k: int| 0 <= k < i ==> #[trigger] cand1@[k] == items.1@[k].node,
    {
        cand1.push(items.1[i].node);
    }
    proof {
        assert forall|i: int| 0 <= i < cand0@.len() implies #[trigger] cand0@[i] < t by {
            let p = items.0@[i].pos as int;
            assert(paths.0@[p] != t);
            assert(paths.0@[p] < adj@.len());
        }
        assert forall|i: int| 0 <= i < cand1@.len() implies #[trigger] cand1@[i] < t by {
            let p = items.1@[i].pos as int;
            assert(paths.1@[p] != t);
            assert(paths.1@[p] < adj@.len());
        }
        assert(items_of(items, 0) == items.0@);
        assert forall|i: int| 0 <= i < ranges@.len() implies #[trigger] ranges@[i].left < t by {
            let k = choose|k: int| 0 <= k < items_of(items, 0).len() && #[trigger] items_of(items, 0)[k].node == ranges@[i].left;
            let p = items.0@[k].pos as int;
            assert(paths.0@[p] != t);
        }
    }
    Some(CompressedDipRanges { candidates: (cand0, cand1), ranges })
}

/// The recorded levels of a candidate's clauses: every literal of the pre clause after the first
/// has a level, at most `l_c` when below the current level; every literal of the post clause has
/// a level below the current one, at most `l_d`; each of `l_c` and `l_d` is 0 or the level of
/// such a literal.
spec fn candidate_levels_ok(c: DipCandidate, a: ConflictAnalysis, h: History) -> bool {
    let pre = c.pre_clause_without_z@;
    let post = c.post_clause_without_z@;
    &&& forall|i: int| 1 <= i < pre.len() ==> h.level_of(#[trigger] pre[i]) is Some
        && (h.level_of(pre[i])->0 < a.current_level ==> h.level_of(pre[i])->0 <= c.l_c)
    &&& c.l_c == 0 || exists|i: int| 1 <= i < pre.len() && h.level_of(#[trigger] pre[i]) == Some(c.l_c)
    &&& forall|i: int| 0 <= i < post.len() ==> h.level_of(#[trigger] post[i]) is Some
        && h.level_of(post[i])->0 < a.current_level && h.level_of(post[i])->0 <= c.l_d
    &&& c.l_d == 0 || exists|i: int| 0 <= i < post.len() && h.level_of(#[trigger] post[i]) == Some(c.l_d)
}

/// The facts a DIP candidate carries for an analysis over `n` variable slots: the pair are two
/// literals of the level other than the first UIP, both clauses have literals in range and LBD
/// within the cap, the pre clause starts with the negated first UIP, the post clause is not empty,
/// and both recorded levels lie below the current one (or are 0).
spec fn candidate_ok(c: DipCandidate, a: ConflictAnalysis, h: History, n: nat) -> bool {
    &&& exists|pa: int, pb: int| 0 <= pa < a.trail@.len() && 0 <= pb < a.trail@.len() && pa != pb
        && pa != a.first_uip_pos && pb != a.first_uip_pos
        && #[trigger] a.trail@[pa] == c.dip_a && #[trigger] a.trail@[pb] == c.dip_b
    &&& lits_in_range(c.pre_clause_without_z@, n)
    &&& lits_in_range(c.post_clause_without_z@, n)
    &&& c.pre_clause_without_z@.len() >= 1
    &&& c.pre_clause_without_z@[0]@ == -a.trail@[a.first_uip_pos as int]@
    &&& c.post_clause_without_z@.len() >= 1
    &&& 1 <= c.pre_lbd <= DIP_MAX_CLAUSE_LBD
    &&& 1 <= c.post_lbd <= DIP_MAX_CLAUSE_LBD
    &&& c.l_c == 0 || c.l_c < a.current_level
    &&& c.l_d == 0 || c.l_d < a.current_level
    &&& candidate_levels_ok(c, a, h)
}

/// Searches the pairs of the two-vertex bottlenecks between the first UIP and the conflict, in
/// order, for the first one whose clauses stay within the LBD cap. `None` when the first UIP is
/// not the only source of the conflict's cone, when there are no such pairs, or when none fits.
fn find_first_dip_candidate(analysis: &ConflictAnalysis, history: &History, formula: &Formula, conflict_clause_idx: usize)
    -> (r: Option<DipCandidate>)
    requires
        formula.wf(),
        formula.tracks(history),
        analysis.wf(history, formula.n_vars()),
        conflict_clause_idx < formula.clauses@.len(),
    ensures
        r matches Some(c) ==> candidate_ok(c, *analysis, *history, formula.n_vars()),
{
    let conflict_idx = analysis.trail.len();
    if conflict_idx >= usize::MAX / 8 {
        return None;
    }
    proof {
        assert forall|u: int, k: int| 0 <= u < analysis.successors@.len() && 0 <= k < analysis.successors@[u]@.len()
            implies #[trigger] analysis.successors@[u]@[k] < analysis.successors@.len() by {
            assert(analysis.successors@[u]@[k] <= analysis.trail@.len());
        }
    }
    let rev = reverse_adj(&analysis.successors);
    let can_reach_conflict = reachable(&rev, conflict_idx, &analysis.present);
    let mut sources: Vec<usize> = Vec::new();
    for pos in 0..conflict_idx
        invariant
            conflict_idx == analysis.trail@.len(),
            rev@.len() == conflict_idx + 1,
            adj_ok(rev@),
            can_reach_conflict@.len() == conflict_idx + 1,
            analysis.present@.len() == conflict_idx + 1,
    {
        if analysis.present[pos] && can_reach_conflict[pos] {
            let preds = &rev[pos];
            let mut indeg: usize = 0;
            for k in 0..preds.len()
                invariant
                    *preds == rev@[pos as int],
                    pos < rev@.len(),
                    adj_ok(rev@),
                    rev@.len() == conflict_idx + 1,
                    can_reach_conflict@.len() == conflict_idx + 1,
                    analysis.present@.len() == conflict_idx + 1,
                    indeg <= k,
            {
                let p = preds[k];
                proof { assert(rev@[pos as int]@[k as int] < rev@.len()); }
                if analysis.present[p] && can_reach_conflict[p] {
                    indeg = indeg + 1;
                }
            }
            if indeg == 0 {
                sources.push(pos);
            }
        }
    }
    if sources.len() != 1 || sources[0] != analysis.first_uip_pos {
        return None;
    }
    let reachable_from_uip = reachable(&analysis.successors, analysis.first_uip_pos, &analysis.present);
    let mut relevant: Vec<bool> = Vec::new();
    for idx in 0..conflict_idx + 1
        invariant
            relevant@.len() == idx,
            reachable_from_uip@.len() == conflict_idx + 1,
            can_reach_conflict@.len() == conflict_idx + 1,
            analysis.present@.len() == conflict_idx + 1,
    {
        relevant.push(analysis.present[idx] && reachable_from_uip[idx] && can_reach_conflict[idx]);
    }
    let compressed = match compressed_two_vertex_bottlenecks(&analysis.successors, &relevant, analysis.first_uip_pos, conflict_idx) {
        Some(c) => c,
        None => { return None; },
    };
    for ri in 0..compressed.ranges.len()
        invariant
            formula.wf(),
            formula.tracks(history),
            analysis.wf(history, formula.n_vars()),
            conflict_clause_idx < formula.clauses@.len(),
            conflict_idx == analysis.trail@.len(),
            forall|i: int| 0 <= i < compressed.candidates.0@.len() ==> #[trigger] compressed.candidates.0@[i] < conflict_idx,
            forall|i: int| 0 <= i < compressed.candidates.1@.len() ==> #[trigger] compressed.candidates.1@[i] < conflict_idx,
            forall|i: int| 0 <= i < compressed.ranges@.len() ==> {
                let g = #[trigger] compressed.ranges@[i];
                &&& g.left < conflict_idx
                &&& g.right_path < 2
                &&& g.start < g.end
                &&& g.end <= (if g.right_path == 0 { compressed.candidates.0@.len() } else { compressed.candidates.1@.len() })
            },
    {
        let range = &compressed.ranges[ri];
        proof { assert(compressed.ranges@[ri as int] == *range); }
        let dip_a_pos = range.left;
        let cands = if range.right_path == 0 { &compressed.candidates.0 } else { &compressed.candidates.1 };
        for j in range.start..range.end
            invariant
                formula.wf(),
                formula.tracks(history),
                analysis.wf(history, formula.n_vars()),
                conflict_clause_idx < formula.clauses@.len(),
                conflict_idx == analysis.trail@.len(),
                dip_a_pos < conflict_idx,
                range.end <= cands@.len(),
                forall|i: int| 0 <= i < cands@.len() ==> #[trigger] cands@[i] < conflict_idx,
        {
            let dip_b_pos = cands[j];
            match find_capped_clauses_from_dip_pair(analysis, history, formula, conflict_clause_idx, dip_a_pos, dip_b_pos) {
                Some(c) => {
                    proof {
                        assert(analysis.trail@[dip_a_pos as int] == c.dip_a && analysis.trail@[dip_b_pos as int] == c.dip_b);
                    }
                    return Some(c);
                },
                None => {},
            }
        }
    }
    None
}

/// The DIP learning result for `analysis`, when a pair fits the LBD cap: the pair, both clauses
/// without the extension literal, their LBDs, and the larger of the two recorded levels as the
/// backtrack level.
pub(crate) fn learn_from_analysis(analysis: &ConflictAnalysis, history: &History, formula: &Formula, conflict_clause_index: usize)
    -> (r: Option<ConflictLearnResult>)
    requires
        formula.wf(),
        formula.tracks(history),
        analysis.wf(history, formula.n_vars()),
        conflict_clause_index < formula.clauses@.len(),
    ensures
        r matches Some(res) ==> dip_result_of(res, *analysis, *history, formula.n_vars()),
{
    let candidate = match find_first_dip_candidate(analysis, history, formula, conflict_clause_index) {
        Some(c) => c,
        None => { return None; },
    };
    let backtrack_level = if candidate.l_c >= candidate.l_d { candidate.l_c } else { candidate.l_d };
    proof {
        let pre = candidate.pre_clause_without_z@;
        let post = candidate.post_clause_without_z@;
        if backtrack_level != 0 {
            if backtrack_level == candidate.l_c {
                let i = choose|i: int| 1 <= i < pre.len() && history.level_of(#[trigger] pre[i]) == Some(candidate.l_c);
                assert(history.level_of(pre[i]) == Some(backtrack_level));
            } else {
                let i = choose|i: int| 0 <= i < post.len() && history.level_of(#[trigger] post[i]) == Some(candidate.l_d);
                assert(history.level_of(post[i]) == Some(backtrack_level));
            }
        }
    }
    Some(ConflictLearnResult::Dip {
        dip_a: candidate.dip_a,
        dip_b: candidate.dip_b,
        pre_clause_without_z: candidate.pre_clause_without_z,
        post_clause_without_z: candidate.post_clause_without_z,
        pre_lbd: candidate.pre_lbd,
        post_lbd: candidate.post_lbd,
        backtrack_level,
    })
}

/// `r` is a DIP result for the analysis `a` of `h` over `n` variable slots: the pair are two
/// literals of the analysed level other than the first UIP, the two clauses hold literals in range
/// with LBD within the cap, the pre clause starts with the negated first UIP, the post clause is
/// not empty and holds only literals of lower levels, and the backtrack level is the highest
/// level below the current one among the other literals of both clauses (0 when there is none).
pub open spec fn dip_result_of(r: ConflictLearnResult, a: ConflictAnalysis, h: History, n: nat) -> bool {
    match r {
        ConflictLearnResult::Dip { dip_a, dip_b, pre_clause_without_z, post_clause_without_z, pre_lbd, post_lbd, backtrack_level } => {
            &&& exists|pa: int, pb: int| 0 <= pa < a.trail@.len() && 0 <= pb < a.trail@.len() && pa != pb
                && pa != a.first_uip_pos && pb != a.first_uip_pos
                && #[trigger] a.trail@[pa] == dip_a && #[trigger] a.trail@[pb] == dip_b
            &&& lits_in_range(pre_clause_without_z@, n)
            &&& lits_in_range(post_clause_without_z@, n)
            &&& pre_clause_without_z@.len() >= 1
            &&& pre_clause_without_z@[0]@ == -a.trail@[a.first_uip_pos as int]@
            &&& post_clause_without_z@.len() >= 1
            &&& 1 <= pre_lbd <= DIP_MAX_CLAUSE_LBD
            &&& 1 <= post_lbd <= DIP_MAX_CLAUSE_LBD
            &&& backtrack_level == 0 || backtrack_level < a.current_level
            &&& forall|i: int| 1 <= i < pre_clause_without_z@.len() ==> h.level_of(#[trigger] pre_clause_without_z@[i]) is Some
                && (h.level_of(pre_clause_without_z@[i])->0 < a.current_level
                    ==> h.level_of(pre_clause_without_z@[i])->0 <= backtrack_level)
            &&& forall|i: int| 0 <= i < post_clause_without_z@.len() ==> h.level_of(#[trigger] post_clause_without_z@[i]) is Some
                && h.level_of(post_clause_without_z@[i])->0 < a.current_level
                && h.level_of(post_clause_without_z@[i])->0 <= backtrack_level
            &&& backtrack_level == 0
                || (exists|i: int| 1 <= i < pre_clause_without_z@.len() && h.level_of(#[trigger] pre_clause_without_z@[i]) == Some(backtrack_level))
                || (exists|i: int| 0 <= i < post_clause_without_z@.len() && h.level_of(#[trigger] post_clause_without_z@[i]) == Some(backtrack_level))
        },
        _ => false,
    }
}

/// Learns from the conflict at clause `conflict_clause_index` by a dominating implication pair,
/// falling back to the first-UIP clause when no pair yields clauses within the LBD cap; the
/// empty clause at level 0 when there is nothing to analyse.
pub fn find_dip(history: &History, formula: &Formula, conflict_clause_index: usize) -> (r: ConflictLearnResult)
    requires
        formula.wf(),
        formula.tracks(history),
        conflict_clause_index < formula.clauses@.len(),
    ensures
        history.level_spec() == 0 ==> uip::is_empty_result(r),
        history.level_spec() > 0 && walk_ready(*history, *formula, conflict_clause_index as int) ==> !uip::is_empty_result(r),
        uip::is_empty_result(r) || exists|a: ConflictAnalysis| #[trigger] a.wf(history, formula.n_vars())
            && (uip::uip_result_of(r, a, *history) || dip_result_of(r, a, *history, formula.n_vars()))
            && (walk_ready(*history, *formula, conflict_clause_index as int)
                ==> first_uip_analysis(*history, *formula, conflict_clause_index as int, a.first_uip_pos as int, a.uip_clause_literals@)),
        r matches ConflictLearnResult::Uip { clause, .. } ==> clause.wf() && lits_in_range(clause@, formula.n_vars()),
        r matches ConflictLearnResult::Dip { dip_a, dip_b, pre_clause_without_z, post_clause_without_z, .. } ==> {
            &&& dip_a.wf() && dip_a.var() < formula.n_vars()
            &&& dip_b.wf() && dip_b.var() < formula.n_vars()
            &&& lits_in_range(pre_clause_without_z@, formula.n_vars())
            &&& lits_in_range(post_clause_without_z@, formula.n_vars())
        },
{
    let analysis = match analyze_conflict_graph(history, formula, conflict_clause_index) {
        Some(a) => a,
        None => { return uip::empty_result(); },
    };
    match learn_from_analysis(&analysis, history, formula, conflict_clause_index) {
        Some(res) => {
            proof {
                let (pa, pb) = choose|pa: int, pb: int| 0 <= pa < analysis.trail@.len() && 0 <= pb < analysis.trail@.len()
                    && pa != pb && pa != analysis.first_uip_pos && pb != analysis.first_uip_pos
                    && #[trigger] analysis.trail@[pa] == res->dip_a && #[trigger] analysis.trail@[pb] == res->dip_b;
                assert(analysis.trail@[pa].wf());
                assert(analysis.trail@[pb].wf());
                assert(uip::uip_result_of(res, analysis, *history) || dip_result_of(res, analysis, *history, formula.n_vars()));
                assert(analysis.wf(history, formula.n_vars()));
            }
            res
        },
        None => {
            let res = uip::learn_from_analysis(&analysis, history, formula);
            proof {
                assert(uip::uip_result_of(res, analysis, *history) || dip_result_of(res, analysis, *history, formula.n_vars()));
                assert(analysis.wf(history, formula.n_vars()));
            }
            res
        },
    }
}

} // verus!
