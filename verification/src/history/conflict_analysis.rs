use vstd::prelude::*;
use crate::bitset::{BitSet, bitset_bits};
use crate::formula::Formula;
use crate::formula::literal::{Literal, lemma_unsigned_index_injective};
use crate::history::History;
use crate::history::decision_level::DecisionLevel;

verus! {

/// Number of set bits.
pub open spec fn count_true(s: Seq<bool>) -> nat
    decreases s.len(),
{
    if s.len() == 0 {
        0
    } else {
        count_true(s.drop_last()) + if s.last() { 1nat } else { 0nat }
    }
}

/// Setting a clear bit adds one set bit.
pub proof fn lemma_count_true_set(s: Seq<bool>, i: int)
    requires
        0 <= i < s.len(),
        !s[i],
    ensures
        count_true(s.update(i, true)) == count_true(s) + 1,
    decreases s.len(),
{
    let t = s.update(i, true);
    if i == s.len() - 1 {
        assert(t.drop_last() =~= s.drop_last());
    } else {
        assert(t.drop_last() =~= s.drop_last().update(i, true));
        lemma_count_true_set(s.drop_last(), i);
    }
}

/// There are no more set bits than bits.
pub proof fn lemma_count_true_le(s: Seq<bool>)
    ensures
        count_true(s) <= s.len(),
    decreases s.len(),
{
    if s.len() > 0 {
        lemma_count_true_le(s.drop_last());
    }
}

/// The literals of a level in trail order: its decision (if any), then its implications.
pub open spec fn level_trail(l: DecisionLevel) -> Seq<Literal> {
    let implied = Seq::new(l.implied_literals@.len(), |i: int| l.implied_literals@[i].0);
    match l.decision_literal {
        Some(d) => seq![d] + implied,
        None => implied,
    }
}

/// The reasons of `level_trail(l)`, position by position (none for the decision).
pub open spec fn level_trail_reasons(l: DecisionLevel) -> Seq<Option<usize>> {
    let implied = Seq::new(l.implied_literals@.len(), |i: int| l.reason_spec(l.implied_literals@[i].0));
    match l.decision_literal {
        Some(d) => seq![None::<usize>] + implied,
        None => implied,
    }
}

/// `pos_of` maps dense literal indices to positions of `trail` holding that literal, and
/// every literal of `trail` has an entry.
pub open spec fn positions_ok(trail: Seq<Literal>, pos_of: Seq<Option<usize>>) -> bool {
    &&& forall|u: int| 0 <= u < pos_of.len() ==> (#[trigger] pos_of[u] matches Some(p) ==> p < trail.len()
        && trail[p as int].uidx() == u)
    &&& forall|p: int| 0 <= p < trail.len() ==> (#[trigger] trail[p]).uidx() < pos_of.len()
        && pos_of[trail[p].uidx() as int] is Some
}

/// Every literal is well formed with a variable below `n`.
pub open spec fn lits_in_range(s: Seq<Literal>, n: nat) -> bool {
    forall|i: int| 0 <= i < s.len() ==> (#[trigger] s[i]).wf() && s[i].var() < n
}

/// Some literal of `tr` before position `t` has variable `v`.
pub open spec fn var_on(tr: Seq<Literal>, v: nat, t: int) -> bool {
    exists|q: int| 0 <= q < t && #[trigger] tr[q].var() == v
}

/// The reason clause of position `p` of the current level (if any) is a clause of `f`, and its
/// other literals of the current level are negations of literals earlier on the trail.
pub open spec fn reason_ready(h: History, f: Formula, p: int) -> bool {
    let l = h.decision_levels@.last();
    let tr = level_trail(l);
    let cur = (h.decision_levels@.len() - 1) as usize;
    l.reason_spec(tr[p]) matches Some(r) ==> {
        &&& r < f.clauses@.len()
        &&& forall|j: int| 0 <= j < f.clauses@[r as int]@.len() && f.clauses@[r as int]@[j] != tr[p]
            && h.level_of(#[trigger] f.clauses@[r as int]@[j]) == Some(cur)
            ==> var_on(tr, f.clauses@[r as int]@[j].var(), p)
    }
}

/// The history supports walking back from the clause `ci` of `f`: every literal of the current
/// level's trail carries the current level, no variable occurs twice on it, the clause has a
/// literal of the current level, its literals of that level are negations of trail literals, and
/// the reason clauses point back only to earlier trail literals.
pub open spec fn walk_ready(h: History, f: Formula, ci: int) -> bool {
    let l = h.decision_levels@.last();
    let tr = level_trail(l);
    let cur = (h.decision_levels@.len() - 1) as usize;
    let cl = f.clauses@[ci]@;
    &&& tr.len() < usize::MAX
    &&& forall|q: int| 0 <= q < tr.len() ==> h.level_of(#[trigger] tr[q]) == Some(cur)
    &&& forall|q: int, q2: int| 0 <= q < tr.len() && 0 <= q2 < tr.len() && q != q2
        ==> #[trigger] tr[q].var() != #[trigger] tr[q2].var()
    &&& exists|j: int| 0 <= j < cl.len() && #[trigger] h.level_of(cl[j]) == Some(cur)
    &&& forall|j: int| 0 <= j < cl.len() && h.level_of(#[trigger] cl[j]) == Some(cur)
        ==> var_on(tr, cl[j].var(), tr.len() as int)
    &&& forall|p: int| 0 <= p < tr.len() ==> #[trigger] reason_ready(h, f, p)
}

/// The walk skips `l`: it is the literal just resolved on.
pub open spec fn skips(resolved: Option<i32>, l: Literal) -> bool {
    resolved matches Some(x) && x == l@
}

/// Number of positions before `t` whose variable is marked in `s`.
pub open spec fn open_count(tr: Seq<Literal>, s: Seq<bool>, t: int) -> nat
    decreases t,
{
    if t <= 0 {
        0
    } else {
        open_count(tr, s, t - 1) + if tr[t - 1].var() < s.len() && s[tr[t - 1].var() as int] { 1nat } else { 0nat }
    }
}

/// Marking the variable of one position before `t` (no other position shares it) adds one.
pub proof fn lemma_open_count_mark(tr: Seq<Literal>, s: Seq<bool>, t: int, q0: int)
    requires
        0 <= q0 < t <= tr.len(),
        tr[q0].var() < s.len(),
        !s[tr[q0].var() as int],
        forall|q: int| 0 <= q < t && q != q0 ==> #[trigger] tr[q].var() != tr[q0].var(),
    ensures
        open_count(tr, s.update(tr[q0].var() as int, true), t) == open_count(tr, s, t) + 1,
    decreases t,
{
    let v = tr[q0].var() as int;
    if t - 1 > q0 {
        lemma_open_count_mark(tr, s, t - 1, q0);
        assert(tr[t - 1].var() != tr[q0].var());
    } else {
        lemma_open_count_same(tr, s, t - 1, v);
    }
}

/// Marking a variable that no position before `t` holds changes nothing.
pub proof fn lemma_open_count_same(tr: Seq<Literal>, s: Seq<bool>, t: int, v: int)
    requires
        0 <= v < s.len(),
        t <= tr.len(),
        forall|q: int| 0 <= q < t ==> #[trigger] tr[q].var() != v,
    ensures
        open_count(tr, s.update(v, true), t) == open_count(tr, s, t),
    decreases t,
{
    if t > 0 {
        lemma_open_count_same(tr, s, t - 1, v);
        assert(tr[t - 1].var() != v);
    }
}

/// With nothing marked the count is zero.
pub proof fn lemma_open_count_zero(tr: Seq<Literal>, s: Seq<bool>, t: int)
    requires
        forall|i: int| 0 <= i < s.len() ==> !#[trigger] s[i],
    ensures
        open_count(tr, s, t) == 0,
    decreases t,
{
    if t > 0 {
        lemma_open_count_zero(tr, s, t - 1);
    }
}

/// A marked position before `t` makes the count positive.
pub proof fn lemma_open_count_pos(tr: Seq<Literal>, s: Seq<bool>, t: int, q: int)
    requires
        0 <= q < t <= tr.len(),
        tr[q].var() < s.len(),
        s[tr[q].var() as int],
    ensures
        open_count(tr, s, t) >= 1,
    decreases t,
{
    if q < t - 1 {
        lemma_open_count_pos(tr, s, t - 1, q);
    }
}

/// The clause feeding node `x` of the current level's implication graph: the clause `ci` for
/// the conflict node (`x` equal to the trail's length), else the reason of position `x` (none
/// for the decision).
pub open spec fn node_clause(h: History, ci: int, x: int) -> Option<int> {
    let l = h.decision_levels@.last();
    let tr = level_trail(l);
    if x == tr.len() {
        Some(ci)
    } else {
        match l.reason_spec(tr[x]) {
            Some(r) => Some(r as int),
            None => None,
        }
    }
}

/// An edge from position `q` to node `x`: the clause feeding `x` holds, besides the literal of
/// `x` itself, a literal on the variable of position `q`.
pub open spec fn graph_edge(h: History, f: Formula, ci: int, q: int, x: int) -> bool {
    let tr = level_trail(h.decision_levels@.last());
    &&& 0 <= q < tr.len()
    &&& 0 <= x <= tr.len()
    &&& exists|c: int, j: int| node_clause(h, ci, x) == Some(c) && 0 <= j < f.clauses@[c]@.len()
        && #[trigger] f.clauses@[c]@[j].var() == tr[q].var() && (x == tr.len() || f.clauses@[c]@[j] != tr[x])
}

/// A path of the implication graph of the current level.
pub open spec fn graph_path(h: History, f: Formula, ci: int, path: Seq<int>) -> bool {
    &&& path.len() >= 1
    &&& forall|i: int| 0 <= i < path.len() - 1 ==> #[trigger] graph_edge(h, f, ci, path[i], path[i + 1])
}

/// Position `u` is an implication point of the conflict on clause `ci`: every path of the
/// current level's implication graph from a position up to `u` (the decision first among them)
/// to the conflict node passes through `u`.
pub open spec fn dominates_conflict(h: History, f: Formula, ci: int, u: int) -> bool {
    let len = level_trail(h.decision_levels@.last()).len() as int;
    forall|path: Seq<int>| #[trigger] graph_path(h, f, ci, path) && path.last() == len && 0 <= path[0] <= u
        ==> path.contains(u)
}

/// Every predecessor of node `x` has its variable marked in `s`.
pub open spec fn node_done(h: History, f: Formula, ci: int, x: int, s: Seq<bool>) -> bool {
    let tr = level_trail(h.decision_levels@.last());
    forall|q: int| 0 <= q < tr.len() && #[trigger] graph_edge(h, f, ci, q, x) ==> s[tr[q].var() as int]
}

/// The nodes after position `t` that are marked (the conflict node always) have all their
/// predecessors marked.
pub open spec fn done_after(h: History, f: Formula, ci: int, t: int, s: Seq<bool>) -> bool {
    let tr = level_trail(h.decision_levels@.last());
    forall|x: int| t < x <= tr.len() && (x == tr.len() || s[tr[x].var() as int]) ==> #[trigger] node_done(h, f, ci, x, s)
}

/// A count of zero means no marked position before `t`.
pub proof fn lemma_open_count_none(tr: Seq<Literal>, s: Seq<bool>, t: int)
    requires
        t <= tr.len(),
        open_count(tr, s, t) == 0,
        forall|q: int| 0 <= q < tr.len() ==> (#[trigger] tr[q]).var() < s.len(),
    ensures
        forall|q: int| 0 <= q < t ==> !s[(#[trigger] tr[q]).var() as int],
    decreases t,
{
    if t > 0 {
        lemma_open_count_none(tr, s, t - 1);
    }
}

/// Walking a path back from the conflict node stays on marked nodes after `u` until it meets `u`.
proof fn lemma_path_meets(h: History, f: Formula, ci: int, s: Seq<bool>, u: int, path: Seq<int>, i: int)
    requires
        graph_path(h, f, ci, path),
        path.last() == level_trail(h.decision_levels@.last()).len(),
        0 <= i < path.len(),
        0 <= u < level_trail(h.decision_levels@.last()).len(),
        forall|q: int| 0 <= q < u ==> !s[(#[trigger] level_trail(h.decision_levels@.last())[q]).var() as int],
        done_after(h, f, ci, u, s),
    ensures
        path.subrange(i, path.len() as int).contains(u) || (u < path[i] && (path[i] == level_trail(h.decision_levels@.last()).len()
            || s[level_trail(h.decision_levels@.last())[path[i]].var() as int])),
    decreases path.len() - i,
{
    let tr = level_trail(h.decision_levels@.last());
    if i == path.len() - 1 {
    } else {
        lemma_path_meets(h, f, ci, s, u, path, i + 1);
        let tail = path.subrange(i + 1, path.len() as int);
        let whole = path.subrange(i, path.len() as int);
        if tail.contains(u) {
            let k = choose|k: int| 0 <= k < tail.len() && tail[k] == u;
            assert(whole[k + 1] == u);
        } else {
            assert(graph_edge(h, f, ci, path[i], path[i + 1]));
            assert(node_done(h, f, ci, path[i + 1], s));
            assert(s[tr[path[i]].var() as int]);
            if path[i] == u {
                assert(whole[0] == u);
            }
        }
    }
}

/// Marking a variable held by no position after `t` keeps the nodes after `t` done.
pub proof fn lemma_done_after_mark(h: History, f: Formula, ci: int, t: int, s: Seq<bool>, v: int)
    requires
        done_after(h, f, ci, t, s),
        0 <= v < s.len(),
        forall|q: int| 0 <= q < level_trail(h.decision_levels@.last()).len()
            ==> (#[trigger] level_trail(h.decision_levels@.last())[q]).var() < s.len(),
        forall|x: int| t < x < level_trail(h.decision_levels@.last()).len()
            ==> (#[trigger] level_trail(h.decision_levels@.last())[x]).var() != v,
    ensures
        done_after(h, f, ci, t, s.update(v, true)),
{
    let tr = level_trail(h.decision_levels@.last());
    let s1 = s.update(v, true);
    assert forall|x: int| t < x <= tr.len() && (x == tr.len() || s1[tr[x].var() as int]) implies
        #[trigger] node_done(h, f, ci, x, s1) by {
        if x < tr.len() {
            assert(tr[x].var() != v);
        }
        assert(node_done(h, f, ci, x, s));
        assert forall|q: int| 0 <= q < tr.len() && #[trigger] graph_edge(h, f, ci, q, x) implies s1[tr[q].var() as int] by {
            assert(s[tr[q].var() as int]);
        }
    }
}

/// The marked region closes the conflict off below `u`: `u` is an implication point.
pub proof fn lemma_dominates(h: History, f: Formula, ci: int, s: Seq<bool>, u: int)
    requires
        0 <= u < level_trail(h.decision_levels@.last()).len(),
        forall|q: int| 0 <= q < u ==> !s[(#[trigger] level_trail(h.decision_levels@.last())[q]).var() as int],
        done_after(h, f, ci, u, s),
    ensures
        dominates_conflict(h, f, ci, u),
{
    let len = level_trail(h.decision_levels@.last()).len() as int;
    assert forall|path: Seq<int>| #[trigger] graph_path(h, f, ci, path) && path.last() == len && 0 <= path[0] <= u
        implies path.contains(u) by {
        lemma_path_meets(h, f, ci, s, u, path, 0);
        assert(path.subrange(0, path.len() as int) =~= path);
    }
}

/// Node `x` is resolved on when walking back to the implication point `u`: the conflict node,
/// or a position after `u` from which a path through positions after `u` leads to the conflict.
pub open spec fn in_cone(h: History, f: Formula, ci: int, u: int, x: int) -> bool {
    let len = level_trail(h.decision_levels@.last()).len() as int;
    ||| x == len
    ||| u < x < len && exists|path: Seq<int>| #[trigger] graph_path(h, f, ci, path) && path[0] == x && path.last() == len
        && forall|i: int| 0 <= i < path.len() ==> u < #[trigger] path[i]
}

/// `l` is a literal of the clause feeding node `x`.
pub open spec fn from_node(h: History, f: Formula, ci: int, x: int, l: Literal) -> bool {
    exists|c: int, j: int| node_clause(h, ci, x) == Some(c) && 0 <= j < f.clauses@[c]@.len() && #[trigger] f.clauses@[c]@[j] == l
}

/// Every literal of the clause feeding `x`, but the literal of `x` itself, has its variable
/// marked in `s`.
pub open spec fn clause_marked(h: History, f: Formula, ci: int, x: int, s: Seq<bool>) -> bool {
    let tr = level_trail(h.decision_levels@.last());
    forall|c: int, j: int| node_clause(h, ci, x) == Some(c) && 0 <= j < f.clauses@[c]@.len()
        && !(x < tr.len() && f.clauses@[c]@[j] == tr[x]) ==> s[(#[trigger] f.clauses@[c]@[j]).var() as int]
}

/// A marked position after `u` leads to the conflict through marked positions after `u`, when
/// each marked position has an edge to a later node of `done`, and the nodes of `done` are the
/// conflict node or marked positions after `u`.
pub proof fn lemma_cone_path(h: History, f: Formula, ci: int, u: int, s: Seq<bool>, done: Seq<int>, p: int)
    -> (path: Seq<int>)
    requires
        0 <= u < p < level_trail(h.decision_levels@.last()).len(),
        s[level_trail(h.decision_levels@.last())[p].var() as int],
        forall|q: int| 0 <= q < level_trail(h.decision_levels@.last()).len()
            && s[(#[trigger] level_trail(h.decision_levels@.last())[q]).var() as int]
            ==> exists|k: int| 0 <= k < done.len() && q < done[k] && #[trigger] graph_edge(h, f, ci, q, done[k]),
        forall|k: int| 0 <= k < done.len() ==> #[trigger] done[k] == level_trail(h.decision_levels@.last()).len()
            || (u < done[k] < level_trail(h.decision_levels@.last()).len()
                && s[level_trail(h.decision_levels@.last())[done[k]].var() as int]),
    ensures
        graph_path(h, f, ci, path),
        path[0] == p,
        path.last() == level_trail(h.decision_levels@.last()).len(),
        forall|i: int| 0 <= i < path.len() ==> u < #[trigger] path[i],
    decreases level_trail(h.decision_levels@.last()).len() - p,
{
    let len = level_trail(h.decision_levels@.last()).len() as int;
    let tr = level_trail(h.decision_levels@.last());
    assert(s[tr[p].var() as int]);
    assert(0 <= p < tr.len());
    assert(exists|k: int| 0 <= k < done.len() && p < done[k] && #[trigger] graph_edge(h, f, ci, p, done[k]));
    let k = choose|k: int| 0 <= k < done.len() && p < done[k] && #[trigger] graph_edge(h, f, ci, p, done[k]);
    let y = done[k];
    if y == len {
        let path = seq![p, y];
        assert(path[0] == p && path[1] == y);
        assert(graph_edge(h, f, ci, path[0], path[1]));
        path
    } else {
        assert(done[k] == len || (u < done[k] < len && s[tr[done[k]].var() as int]));
        assert(p < y < len);
        let rest = lemma_cone_path(h, f, ci, u, s, done, y);
        let path = seq![p] + rest;
        assert forall|i: int| 0 <= i < path.len() - 1 implies #[trigger] graph_edge(h, f, ci, path[i], path[i + 1]) by {
            if i > 0 {
                let i2 = i - 1;
                assert(graph_edge(h, f, ci, rest[i2], rest[i2 + 1]));
                assert(path[i] == rest[i2] && path[i + 1] == rest[i2 + 1]);
            } else {
                assert(path[0] == p && path[1] == rest[0] && rest[0] == y);
            }
        }
        assert forall|i: int| 0 <= i < path.len() implies u < #[trigger] path[i] by {
            if i > 0 {
                assert(path[i] == rest[i - 1]);
            }
        }
        assert(path.last() == rest.last());
        path
    }
}

/// Walking back along a path of the cone, every node is marked or the conflict node, hence (when
/// every marked position after `u` is in `done`) in `done`.
pub proof fn lemma_cone_done(h: History, f: Formula, ci: int, u: int, s: Seq<bool>, done: Seq<int>, path: Seq<int>, i: int)
    requires
        graph_path(h, f, ci, path),
        path.last() == level_trail(h.decision_levels@.last()).len(),
        forall|k: int| 0 <= k < path.len() ==> u < #[trigger] path[k],
        0 <= i < path.len(),
        done_after(h, f, ci, u, s),
        forall|q: int| u < q < level_trail(h.decision_levels@.last()).len()
            && s[(#[trigger] level_trail(h.decision_levels@.last())[q]).var() as int] ==> done.contains(q),
        done.contains(level_trail(h.decision_levels@.last()).len() as int),
    ensures
        done.contains(path[i]),
        path[i] == level_trail(h.decision_levels@.last()).len() || s[level_trail(h.decision_levels@.last())[path[i]].var() as int],
    decreases path.len() - i,
{
    let tr = level_trail(h.decision_levels@.last());
    if i < path.len() - 1 {
        lemma_cone_done(h, f, ci, u, s, done, path, i + 1);
        assert(u < path[i + 1]);
        assert(node_done(h, f, ci, path[i + 1], s));
        assert(graph_edge(h, f, ci, path[i], path[i + 1]));
        assert(s[tr[path[i]].var() as int]);
        assert(u < path[i]);
    }
}

/// The nodes of `done` are the conflict node or marked positions from `lo` on.
pub open spec fn cone_nodes_ok(h: History, ci: int, lo: int, s: Seq<bool>, done: Seq<int>) -> bool {
    let tr = level_trail(h.decision_levels@.last());
    forall|k: int| 0 <= k < done.len() ==> #[trigger] done[k] == tr.len()
        || (lo <= done[k] < tr.len() && s[tr[done[k]].var() as int])
}

/// The clauses of the nodes of `done` have all their literals marked.
pub open spec fn cone_closed(h: History, f: Formula, ci: int, s: Seq<bool>, done: Seq<int>) -> bool {
    forall|k: int| 0 <= k < done.len() ==> #[trigger] clause_marked(h, f, ci, done[k], s)
}

/// Every marked position has an edge to a later node of `done`.
pub open spec fn cone_fed(h: History, f: Formula, ci: int, s: Seq<bool>, done: Seq<int>) -> bool {
    let tr = level_trail(h.decision_levels@.last());
    forall|q: int| 0 <= q < tr.len() && s[(#[trigger] tr[q]).var() as int]
        ==> exists|k: int| 0 <= k < done.len() && q < done[k] && #[trigger] graph_edge(h, f, ci, q, done[k])
}

/// Every marked variable of another level than the current one has a literal in `learned`, and
/// every literal of `learned` comes from the clause of a node of `done`.
pub open spec fn cone_learned(h: History, f: Formula, ci: int, s: Seq<bool>, done: Seq<int>, learned: Seq<Literal>) -> bool {
    &&& learned_covers(h, s, learned)
    &&& learned_from(h, f, ci, done, learned)
}

/// Every marked variable of another level than the current one has a literal in `learned`.
pub open spec fn learned_covers(h: History, s: Seq<bool>, learned: Seq<Literal>) -> bool {
    forall|v: int| 0 <= v < s.len() && #[trigger] s[v]
        && h.implication_levels_indexes.level_of_var(v as nat) != Some((h.decision_levels@.len() - 1) as usize)
        ==> exists|i: int| 0 <= i < learned.len() && #[trigger] learned[i].var() == v
}

/// Every literal of `learned` comes from the clause of a node of `done`.
pub open spec fn learned_from(h: History, f: Formula, ci: int, done: Seq<int>, learned: Seq<Literal>) -> bool {
    exists|ks: Seq<int>| ks.len() == learned.len() && #[trigger] traced(h, f, ci, done, learned, ks)
}

/// `ks[i]` is the position in `done` of a node whose clause holds `learned[i]`.
pub open spec fn traced(h: History, f: Formula, ci: int, done: Seq<int>, learned: Seq<Literal>, ks: Seq<int>) -> bool {
    forall|i: int| 0 <= i < learned.len() ==> 0 <= #[trigger] ks[i] < done.len() && from_node(h, f, ci, done[ks[i]], learned[i])
}

/// The marked positions after `t` are nodes of `done`.
pub open spec fn cone_walked(h: History, ci: int, t: int, s: Seq<bool>, done: Seq<int>) -> bool {
    let tr = level_trail(h.decision_levels@.last());
    forall|q: int| t < q < tr.len() && s[(#[trigger] tr[q]).var() as int] ==> done.contains(q)
}

/// Appending a literal of the clause of a node of `done` keeps every literal traced to one.
pub proof fn lemma_learned_from_push(h: History, f: Formula, ci: int, done: Seq<int>, learned: Seq<Literal>, lit: Literal, kx: int)
    requires
        learned_from(h, f, ci, done, learned),
        0 <= kx < done.len(),
        from_node(h, f, ci, done[kx], lit),
    ensures
        learned_from(h, f, ci, done, learned.push(lit)),
{
    let l1 = learned.push(lit);
    let ks = choose|ks: Seq<int>| ks.len() == learned.len() && #[trigger] traced(h, f, ci, done, learned, ks);
    let ks1 = ks.push(kx);
    assert forall|i: int| 0 <= i < l1.len() implies 0 <= #[trigger] ks1[i] < done.len() && from_node(h, f, ci, done[ks1[i]], l1[i]) by {
        if i < learned.len() {
            assert(l1[i] == learned[i] && ks1[i] == ks[i]);
        } else {
            assert(l1[i] == lit && ks1[i] == kx);
        }
    }
    assert(traced(h, f, ci, done, l1, ks1));
}

/// Marking the variable `v` of the literal at `j` of the clause `c` feeding node `x0` of `done`
/// keeps the cone's bookkeeping; `added` is what the walk appends to `learned` (the literal when
/// it is of another level, nothing otherwise).
pub proof fn lemma_cone_mark(h: History, f: Formula, ci: int, t: int, x0: int, s: Seq<bool>, done: Seq<int>,
    learned: Seq<Literal>, added: Seq<Literal>, c: int, j: int)
    requires
        walk_ready(h, f, ci),
        forall|q: int| 0 <= q < level_trail(h.decision_levels@.last()).len()
            ==> (#[trigger] level_trail(h.decision_levels@.last())[q]).var() < s.len(),
        0 <= t == x0 <= level_trail(h.decision_levels@.last()).len(),
        done.contains(x0),
        node_clause(h, ci, x0) == Some(c),
        0 <= j < f.clauses@[c]@.len(),
        x0 < level_trail(h.decision_levels@.last()).len() ==> f.clauses@[c]@[j] != level_trail(h.decision_levels@.last())[x0],
        f.clauses@[c]@[j].var() < s.len(),
        !s[f.clauses@[c]@[j].var() as int],
        x0 == level_trail(h.decision_levels@.last()).len() ==> ci == c,
        x0 < level_trail(h.decision_levels@.last()).len() ==> reason_ready(h, f, x0),
        h.level_of(f.clauses@[c]@[j]) == Some((h.decision_levels@.len() - 1) as usize) ==> added.len() == 0,
        h.level_of(f.clauses@[c]@[j]) != Some((h.decision_levels@.len() - 1) as usize) ==> added == seq![f.clauses@[c]@[j]],
        cone_fed(h, f, ci, s, done),
        cone_learned(h, f, ci, s, done, learned),
        cone_walked(h, ci, t, s, done),
    ensures
        cone_fed(h, f, ci, s.update(f.clauses@[c]@[j].var() as int, true), done),
        cone_learned(h, f, ci, s.update(f.clauses@[c]@[j].var() as int, true), done, learned + added),
        cone_walked(h, ci, t, s.update(f.clauses@[c]@[j].var() as int, true), done),
{
    let tr = level_trail(h.decision_levels@.last());
    let cur = (h.decision_levels@.len() - 1) as usize;
    let lit = f.clauses@[c]@[j];
    let v = lit.var() as int;
    let s1 = s.update(v, true);
    let l1 = learned + added;
    let kx = choose|k: int| 0 <= k < done.len() && done[k] == x0;
    if h.level_of(lit) == Some(cur) {
        let cl = f.clauses@[c]@;
        assert(var_on(tr, lit.var(), x0)) by {
            if x0 == tr.len() {
                assert(h.level_of(cl[j]) == Some(cur));
            } else {
                assert(reason_ready(h, f, x0));
            }
        }
        let q0 = choose|q: int| 0 <= q < x0 && #[trigger] tr[q].var() == lit.var();
        assert(tr[q0].var() == lit.var());
        assert(f.clauses@[c]@[j].var() == tr[q0].var());
        assert(x0 == tr.len() || f.clauses@[c]@[j] != tr[x0]);
        assert(node_clause(h, ci, x0) == Some(c));
        assert(graph_edge(h, f, ci, q0, x0));
        assert forall|q: int| 0 <= q < tr.len() && s1[(#[trigger] tr[q]).var() as int] implies
            exists|k: int| 0 <= k < done.len() && q < done[k] && #[trigger] graph_edge(h, f, ci, q, done[k]) by {
            if tr[q].var() == lit.var() {
                assert(q == q0);
                assert(done[kx] == x0 && graph_edge(h, f, ci, q, done[kx]));
            } else {
                assert(s[tr[q].var() as int]);
            }
        }
        assert(l1 =~= learned);
        assert forall|v2: int| 0 <= v2 < s1.len() && #[trigger] s1[v2] && h.implication_levels_indexes.level_of_var(v2 as nat) != Some(cur)
            implies exists|i: int| 0 <= i < l1.len() && #[trigger] l1[i].var() == v2 by {
            if v2 != v {
                assert(s[v2]);
            } else {
                assert(h.level_of(lit) == h.implication_levels_indexes.level_of_var(v2 as nat));
            }
        }
        assert forall|q: int| t < q < tr.len() && s1[(#[trigger] tr[q]).var() as int] implies done.contains(q) by {
            if tr[q].var() == lit.var() {
                assert(q == q0);
            } else {
                assert(s[tr[q].var() as int]);
            }
        }
        assert(learned_covers(h, s1, l1));
        assert(learned_from(h, f, ci, done, l1));
    } else {
        assert forall|q: int| 0 <= q < tr.len() implies (#[trigger] tr[q]).var() != lit.var() by {
            if tr[q].var() == lit.var() {
                assert(h.level_of(tr[q]) == h.level_of(lit));
            }
        }
        assert forall|q: int| 0 <= q < tr.len() && s1[(#[trigger] tr[q]).var() as int] implies
            exists|k: int| 0 <= k < done.len() && q < done[k] && #[trigger] graph_edge(h, f, ci, q, done[k]) by {
            assert(s[tr[q].var() as int]);
        }
        assert(l1 == learned.push(lit));
        assert(l1[learned.len() as int] == lit);
        assert forall|v2: int| 0 <= v2 < s1.len() && #[trigger] s1[v2] && h.implication_levels_indexes.level_of_var(v2 as nat) != Some(cur)
            implies exists|i: int| 0 <= i < l1.len() && #[trigger] l1[i].var() == v2 by {
            if v2 != v {
                assert(s[v2]);
                let i = choose|i: int| 0 <= i < learned.len() && #[trigger] learned[i].var() == v2;
                assert(l1[i] == learned[i]);
            } else {
                assert(l1[learned.len() as int].var() == v2);
            }
        }
        assert(from_node(h, f, ci, done[kx], lit));
        lemma_learned_from_push(h, f, ci, done, learned, lit, kx);
        assert forall|q: int| t < q < tr.len() && s1[(#[trigger] tr[q]).var() as int] implies done.contains(q) by {
            assert(s[tr[q].var() as int]);
        }
        assert(learned_covers(h, s1, l1));
        assert(learned_from(h, f, ci, done, l1));
    }
}

/// Every literal of `lits` is met when resolving back to `u`: it belongs to the clause of a node
/// of the cone (`xs[i]` is such a node for `lits[i]`).
pub open spec fn lits_from_cone(h: History, f: Formula, ci: int, u: int, lits: Seq<Literal>) -> bool {
    exists|xs: Seq<int>| xs.len() == lits.len() && #[trigger] cone_witnesses(h, f, ci, u, lits, xs)
}

/// `xs[i]` is a node of the cone whose clause holds `lits[i]`.
pub open spec fn cone_witnesses(h: History, f: Formula, ci: int, u: int, lits: Seq<Literal>, xs: Seq<int>) -> bool {
    forall|i: int| 0 <= i < lits.len() ==> in_cone(h, f, ci, u, #[trigger] xs[i]) && from_node(h, f, ci, xs[i], lits[i])
}

/// Every literal of another level than the current one in the clause of a node of the cone has
/// its variable among `lits`.
pub open spec fn cone_lits_in(h: History, f: Formula, ci: int, u: int, lits: Seq<Literal>) -> bool {
    forall|x: int, c: int, j: int| #![trigger in_cone(h, f, ci, u, x), f.clauses@[c]@[j]]
        in_cone(h, f, ci, u, x) && node_clause(h, ci, x) == Some(c) && 0 <= j < f.clauses@[c]@.len()
        && h.level_of(f.clauses@[c]@[j]) != Some((h.decision_levels@.len() - 1) as usize)
        ==> exists|i: int| 0 <= i < lits.len() && #[trigger] lits[i].var() == f.clauses@[c]@[j].var()
}

/// At the end of the walk, the learnt literals are exactly those of other levels met in the cone.
pub proof fn lemma_cone_result(h: History, f: Formula, ci: int, u: int, s: Seq<bool>, done: Seq<int>, learned: Seq<Literal>)
    requires
        walk_ready(h, f, ci),
        0 <= ci < f.clauses@.len(),
        forall|c: int, j: int| 0 <= c < f.clauses@.len() && 0 <= j < f.clauses@[c]@.len()
            ==> (#[trigger] f.clauses@[c]@[j]).var() < s.len(),
        forall|q: int| 0 <= q < level_trail(h.decision_levels@.last()).len()
            ==> (#[trigger] level_trail(h.decision_levels@.last())[q]).var() < s.len(),
        0 <= u < level_trail(h.decision_levels@.last()).len(),
        forall|q: int| 0 <= q < u ==> !s[(#[trigger] level_trail(h.decision_levels@.last())[q]).var() as int],
        done_after(h, f, ci, u, s),
        cone_nodes_ok(h, ci, u + 1, s, done),
        cone_closed(h, f, ci, s, done),
        cone_fed(h, f, ci, s, done),
        cone_learned(h, f, ci, s, done, learned),
        cone_walked(h, ci, u, s, done),
        done.contains(level_trail(h.decision_levels@.last()).len() as int),
    ensures
        lits_from_cone(h, f, ci, u, learned),
        cone_lits_in(h, f, ci, u, learned),
{
    let tr = level_trail(h.decision_levels@.last());
    let len = tr.len() as int;
    let cur = (h.decision_levels@.len() - 1) as usize;
    let ks = choose|ks: Seq<int>| ks.len() == learned.len() && #[trigger] traced(h, f, ci, done, learned, ks);
    let xs = Seq::new(learned.len(), |i: int| done[ks[i]]);
    assert forall|i: int| 0 <= i < learned.len() implies in_cone(h, f, ci, u, #[trigger] xs[i]) && from_node(h, f, ci, xs[i], learned[i]) by {
        assert(0 <= ks[i] < done.len());
        let x = done[ks[i]];
        assert(xs[i] == x);
        if x != len {
            let path = lemma_cone_path(h, f, ci, u, s, done, x);
        }
    }
    assert(cone_witnesses(h, f, ci, u, learned, xs));
    assert forall|x: int, c: int, j: int| #![trigger in_cone(h, f, ci, u, x), f.clauses@[c]@[j]]
        in_cone(h, f, ci, u, x) && node_clause(h, ci, x) == Some(c) && 0 <= j < f.clauses@[c]@.len()
        && h.level_of(f.clauses@[c]@[j]) != Some(cur)
        implies exists|i: int| 0 <= i < learned.len() && #[trigger] learned[i].var() == f.clauses@[c]@[j].var() by {
        if x != len {
            let path = choose|path: Seq<int>| #[trigger] graph_path(h, f, ci, path) && path[0] == x && path.last() == len
                && forall|i: int| 0 <= i < path.len() ==> u < #[trigger] path[i];
            lemma_cone_done(h, f, ci, u, s, done, path, 0);
        }
        assert(done.contains(x));
        let k = choose|k: int| 0 <= k < done.len() && done[k] == x;
        assert(clause_marked(h, f, ci, done[k], s));
        if c < 0 || c >= f.clauses@.len() {
            if x == len {
                assert(c == ci);
            } else {
                assert(reason_ready(h, f, x));
            }
        }
        let lit = f.clauses@[c]@[j];
        if x < len && lit == tr[x] {
            assert(h.level_of(tr[x]) == Some(cur));
        }
        assert(s[lit.var() as int]);
        assert(h.implication_levels_indexes.level_of_var(lit.var()) == h.level_of(lit));
        let v = lit.var() as int;
        assert(s[v]);
    }
}

/// Marking one more variable keeps the nodes of `done` marked and their clauses marked.
pub proof fn lemma_cone_grow(h: History, f: Formula, ci: int, lo: int, s: Seq<bool>, done: Seq<int>, done0: Seq<int>, v: int)
    requires
        0 <= v < s.len(),
        0 <= lo,
        walk_ready(h, f, ci),
        0 <= ci < f.clauses@.len(),
        forall|k: int| 0 <= k < done0.len() ==> 0 <= #[trigger] done0[k] <= level_trail(h.decision_levels@.last()).len(),
        forall|q: int| 0 <= q < level_trail(h.decision_levels@.last()).len()
            ==> (#[trigger] level_trail(h.decision_levels@.last())[q]).var() < s.len(),
        forall|c: int, j: int| 0 <= c < f.clauses@.len() && 0 <= j < f.clauses@[c]@.len()
            ==> (#[trigger] f.clauses@[c]@[j]).var() < s.len(),
        cone_nodes_ok(h, ci, lo, s, done),
        cone_closed(h, f, ci, s, done0),
    ensures
        cone_nodes_ok(h, ci, lo, s.update(v, true), done),
        cone_closed(h, f, ci, s.update(v, true), done0),
{
    let tr = level_trail(h.decision_levels@.last());
    let s1 = s.update(v, true);
    assert forall|k: int| 0 <= k < done.len() implies #[trigger] done[k] == tr.len()
        || (lo <= done[k] < tr.len() && s1[tr[done[k]].var() as int]) by {
        if done[k] != tr.len() {
            assert(s[tr[done[k]].var() as int]);
        }
    }
    assert forall|k: int| 0 <= k < done0.len() implies #[trigger] clause_marked(h, f, ci, done0[k], s1) by {
        assert(clause_marked(h, f, ci, done0[k], s));
        assert forall|c: int, j: int| node_clause(h, ci, done0[k]) == Some(c) && 0 <= j < f.clauses@[c]@.len()
            && !(done0[k] < tr.len() && f.clauses@[c]@[j] == tr[done0[k]]) implies s1[(#[trigger] f.clauses@[c]@[j]).var() as int] by {
            assert(s[f.clauses@[c]@[j].var() as int]);
            if done0[k] < tr.len() {
                assert(reason_ready(h, f, done0[k]));
            }
            assert(0 <= c < f.clauses@.len());
        }
    }
}

/// Moving the first literal to the end keeps both properties of the learnt literals.
pub proof fn lemma_cone_rotate(h: History, f: Formula, ci: int, u: int, m: Seq<Literal>)
    requires
        lits_from_cone(h, f, ci, u, m),
        cone_lits_in(h, f, ci, u, m),
        m.len() >= 1,
    ensures
        lits_from_cone(h, f, ci, u, m.subrange(1, m.len() as int).push(m[0])),
        cone_lits_in(h, f, ci, u, m.subrange(1, m.len() as int).push(m[0])),
{
    let r = m.subrange(1, m.len() as int).push(m[0]);
    let xs = choose|xs: Seq<int>| xs.len() == m.len() && #[trigger] cone_witnesses(h, f, ci, u, m, xs);
    let ys = xs.subrange(1, xs.len() as int).push(xs[0]);
    assert forall|i: int| 0 <= i < r.len() implies in_cone(h, f, ci, u, #[trigger] ys[i]) && from_node(h, f, ci, ys[i], r[i]) by {
        if i < m.len() - 1 {
            assert(ys[i] == xs[i + 1] && r[i] == m[i + 1]);
        } else {
            assert(ys[i] == xs[0] && r[i] == m[0]);
        }
    }
    assert(cone_witnesses(h, f, ci, u, r, ys));
    assert forall|x: int, c: int, j: int| #![trigger in_cone(h, f, ci, u, x), f.clauses@[c]@[j]]
        in_cone(h, f, ci, u, x) && node_clause(h, ci, x) == Some(c) && 0 <= j < f.clauses@[c]@.len()
        && h.level_of(f.clauses@[c]@[j]) != Some((h.decision_levels@.len() - 1) as usize)
        implies exists|i: int| 0 <= i < r.len() && #[trigger] r[i].var() == f.clauses@[c]@[j].var() by {
        let i = choose|i: int| 0 <= i < m.len() && #[trigger] m[i].var() == f.clauses@[c]@[j].var();
        if i == 0 {
            assert(r[m.len() - 1] == m[0]);
        } else {
            assert(r[i - 1] == m[i]);
        }
    }
}

/// A positive count has a marked position before `t`.
pub proof fn lemma_open_count_witness(tr: Seq<Literal>, s: Seq<bool>, t: int)
    requires
        t <= tr.len(),
        open_count(tr, s, t) >= 1,
    ensures
        exists|q: int| 0 <= q < t && tr[q].var() < s.len() && s[(#[trigger] tr[q]).var() as int],
    decreases t,
{
    if t > 0 {
        if !(tr[t - 1].var() < s.len() && s[tr[t - 1].var() as int]) {
            lemma_open_count_witness(tr, s, t - 1);
            let q = choose|q: int| 0 <= q < t - 1 && tr[q].var() < s.len() && s[(#[trigger] tr[q]).var() as int];
        }
    }
}

/// From a marked position, later nodes of `done` lead to the conflict through nodes that come no
/// earlier and are marked or the conflict node.
pub proof fn lemma_rising_path(h: History, f: Formula, ci: int, s: Seq<bool>, done: Seq<int>, p: int) -> (path: Seq<int>)
    requires
        0 <= p < level_trail(h.decision_levels@.last()).len(),
        s[level_trail(h.decision_levels@.last())[p].var() as int],
        cone_fed(h, f, ci, s, done),
        forall|k: int| 0 <= k < done.len() ==> #[trigger] done[k] == level_trail(h.decision_levels@.last()).len()
            || (0 <= done[k] < level_trail(h.decision_levels@.last()).len()
                && s[level_trail(h.decision_levels@.last())[done[k]].var() as int]),
    ensures
        graph_path(h, f, ci, path),
        path[0] == p,
        path.last() == level_trail(h.decision_levels@.last()).len(),
        forall|i: int| 0 <= i < path.len() ==> p <= #[trigger] path[i] && (path[i] == level_trail(h.decision_levels@.last()).len()
            || s[level_trail(h.decision_levels@.last())[path[i]].var() as int]),
    decreases level_trail(h.decision_levels@.last()).len() - p,
{
    let tr = level_trail(h.decision_levels@.last());
    let len = tr.len() as int;
    assert(exists|k: int| 0 <= k < done.len() && p < done[k] && #[trigger] graph_edge(h, f, ci, p, done[k]));
    let k = choose|k: int| 0 <= k < done.len() && p < done[k] && #[trigger] graph_edge(h, f, ci, p, done[k]);
    let y = done[k];
    assert(done[k] == len || (0 <= done[k] < len && s[tr[done[k]].var() as int]));
    if y == len {
        let path = seq![p, y];
        assert(path[0] == p && path[1] == y);
        assert(graph_edge(h, f, ci, path[0], path[1]));
        path
    } else {
        let rest = lemma_rising_path(h, f, ci, s, done, y);
        let path = seq![p] + rest;
        assert forall|i: int| 0 <= i < path.len() - 1 implies #[trigger] graph_edge(h, f, ci, path[i], path[i + 1]) by {
            if i > 0 {
                let i2 = i - 1;
                assert(graph_edge(h, f, ci, rest[i2], rest[i2 + 1]));
                assert(path[i] == rest[i2] && path[i + 1] == rest[i2 + 1]);
            } else {
                assert(path[0] == p && path[1] == rest[0] && rest[0] == y);
            }
        }
        assert forall|i: int| 0 <= i < path.len() implies p <= #[trigger] path[i] && (path[i] == len
            || s[tr[path[i]].var() as int]) by {
            if i > 0 {
                assert(path[i] == rest[i - 1]);
            }
        }
        assert(path.last() == rest.last());
        path
    }
}

/// No position after the implication point `u` dominates the conflict: `u` is the first one.
pub open spec fn first_dominator(h: History, f: Formula, ci: int, u: int) -> bool {
    forall|p: int| u < p < level_trail(h.decision_levels@.last()).len() ==> !#[trigger] dominates_conflict(h, f, ci, p)
}

/// A path that enters the conflict's graph before `p` and jumps over it shows that `p` does not
/// dominate the conflict.
pub proof fn lemma_bypass(h: History, f: Formula, ci: int, s: Seq<bool>, done: Seq<int>, p: int, q: int, x: int)
    requires
        0 <= q < p < x,
        graph_edge(h, f, ci, q, x),
        x == level_trail(h.decision_levels@.last()).len()
            || (x < level_trail(h.decision_levels@.last()).len() && s[level_trail(h.decision_levels@.last())[x].var() as int]),
        cone_fed(h, f, ci, s, done),
        forall|k: int| 0 <= k < done.len() ==> #[trigger] done[k] == level_trail(h.decision_levels@.last()).len()
            || (0 <= done[k] < level_trail(h.decision_levels@.last()).len()
                && s[level_trail(h.decision_levels@.last())[done[k]].var() as int]),
    ensures
        !dominates_conflict(h, f, ci, p),
{
    let len = level_trail(h.decision_levels@.last()).len() as int;
    if x == len {
        let path = seq![q, x];
        assert(path[0] == q && path[1] == x);
        assert(graph_edge(h, f, ci, path[0], path[1]));
        assert(graph_path(h, f, ci, path));
        assert(!path.contains(p)) by {
            if path.contains(p) {
                let i = choose|i: int| 0 <= i < path.len() && path[i] == p;
            }
        }
        assert(path[0] == q && path.last() == len);
    } else {
        let rest = lemma_rising_path(h, f, ci, s, done, x);
        let path = seq![q] + rest;
        assert forall|i: int| 0 <= i < path.len() - 1 implies #[trigger] graph_edge(h, f, ci, path[i], path[i + 1]) by {
            if i > 0 {
                let i2 = i - 1;
                assert(graph_edge(h, f, ci, rest[i2], rest[i2 + 1]));
                assert(path[i] == rest[i2] && path[i + 1] == rest[i2 + 1]);
            } else {
                assert(path[0] == q && path[1] == rest[0] && rest[0] == x);
            }
        }
        assert(graph_path(h, f, ci, path));
        assert(path.last() == rest.last());
        assert(!path.contains(p)) by {
            if path.contains(p) {
                let i = choose|i: int| 0 <= i < path.len() && path[i] == p;
                if i > 0 {
                    assert(path[i] == rest[i - 1]);
                    assert(x <= rest[i - 1]);
                }
            }
        }
        assert(path[0] == q && path.last() == len);
    }
}

/// A position off the marked region does not dominate the conflict: the marked path from the
/// implication point `u` avoids it.
pub proof fn lemma_unmarked_bypassed(h: History, f: Formula, ci: int, s: Seq<bool>, done: Seq<int>, p: int, u: int)
    requires
        0 <= u < p < level_trail(h.decision_levels@.last()).len(),
        s[level_trail(h.decision_levels@.last())[u].var() as int],
        !s[level_trail(h.decision_levels@.last())[p].var() as int],
        cone_fed(h, f, ci, s, done),
        forall|k: int| 0 <= k < done.len() ==> #[trigger] done[k] == level_trail(h.decision_levels@.last()).len()
            || (0 <= done[k] < level_trail(h.decision_levels@.last()).len()
                && s[level_trail(h.decision_levels@.last())[done[k]].var() as int]),
    ensures
        !dominates_conflict(h, f, ci, p),
{
    let path = lemma_rising_path(h, f, ci, s, done, u);
    assert(!path.contains(p)) by {
        if path.contains(p) {
            let i = choose|i: int| 0 <= i < path.len() && path[i] == p;
        }
    }
}

/// At the end of the walk, every later position is bypassed by some path to the conflict.
pub proof fn lemma_cone_first(h: History, f: Formula, ci: int, u: int, s: Seq<bool>, done: Seq<int>, learned: Seq<Literal>)
    requires
        cone_state(h, f, ci, u + 1, u, s, done, done.len() as int, learned),
        0 <= u < level_trail(h.decision_levels@.last()).len(),
        s[level_trail(h.decision_levels@.last())[u].var() as int],
    ensures
        first_dominator(h, f, ci, u),
{
    reveal(cone_state);
    reveal(cone_bypassed);
    let tr = level_trail(h.decision_levels@.last());
    let len = tr.len() as int;
    assert forall|k: int| 0 <= k < done.len() implies #[trigger] done[k] == len
        || (0 <= done[k] < len && s[tr[done[k]].var() as int]) by {
        assert(done[k] == len || (u + 1 <= done[k] < len && s[tr[done[k]].var() as int]));
    }
    assert forall|p: int| u < p < len implies !#[trigger] dominates_conflict(h, f, ci, p) by {
        if s[tr[p].var() as int] {
            assert(done.contains(p));
            let k = choose|k: int| 0 <= k < done.len() && done[k] == p;
            let (q, j) = choose|q: int, j: int| 0 <= q < done[k] && 0 <= j < done.len() && done[k] < done[j]
                && #[trigger] graph_edge(h, f, ci, q, done[j]);
            assert(done[j] == len || (0 <= done[j] < len && s[tr[done[j]].var() as int]));
            lemma_bypass(h, f, ci, s, done, p, q, done[j]);
        } else {
            lemma_unmarked_bypassed(h, f, ci, s, done, p, u);
        }
    }
}

/// The bookkeeping of the walk back from the conflict: `done` lists the nodes whose clauses were
/// resolved (all but the last `done.len() - closed` fully marked), `s` marks the variables met,
/// and `learned` the literals of other levels met.
#[verifier::opaque]
pub open spec fn cone_state(h: History, f: Formula, ci: int, lo: int, t: int, s: Seq<bool>, done: Seq<int>, closed: int,
    learned: Seq<Literal>) -> bool {
    &&& cone_nodes_ok(h, ci, lo, s, done)
    &&& cone_closed(h, f, ci, s, done.subrange(0, closed))
    &&& cone_fed(h, f, ci, s, done)
    &&& cone_learned(h, f, ci, s, done, learned)
    &&& cone_walked(h, ci, t, s, done)
    &&& 0 <= closed <= done.len()
    &&& forall|k: int| 0 <= k < done.len() ==> 0 <= #[trigger] done[k] <= level_trail(h.decision_levels@.last()).len()
    &&& cone_bypassed(h, f, ci, done)
}

/// Each position of `done` was resolved while another marked position before it stayed open:
/// some earlier position has an edge to a later node of `done`.
#[verifier::opaque]
pub open spec fn cone_bypassed(h: History, f: Formula, ci: int, done: Seq<int>) -> bool {
    forall|k: int| 0 <= k < done.len() && #[trigger] done[k] < level_trail(h.decision_levels@.last()).len()
        ==> exists|q: int, j: int| 0 <= q < done[k] && 0 <= j < done.len() && done[k] < done[j]
            && #[trigger] graph_edge(h, f, ci, q, done[j])
}

/// Nothing is marked before the walk.
pub proof fn lemma_cone_start(h: History, f: Formula, ci: int, s: Seq<bool>)
    requires
        forall|v: int| 0 <= v < s.len() ==> !#[trigger] s[v],
        forall|q: int| 0 <= q < level_trail(h.decision_levels@.last()).len()
            ==> (#[trigger] level_trail(h.decision_levels@.last())[q]).var() < s.len(),
    ensures
        cone_state(h, f, ci, level_trail(h.decision_levels@.last()).len() as int + 1, level_trail(h.decision_levels@.last()).len() as int,
            s, Seq::empty(), 0, Seq::empty()),
{
    reveal(cone_state);
    reveal(cone_bypassed);
    let tr = level_trail(h.decision_levels@.last());
    let e: Seq<Literal> = Seq::empty();
    let ks: Seq<int> = Seq::empty();
    assert(traced(h, f, ci, Seq::empty(), e, ks));
    assert forall|q: int| 0 <= q < tr.len() && s[(#[trigger] tr[q]).var() as int]
        implies exists|k: int| 0 <= k < Seq::<int>::empty().len() && q < Seq::<int>::empty()[k]
            && #[trigger] graph_edge(h, f, ci, q, Seq::<int>::empty()[k]) by {
        assert(!s[tr[q].var() as int]);
    }
    assert(Seq::<int>::empty().subrange(0, 0) =~= Seq::<int>::empty());
}

/// Starting on the node `t` (the conflict node, or a marked position).
pub proof fn lemma_cone_push(h: History, f: Formula, ci: int, t: int, s: Seq<bool>, done: Seq<int>, learned: Seq<Literal>)
    requires
        cone_state(h, f, ci, t + 1, t, s, done, done.len() as int, learned),
        0 <= t <= level_trail(h.decision_levels@.last()).len(),
        t < level_trail(h.decision_levels@.last()).len() ==> s[level_trail(h.decision_levels@.last())[t].var() as int],
        t < level_trail(h.decision_levels@.last()).len() ==> exists|q: int| 0 <= q < t
            && s[(#[trigger] level_trail(h.decision_levels@.last())[q]).var() as int],
    ensures
        cone_state(h, f, ci, t, t, s, done.push(t), done.len() as int, learned),
{
    reveal(cone_state);
    reveal(cone_bypassed);
    let tr = level_trail(h.decision_levels@.last());
    let d1 = done.push(t);
    assert forall|k: int| 0 <= k < d1.len() && #[trigger] d1[k] < tr.len()
        implies exists|q: int, j: int| 0 <= q < d1[k] && 0 <= j < d1.len() && d1[k] < d1[j]
            && #[trigger] graph_edge(h, f, ci, q, d1[j]) by {
        if k < done.len() {
            assert(d1[k] == done[k]);
            let (q, j) = choose|q: int, j: int| 0 <= q < done[k] && 0 <= j < done.len() && done[k] < done[j]
                && #[trigger] graph_edge(h, f, ci, q, done[j]);
            assert(d1[j] == done[j]);
        } else {
            assert(d1[k] == t);
            let q = choose|q: int| 0 <= q < t && s[(#[trigger] tr[q]).var() as int];
            let j = choose|j: int| 0 <= j < done.len() && q < done[j] && #[trigger] graph_edge(h, f, ci, q, done[j]);
            assert(done[j] == tr.len() || (t + 1 <= done[j] < tr.len() && s[tr[done[j]].var() as int]));
            assert(d1[j] == done[j]);
        }
    }
    assert forall|k: int| 0 <= k < d1.len() implies #[trigger] d1[k] == tr.len()
        || (t <= d1[k] < tr.len() && s[tr[d1[k]].var() as int]) by {
        if k < done.len() {
            assert(d1[k] == done[k]);
        }
    }
    assert(d1.subrange(0, done.len() as int) =~= done.subrange(0, done.len() as int));
    assert forall|q: int| 0 <= q < tr.len() && s[(#[trigger] tr[q]).var() as int]
        implies exists|k: int| 0 <= k < d1.len() && q < d1[k] && #[trigger] graph_edge(h, f, ci, q, d1[k]) by {
        let k = choose|k: int| 0 <= k < done.len() && q < done[k] && #[trigger] graph_edge(h, f, ci, q, done[k]);
        assert(d1[k] == done[k]);
    }
    let ks = choose|ks: Seq<int>| ks.len() == learned.len() && #[trigger] traced(h, f, ci, done, learned, ks);
    assert forall|i: int| 0 <= i < learned.len() implies 0 <= #[trigger] ks[i] < d1.len()
        && from_node(h, f, ci, d1[ks[i]], learned[i]) by {
        assert(d1[ks[i]] == done[ks[i]]);
    }
    assert(traced(h, f, ci, d1, learned, ks));
    assert forall|q: int| t < q < tr.len() && s[(#[trigger] tr[q]).var() as int] implies d1.contains(q) by {
        assert(done.contains(q));
        let k = choose|k: int| 0 <= k < done.len() && done[k] == q;
        assert(d1[k] == q);
    }
    assert forall|k: int| 0 <= k < d1.len() implies 0 <= #[trigger] d1[k] <= tr.len() by {
        if k < done.len() {
            assert(d1[k] == done[k]);
        }
    }
}

/// One more marked variable, met in the clause of the node `t` being resolved.
pub proof fn lemma_cone_state_mark(h: History, f: Formula, ci: int, t: int, s: Seq<bool>, done: Seq<int>,
    learned: Seq<Literal>, added: Seq<Literal>, c: int, j: int)
    requires
        cone_state(h, f, ci, t, t, s, done, done.len() - 1, learned),
        done.len() >= 1,
        done.last() == t,
        walk_ready(h, f, ci),
        0 <= ci < f.clauses@.len(),
        forall|q: int| 0 <= q < level_trail(h.decision_levels@.last()).len()
            ==> (#[trigger] level_trail(h.decision_levels@.last())[q]).var() < s.len(),
        forall|c2: int, j2: int| 0 <= c2 < f.clauses@.len() && 0 <= j2 < f.clauses@[c2]@.len()
            ==> (#[trigger] f.clauses@[c2]@[j2]).var() < s.len(),
        0 <= t <= level_trail(h.decision_levels@.last()).len(),
        node_clause(h, ci, t) == Some(c),
        0 <= j < f.clauses@[c]@.len(),
        t < level_trail(h.decision_levels@.last()).len() ==> f.clauses@[c]@[j] != level_trail(h.decision_levels@.last())[t],
        f.clauses@[c]@[j].var() < s.len(),
        !s[f.clauses@[c]@[j].var() as int],
        t == level_trail(h.decision_levels@.last()).len() ==> ci == c,
        t < level_trail(h.decision_levels@.last()).len() ==> reason_ready(h, f, t),
        h.level_of(f.clauses@[c]@[j]) == Some((h.decision_levels@.len() - 1) as usize) ==> added.len() == 0,
        h.level_of(f.clauses@[c]@[j]) != Some((h.decision_levels@.len() - 1) as usize) ==> added == seq![f.clauses@[c]@[j]],
    ensures
        cone_state(h, f, ci, t, t, s.update(f.clauses@[c]@[j].var() as int, true), done, done.len() - 1, learned + added),
{
    reveal(cone_state);
    assert(done[done.len() - 1] == t);
    assert(done.contains(t));
    lemma_cone_mark(h, f, ci, t, t, s, done, learned, added, c, j);
    let d0 = done.subrange(0, done.len() - 1);
    assert forall|k: int| 0 <= k < d0.len() implies 0 <= #[trigger] d0[k] <= level_trail(h.decision_levels@.last()).len() by {
        assert(d0[k] == done[k]);
    }
    lemma_cone_grow(h, f, ci, t, s, done, d0, f.clauses@[c]@[j].var() as int);
}

/// The clause of the last node of `done` is fully marked.
#[verifier::rlimit(40)]
#[verifier::spinoff_prover]
pub proof fn lemma_cone_close(h: History, f: Formula, ci: int, t: int, s: Seq<bool>, done: Seq<int>, learned: Seq<Literal>)
    requires
        cone_state(h, f, ci, t, t, s, done, done.len() - 1, learned),
        done.len() >= 1,
        clause_marked(h, f, ci, done.last(), s),
    ensures
        cone_state(h, f, ci, t, t, s, done, done.len() as int, learned),
{
    reveal(cone_state);
    let d0 = done.subrange(0, done.len() - 1);
    let d1 = done.subrange(0, done.len() as int);
    assert forall|k: int| 0 <= k < d1.len() implies #[trigger] clause_marked(h, f, ci, d1[k], s) by {
        if k < d0.len() {
            assert(d1[k] == d0[k]);
            assert(clause_marked(h, f, ci, d0[k], s));
        } else {
            assert(d1[k] == done.last());
        }
    }
}

/// One step of the walk down the trail past a position that is not marked (or is the node just
/// resolved).
pub proof fn lemma_cone_walk(h: History, f: Formula, ci: int, lo: int, t: int, s: Seq<bool>, done: Seq<int>, learned: Seq<Literal>)
    requires
        cone_state(h, f, ci, lo, t, s, done, done.len() as int, learned),
        0 < t <= level_trail(h.decision_levels@.last()).len(),
        done.len() >= 1,
        done.last() == lo,
        t != lo ==> t == level_trail(h.decision_levels@.last()).len() || !s[level_trail(h.decision_levels@.last())[t].var() as int],
    ensures
        cone_state(h, f, ci, lo, t - 1, s, done, done.len() as int, learned),
{
    reveal(cone_state);
    let tr = level_trail(h.decision_levels@.last());
    assert forall|q: int| t - 1 < q < tr.len() && s[(#[trigger] tr[q]).var() as int] implies done.contains(q) by {
        if q == t && t == lo {
            assert(done[done.len() - 1] == q);
        }
    }
}

/// The walk stopped below the node it resolved last.
pub proof fn lemma_cone_lower(h: History, f: Formula, ci: int, lo: int, t: int, s: Seq<bool>, done: Seq<int>, learned: Seq<Literal>)
    requires
        cone_state(h, f, ci, lo, t, s, done, done.len() as int, learned),
        t < lo,
    ensures
        cone_state(h, f, ci, t + 1, t, s, done, done.len() as int, learned),
{
    reveal(cone_state);
}

/// At the implication point `u`, the learnt literals are those of other levels met in the cone.
pub proof fn lemma_cone_end(h: History, f: Formula, ci: int, u: int, s: Seq<bool>, done: Seq<int>, learned: Seq<Literal>)
    requires
        cone_state(h, f, ci, u + 1, u, s, done, done.len() as int, learned),
        walk_ready(h, f, ci),
        0 <= ci < f.clauses@.len(),
        forall|c: int, j: int| 0 <= c < f.clauses@.len() && 0 <= j < f.clauses@[c]@.len()
            ==> (#[trigger] f.clauses@[c]@[j]).var() < s.len(),
        forall|q: int| 0 <= q < level_trail(h.decision_levels@.last()).len()
            ==> (#[trigger] level_trail(h.decision_levels@.last())[q]).var() < s.len(),
        0 <= u < level_trail(h.decision_levels@.last()).len(),
        forall|q: int| 0 <= q < u ==> !s[(#[trigger] level_trail(h.decision_levels@.last())[q]).var() as int],
        done_after(h, f, ci, u, s),
        done.contains(level_trail(h.decision_levels@.last()).len() as int),
    ensures
        lits_from_cone(h, f, ci, u, learned),
        cone_lits_in(h, f, ci, u, learned),
{
    reveal(cone_state);
    assert(done.subrange(0, done.len() as int) =~= done);
    lemma_cone_result(h, f, ci, u, s, done, learned);
}

/// The analysis `a` of the conflict on clause `ci`: its implication point dominates the conflict,
/// and its learnt literals after the first are exactly (by variable) the literals of other levels
/// met in the clauses resolved on.
pub open spec fn first_uip_analysis(h: History, f: Formula, ci: int, u: int, lits: Seq<Literal>) -> bool {
    let rest = lits.subrange(1, lits.len() as int);
    &&& dominates_conflict(h, f, ci, u)
    &&& first_dominator(h, f, ci, u)
    &&& lits_from_cone(h, f, ci, u, rest)
    &&& cone_lits_in(h, f, ci, u, rest)
}

/// The implication graph of the current level around a conflict, with the first-UIP clause.
///
/// Nodes are the positions of `trail` plus one node `trail.len()` for the conflict;
/// `successors[p]` lists the nodes whose reason clause uses the negation of `trail[p]`.
pub struct ConflictAnalysis {
    pub current_level: usize,
    pub uip_clause_literals: Vec<Literal>,
    pub trail: Vec<Literal>,
    pub first_uip_pos: usize,
    pub successors: Vec<Vec<usize>>,
    pub present: Vec<bool>,
    pub reason_of: Vec<Option<usize>>,
    pub pos_of: Vec<Option<usize>>,
}

impl ConflictAnalysis {
    /// Shape of an analysis of `history` over a formula with `n` variable slots.
    pub open spec fn wf(&self, history: &History, n: nat) -> bool {
        let t = self.trail@;
        &&& self.current_level == history.level_spec()
        &&& t == level_trail(history.decision_levels@.last())
        &&& self.reason_of@ == level_trail_reasons(history.decision_levels@.last())
        &&& self.pos_of@.len() == 2 * n
        &&& positions_ok(t, self.pos_of@)
        &&& self.first_uip_pos < t.len()
        &&& self.successors@.len() == t.len() + 1
        &&& self.present@.len() == t.len() + 1
        &&& self.present@[t.len() as int]
        &&& self.present@[self.first_uip_pos as int]
        &&& forall|p: int, k: int| 0 <= p < self.successors@.len() && 0 <= k < self.successors@[p]@.len()
            ==> #[trigger] self.successors@[p]@[k] <= t.len()
        &&& self.uip_clause_literals@.len() >= 1
        &&& self.uip_clause_literals@[0]@ == -t[self.first_uip_pos as int]@
        &&& forall|i: int| 1 <= i < self.uip_clause_literals@.len() ==>
            history.level_of(#[trigger] self.uip_clause_literals@[i]) != Some(self.current_level)
        &&& lits_in_range(self.uip_clause_literals@, n)
        &&& self.uip_clause_literals@.len() <= n + 2
        &&& lits_in_range(t, n)
    }
}

/// The trail of the current level, the position of each of its literals (by dense index)
/// and the reason of each position.
pub fn current_level_context(history: &History, formula: &Formula)
    -> (r: (Vec<Literal>, Vec<Option<usize>>, Vec<Option<usize>>))
    requires
        formula.wf(),
        formula.tracks(history),
    ensures
        r.0@ == level_trail(history.decision_levels@.last()),
        r.2@ == level_trail_reasons(history.decision_levels@.last()),
        r.1@.len() == 2 * formula.n_vars(),
        positions_ok(r.0@, r.1@),
        lits_in_range(r.0@, formula.n_vars()),
{
    let last = history.decision_levels.len() - 1;
    let level = &history.decision_levels[last];
    let ghost n = formula.n_vars();
    proof {
        assert(level.wf());
        assert(level.below(n));
    }
    let mut trail: Vec<Literal> = Vec::new();
    let mut pos_of: Vec<Option<usize>> = Vec::new();
    let size = formula.assignment.len() * 2;
    for _i in 0..size
        invariant
            pos_of@.len() == _i,
            forall|j: int| 0 <= j < pos_of@.len() ==> #[trigger] pos_of@[j] is None,
    {
        pos_of.push(None);
    }
    let mut reason_of: Vec<Option<usize>> = Vec::new();
    let ghost implied = Seq::new(level.implied_literals@.len(), |i: int| level.implied_literals@[i].0);
    let ghost implied_reasons = Seq::new(level.implied_literals@.len(), |i: int| level.reason_spec(level.implied_literals@[i].0));
    let ghost head: Seq<Literal> = Seq::empty();
    let ghost head_reasons: Seq<Option<usize>> = Seq::empty();
    if let Some(decision) = level.get_decision_literal() {
        let p = trail.len();
        pos_of.set(decision.get_unsigned_index() as usize, Some(p));
        trail.push(*decision);
        reason_of.push(None);
        proof {
            head = seq![*decision];
            head_reasons = seq![None::<usize>];
            assert(trail@ =~= head);
            assert(reason_of@ =~= head_reasons);
        }
    } else {
        proof {
            assert(trail@ =~= head);
            assert(reason_of@ =~= head_reasons);
        }
    }
    let implied_lits = level.implied_literals_iter();
    for i in 0..implied_lits.len()
        invariant
            implied_lits@ == implied,
            implied.len() == level.implied_literals@.len(),
            implied_reasons.len() == implied.len(),
            forall|j: int| 0 <= j < implied.len() ==> #[trigger] implied[j] == level.implied_literals@[j].0,
            forall|j: int| 0 <= j < implied.len() ==> #[trigger] implied_reasons[j] == level.reason_spec(level.implied_literals@[j].0),
            level.wf(),
            level.below(n),
            n == formula.n_vars(),
            pos_of@.len() == 2 * n,
            head.len() <= 1,
            trail@ == head + implied.subrange(0, i as int),
            reason_of@ == head_reasons + implied_reasons.subrange(0, i as int),
            positions_ok(trail@, pos_of@),
            lits_in_range(trail@, n),
    {
        let lit = implied_lits[i];
        proof {
            assert(level.implied_literals@[i as int].0.wf());
            assert(level.implied_literals@[i as int].0.var() < n);
        }
        let p = trail.len();
        let ghost prev_trail = trail@;
        let ghost prev_pos = pos_of@;
        pos_of.set(lit.get_unsigned_index() as usize, Some(p));
        trail.push(lit);
        reason_of.push(level.get_reason(&lit));
        proof {
            assert(trail@ =~= head + implied.subrange(0, i + 1));
            assert(reason_of@ =~= head_reasons + implied_reasons.subrange(0, i + 1));
            assert forall|u: int| 0 <= u < pos_of@.len() implies (#[trigger] pos_of@[u] matches Some(q) ==> q < trail@.len()
                && trail@[q as int].uidx() == u) by {
                if u != lit.uidx() as int {
                    assert(pos_of@[u] == prev_pos[u]);
                }
            }
            assert forall|q: int| 0 <= q < trail@.len() implies (#[trigger] trail@[q]).wf() && trail@[q].var() < n by {
                if q < prev_trail.len() {
                    assert(trail@[q] == prev_trail[q]);
                }
            }
            assert forall|q: int| 0 <= q < trail@.len() implies (#[trigger] trail@[q]).uidx() < pos_of@.len()
                && pos_of@[trail@[q].uidx() as int] is Some by {
                if q < prev_trail.len() {
                    assert(trail@[q] == prev_trail[q]);
                }
            }
        }
    }
    proof {
        assert(implied.subrange(0, implied.len() as int) =~= implied);
        assert(implied_reasons.subrange(0, implied.len() as int) =~= implied_reasons);
        assert(trail@ =~= level_trail(history.decision_levels@.last()));
        assert(reason_of@ =~= level_trail_reasons(history.decision_levels@.last()));
    }
    (trail, pos_of, reason_of)
}


/// Walks the implication graph of the current level back from the conflict clause, resolving on
/// the current-level literals in reverse trail order until one path remains: the first UIP. The
/// learnt clause holds the negation of the UIP first, then the other-level literals met on the
/// way; the graph records which trail positions feed which. `None` at the root level, and when the
/// trail or the recorded levels do not support the walk; above the root level a history that
/// supports it (`walk_ready`) always gives an analysis.
#[verifier::rlimit(60)]
#[verifier::spinoff_prover]
pub fn analyze_conflict_graph(history: &History, formula: &Formula, conflict_clause_index: usize)
    -> (r: Option<ConflictAnalysis>)
    requires
        formula.wf(),
        formula.tracks(history),
        conflict_clause_index < formula.clauses@.len(),
    ensures
        history.level_spec() == 0 ==> r is None,
        history.level_spec() > 0 && walk_ready(*history, *formula, conflict_clause_index as int) ==> r is Some,
        r matches Some(a) ==> (walk_ready(*history, *formula, conflict_clause_index as int)
            ==> dominates_conflict(*history, *formula, conflict_clause_index as int, a.first_uip_pos as int)
                && first_dominator(*history, *formula, conflict_clause_index as int, a.first_uip_pos as int)),
        r matches Some(a) ==> (walk_ready(*history, *formula, conflict_clause_index as int) ==> {
            let rest = a.uip_clause_literals@.subrange(1, a.uip_clause_literals@.len() as int);
            &&& lits_from_cone(*history, *formula, conflict_clause_index as int, a.first_uip_pos as int, rest)
            &&& cone_lits_in(*history, *formula, conflict_clause_index as int, a.first_uip_pos as int, rest)
        }),
        r matches Some(a) ==> a.wf(history, formula.n_vars()),
{
    let current_level = history.get_decision_level();
    if current_level == 0 {
        return None;
    }
    let ghost n = formula.n_vars();
    let ghost ready = walk_ready(*history, *formula, conflict_clause_index as int);
    let (trail, pos_of, reason_of) = current_level_context(history, formula);
    let conflict_idx = trail.len();
    if conflict_idx == usize::MAX {
        return None;
    }
    let mut successors: Vec<Vec<usize>> = Vec::new();
    let mut present: Vec<bool> = Vec::new();
    for _i in 0..conflict_idx + 1
        invariant
            successors@.len() == _i,
            present@.len() == _i,
            forall|p: int| 0 <= p < successors@.len() ==> (#[trigger] successors@[p])@.len() == 0,
    {
        successors.push(Vec::new());
        present.push(false);
    }
    present.set(conflict_idx, true);
    let mut seen = BitSet::new(formula.assignment.len() + 1);
    let mut learned_lits: Vec<Literal> = Vec::new();
    let mut path_count: usize = 0;
    let mut current_clause_idx: Option<usize> = Some(conflict_clause_index);
    let mut resolved_lit_idx: Option<i32> = None;
    let mut current_node_idx: usize = conflict_idx;
    let level_data = &history.decision_levels[current_level];
    proof {
        assert(level_data.reasons_below(formula.clauses@.len()));
    }
    let mut t: usize = trail.len();
    let mut first_uip_pos: usize = 0;
    let ghost mut done: Seq<int> = Seq::empty();
    proof {
        lemma_open_count_zero(trail@, bitset_bits(seen), t as int);
        assert forall|c: int, j: int| 0 <= c < formula.clauses@.len() && 0 <= j < formula.clauses@[c]@.len()
            implies (#[trigger] formula.clauses@[c]@[j]).var() < bitset_bits(seen).len() by {
            assert(formula.clause_fits(formula.clauses@[c]));
            assert(formula.clauses@[c]@[j].var() < n);
        }
        lemma_cone_start(*history, *formula, conflict_clause_index as int, bitset_bits(seen));
    }
    loop
        invariant_except_break
            learned_lits@.len() + path_count <= count_true(bitset_bits(seen)),
            forall|i: int| 0 <= i < learned_lits@.len() ==> history.level_of(#[trigger] learned_lits@[i]) != Some(current_level),
            ready ==> path_count == open_count(trail@, bitset_bits(seen), t as int),
            ready && resolved_lit_idx is None ==> t == conflict_idx && current_clause_idx == Some(conflict_clause_index),
            ready && resolved_lit_idx is Some ==> path_count >= 1 && t == current_node_idx
                && current_clause_idx == level_data.reason_spec(trail@[t as int]),
            ready ==> done_after(*history, *formula, conflict_clause_index as int, t as int, bitset_bits(seen)),
            ready ==> cone_state(*history, *formula, conflict_clause_index as int, t + 1, t as int, bitset_bits(seen), done,
                done.len() as int, learned_lits@),
            ready && resolved_lit_idx is Some ==> done.contains(conflict_idx as int) && bitset_bits(seen)[trail@[t as int].var() as int],
        invariant
            forall|c: int, j: int| 0 <= c < formula.clauses@.len() && 0 <= j < formula.clauses@[c]@.len()
                ==> (#[trigger] formula.clauses@[c]@[j]).var() < bitset_bits(seen).len(),
            conflict_clause_index < formula.clauses@.len(),
            formula.wf(),
            formula.tracks(history),
            n == formula.n_vars(),
            *level_data == history.decision_levels@.last(),
            level_data.reasons_below(formula.clauses@.len()),
            current_level == history.level_spec(),
            conflict_idx == trail@.len(),
            trail@ == level_trail(history.decision_levels@.last()),
            pos_of@.len() == 2 * n,
            positions_ok(trail@, pos_of@),
            lits_in_range(trail@, n),
            t <= trail@.len(),
            successors@.len() == conflict_idx + 1,
            present@.len() == conflict_idx + 1,
            present@[conflict_idx as int],
            forall|p: int, k: int| 0 <= p < successors@.len() && 0 <= k < successors@[p]@.len()
                ==> #[trigger] successors@[p]@[k] <= conflict_idx,
            current_node_idx <= conflict_idx,
            present@[current_node_idx as int],
            bitset_bits(seen).len() == n + 1,
            lits_in_range(learned_lits@, n),
            current_clause_idx matches Some(c) ==> c < formula.clauses@.len(),
            resolved_lit_idx matches Some(x) ==> current_node_idx < conflict_idx && x == trail@[current_node_idx as int]@,
            ready == walk_ready(*history, *formula, conflict_clause_index as int),
            current_level > 0,
        ensures
            learned_lits@.len() <= n + 2,
            learned_lits@.len() >= 1,
            first_uip_pos < conflict_idx,
            present@[first_uip_pos as int],
            learned_lits@.last()@ == -trail@[first_uip_pos as int]@,
            forall|i: int| 0 <= i < learned_lits@.len() - 1 ==> history.level_of(#[trigger] learned_lits@[i]) != Some(current_level),
            ready ==> dominates_conflict(*history, *formula, conflict_clause_index as int, first_uip_pos as int),
            ready ==> first_dominator(*history, *formula, conflict_clause_index as int, first_uip_pos as int),
            ready ==> lits_from_cone(*history, *formula, conflict_clause_index as int, first_uip_pos as int,
                learned_lits@.subrange(0, learned_lits@.len() - 1)),
            ready ==> cone_lits_in(*history, *formula, conflict_clause_index as int, first_uip_pos as int,
                learned_lits@.subrange(0, learned_lits@.len() - 1)),
        decreases t,
    {
        let ghost t_start = t;
        let ghost done_prev = done;
        proof {
            if ready {
                if resolved_lit_idx is Some {
                    lemma_open_count_witness(trail@, bitset_bits(seen), t as int);
                }
                lemma_cone_push(*history, *formula, conflict_clause_index as int, t as int, bitset_bits(seen), done, learned_lits@);
            }
            done = done.push(t as int);
        }
        if let Some(clause_idx) = current_clause_idx {
            proof {
                assert(formula.clause_fits(formula.clauses@[clause_idx as int]));
                if ready && resolved_lit_idx is Some {
                    assert(reason_ready(*history, *formula, t as int));
                }
            }
            let lits = &formula.clauses[clause_idx].literals;
            let ghost path_start = path_count;
            proof {
                if ready {
                    assert(node_clause(*history, conflict_clause_index as int, t as int) == Some(clause_idx as int));
                }
            }
            for j in 0..lits.len()
                invariant
                    ready == walk_ready(*history, *formula, conflict_clause_index as int),
                    ready ==> path_count == open_count(trail@, bitset_bits(seen), t as int),
                    ready ==> path_count >= path_start,
                    ready && resolved_lit_idx is None ==> t == conflict_idx && clause_idx == conflict_clause_index
                        && forall|k: int| 0 <= k < j ==> #[trigger] bitset_bits(seen)[lits@[k].var() as int],
                    ready && resolved_lit_idx is Some ==> t == current_node_idx && t < conflict_idx
                        && Some(clause_idx) == level_data.reason_spec(trail@[t as int]),
                    ready ==> forall|k: int| 0 <= k < j ==> skips(resolved_lit_idx, lits@[k])
                        || #[trigger] bitset_bits(seen)[lits@[k].var() as int],
                    ready ==> done_after(*history, *formula, conflict_clause_index as int, t as int, bitset_bits(seen)),
                    ready ==> cone_state(*history, *formula, conflict_clause_index as int, t as int, t as int, bitset_bits(seen), done,
                        done.len() - 1, learned_lits@),
                    done.len() >= 1 && done.last() == t as int,
                    ready ==> node_clause(*history, conflict_clause_index as int, t as int) == Some(clause_idx as int),
                    forall|c: int, jj: int| 0 <= c < formula.clauses@.len() && 0 <= jj < formula.clauses@[c]@.len()
                        ==> (#[trigger] formula.clauses@[c]@[jj]).var() < bitset_bits(seen).len(),
                    conflict_clause_index < formula.clauses@.len(),
                    resolved_lit_idx matches Some(x) ==> current_node_idx < conflict_idx && x == trail@[current_node_idx as int]@,
                    *level_data == history.decision_levels@.last(),
                    trail@ == level_trail(history.decision_levels@.last()),
                    lits_in_range(trail@, n),
                    t <= trail@.len(),
                    current_level > 0,
                    clause_idx < formula.clauses@.len(),
                    *lits == formula.clauses@[clause_idx as int].literals,
                    formula.clause_fits(formula.clauses@[clause_idx as int]),
                    n == formula.n_vars(),
                    pos_of@.len() == 2 * n,
                    positions_ok(trail@, pos_of@),
                    conflict_idx == trail@.len(),
                    successors@.len() == conflict_idx + 1,
                    present@.len() == conflict_idx + 1,
                    present@[conflict_idx as int],
                    forall|p: int, k: int| 0 <= p < successors@.len() && 0 <= k < successors@[p]@.len()
                        ==> #[trigger] successors@[p]@[k] <= conflict_idx,
                    current_node_idx <= conflict_idx,
                    present@[current_node_idx as int],
                    bitset_bits(seen).len() == n + 1,
                    lits_in_range(learned_lits@, n),
                    learned_lits@.len() + path_count <= count_true(bitset_bits(seen)),
                    current_level == history.level_spec(),
                    forall|i: int| 0 <= i < learned_lits@.len() ==> history.level_of(#[trigger] learned_lits@[i]) != Some(current_level),
            {
                let lit = lits[j];
                proof {
                    assert(formula.clauses@[clause_idx as int]@[j as int].wf());
                    assert(formula.clauses@[clause_idx as int]@[j as int].var() < n);
                }
                let skip = match resolved_lit_idx {
                    Some(x) => x == lit.get_index(),
                    None => false,
                };
                if !skip {
                    let pred = lit.negated();
                    let pu = pred.get_unsigned_index() as usize;
                    if pu < pos_of.len() {
                        if let Some(pred_idx) = pos_of[pu] {
                            let ghost before = successors@;
                            successors[pred_idx].push(current_node_idx);
                            present.set(pred_idx, true);
                            proof {
                                assert forall|p: int, k: int| 0 <= p < successors@.len() && 0 <= k < successors@[p]@.len()
                                    implies #[trigger] successors@[p]@[k] <= conflict_idx by {
                                    if p != pred_idx as int {
                                        assert(successors@[p] == before[p]);
                                    } else if k < before[p]@.len() {
                                        assert(successors@[p]@[k] == before[p]@[k]);
                                    }
                                }
                            }
                        }
                    }
                    let var = lit.get_variable();
                    if !seen.test(var) {
                        proof { lemma_count_true_set(bitset_bits(seen), var as int); }
                        let ghost s0 = bitset_bits(seen);
                        seen.set(var);
                        let level = match history.get_literal_level(&lit) {
                            Some(l) => l,
                            None => 0,
                        };
                        proof {
                            if ready {
                                let tr = trail@;
                                if level == current_level {
                                    let q0 = if resolved_lit_idx is Some {
                                        assert(lit != tr[t as int]) by {
                                            Literal::lemma_view_injective(lit, tr[t as int]);
                                        }
                                        assert(reason_ready(*history, *formula, t as int));
                                        choose|q: int| 0 <= q < t && #[trigger] tr[q].var() == lit.var()
                                    } else {
                                        choose|q: int| 0 <= q < tr.len() && #[trigger] tr[q].var() == lit.var()
                                    };
                                    assert(tr[q0].var() == lit.var());
                                    lemma_open_count_mark(tr, s0, t as int, q0);
                                    assert forall|x: int| t < x < tr.len() implies (#[trigger] tr[x]).var() != var by {
                                        assert(x != q0);
                                    }
                                } else {
                                    assert forall|q: int| 0 <= q < t implies #[trigger] tr[q].var() != var by {
                                        if tr[q].var() == var {
                                            assert(history.level_of(tr[q]) == history.level_of(lit));
                                        }
                                    }
                                    lemma_open_count_same(tr, s0, t as int, var as int);
                                    assert forall|x: int| t < x < tr.len() implies (#[trigger] tr[x]).var() != var by {
                                        if tr[x].var() == var {
                                            assert(history.level_of(tr[x]) == history.level_of(lit));
                                        }
                                    }
                                }
                                lemma_done_after_mark(*history, *formula, conflict_clause_index as int, t as int, s0, var as int);
                            }
                        }
                        let ghost lb = learned_lits@;
                        let ghost added: Seq<Literal> = if level == current_level { Seq::empty() } else { seq![lit] };
                        proof {
                            if ready {
                                if t < conflict_idx {
                                    assert(lit != trail@[t as int]) by {
                                        if !skips(resolved_lit_idx, lit) {
                                            Literal::lemma_view_injective(lit, trail@[t as int]);
                                        }
                                    }
                                    assert(reason_ready(*history, *formula, t as int));
                                }
                                assert(formula.clauses@[clause_idx as int]@[j as int] == lit);
                                lemma_cone_state_mark(*history, *formula, conflict_clause_index as int, t as int, s0, done, lb, added,
                                    clause_idx as int, j as int);
                            }
                        }
                        if level == current_level {
                            proof { lemma_count_true_le(bitset_bits(seen)); }
                            path_count = path_count + 1;
                        } else {
                            learned_lits.push(lit);
                        }
                        proof {
                            assert(learned_lits@ =~= lb + added);
                        }
                    }
                }
            }
            proof {
                if ready && resolved_lit_idx is None {
                    let cl = formula.clauses@[conflict_clause_index as int]@;
                    let cur = (history.decision_levels@.len() - 1) as usize;
                    let j0 = choose|j: int| 0 <= j < cl.len() && #[trigger] history.level_of(cl[j]) == Some(cur);
                    assert(history.level_of(cl[j0]) == Some(cur));
                    let q = choose|q: int| 0 <= q < trail@.len() && #[trigger] trail@[q].var() == cl[j0].var();
                    assert(bitset_bits(seen)[lits@[j0].var() as int]);
                    lemma_open_count_pos(trail@, bitset_bits(seen), t as int, q);
                }
                if ready {
                    let tr = trail@;
                    assert(node_clause(*history, conflict_clause_index as int, t as int) == Some(clause_idx as int));
                    assert forall|q: int| 0 <= q < tr.len() && #[trigger] graph_edge(*history, *formula, conflict_clause_index as int, q, t as int)
                        implies bitset_bits(seen)[tr[q].var() as int] by {
                        let (c, j) = choose|c: int, j: int| node_clause(*history, conflict_clause_index as int, t as int) == Some(c)
                            && 0 <= j < formula.clauses@[c]@.len() && #[trigger] formula.clauses@[c]@[j].var() == tr[q].var()
                            && (t == tr.len() || formula.clauses@[c]@[j] != tr[t as int]);
                        assert(c == clause_idx as int);
                        if skips(resolved_lit_idx, lits@[j]) {
                            Literal::lemma_view_injective(lits@[j], tr[t as int]);
                        }
                        assert(bitset_bits(seen)[lits@[j].var() as int]);
                    }
                    assert(node_done(*history, *formula, conflict_clause_index as int, t as int, bitset_bits(seen)));
                    let ci = conflict_clause_index as int;
                    assert forall|c: int, j: int| node_clause(*history, ci, t as int) == Some(c) && 0 <= j < formula.clauses@[c]@.len()
                        && !(t < tr.len() && formula.clauses@[c]@[j] == tr[t as int])
                        implies bitset_bits(seen)[(#[trigger] formula.clauses@[c]@[j]).var() as int] by {
                        assert(c == clause_idx as int);
                        if skips(resolved_lit_idx, lits@[j]) {
                            Literal::lemma_view_injective(lits@[j], tr[t as int]);
                        }
                    }
                    assert(clause_marked(*history, *formula, ci, done.last(), bitset_bits(seen)));
                    lemma_cone_close(*history, *formula, ci, t as int, bitset_bits(seen), done, learned_lits@);
                }
            }
        } else {
            proof {
                if ready {
                    assert(node_clause(*history, conflict_clause_index as int, t as int) is None);
                    assert(node_done(*history, *formula, conflict_clause_index as int, t as int, bitset_bits(seen)));
                    assert(clause_marked(*history, *formula, conflict_clause_index as int, done.last(), bitset_bits(seen)));
                    lemma_cone_close(*history, *formula, conflict_clause_index as int, t as int, bitset_bits(seen), done, learned_lits@);
                }
            }
        }
        proof {
            if ready {
                assert(done[done.len() - 1] == t_start as int);
                if resolved_lit_idx is None {
                    assert(t_start == conflict_idx);
                    assert(done.contains(conflict_idx as int));
                } else {
                    let k = choose|k: int| 0 <= k < done_prev.len() && done_prev[k] == conflict_idx as int;
                    assert(done[k] == done_prev[k]);
                    assert(done.contains(conflict_idx as int));
                }
            }
        }
        loop
            invariant_except_break
                ready ==> path_count >= 1,
                ready && t < t_start ==> !bitset_bits(seen)[trail@[t as int].var() as int],
            invariant
                ready ==> done_after(*history, *formula, conflict_clause_index as int, t as int, bitset_bits(seen)),
                ready ==> node_done(*history, *formula, conflict_clause_index as int, t_start as int, bitset_bits(seen)),
                ready ==> cone_state(*history, *formula, conflict_clause_index as int, t_start as int, t as int, bitset_bits(seen),
                    done, done.len() as int, learned_lits@),
                done.len() >= 1 && done.last() == t_start as int,
                ready ==> done.contains(conflict_idx as int),
                ready ==> lits_in_range(trail@, n),
                t <= t_start,
                t_start <= trail@.len(),
                conflict_idx == trail@.len(),
                pos_of@.len() == 2 * n,
                positions_ok(trail@, pos_of@),
                lits_in_range(trail@, n),
                present@.len() == conflict_idx + 1,
                present@[conflict_idx as int],
                current_node_idx <= conflict_idx,
                present@[current_node_idx as int],
                bitset_bits(seen).len() == n + 1,
                learned_lits@.len() + path_count <= count_true(bitset_bits(seen)),
                *level_data == history.decision_levels@.last(),
                level_data.reasons_below(formula.clauses@.len()),
                resolved_lit_idx matches Some(x) ==> current_node_idx < conflict_idx && x == trail@[current_node_idx as int]@,
                current_clause_idx matches Some(c) ==> c < formula.clauses@.len(),
                ready == walk_ready(*history, *formula, conflict_clause_index as int),
                trail@ == level_trail(history.decision_levels@.last()),
                ready ==> path_count == open_count(trail@, bitset_bits(seen), t as int),
            ensures
                ready ==> path_count == open_count(trail@, bitset_bits(seen), t as int) && t == current_node_idx
                    && current_clause_idx == level_data.reason_spec(trail@[t as int]),
                ready ==> done_after(*history, *formula, conflict_clause_index as int, t as int, bitset_bits(seen)),
                ready ==> cone_state(*history, *formula, conflict_clause_index as int, t_start as int, t as int, bitset_bits(seen),
                    done, done.len() as int, learned_lits@),
                ready ==> bitset_bits(seen)[trail@[t as int].var() as int],
                t < t_start,
                resolved_lit_idx matches Some(x) ==> current_node_idx < conflict_idx && x == trail@[current_node_idx as int]@,
                resolved_lit_idx is Some,
                current_node_idx <= conflict_idx,
                present@.len() == conflict_idx + 1,
                present@[conflict_idx as int],
                present@[current_node_idx as int],
                current_clause_idx matches Some(c) ==> c < formula.clauses@.len(),
                learned_lits@.len() + path_count <= count_true(bitset_bits(seen)),
            decreases t,
        {
            if t == 0 {
                proof {
                    if ready {
                        assert(open_count(trail@, bitset_bits(seen), 0) == 0);
                    }
                }
                return None;
            }
            let ghost t_old = t as int;
            t = t - 1;
            let lit = trail[t];
            let var = lit.get_variable();
            proof {
                assert(open_count(trail@, bitset_bits(seen), t_old) == open_count(trail@, bitset_bits(seen), t as int)
                    + if trail@[t as int].var() < bitset_bits(seen).len() && bitset_bits(seen)[trail@[t as int].var() as int] { 1nat } else { 0nat });
                if ready {
                    let tr = trail@;
                    let sb = bitset_bits(seen);
                    assert forall|x: int| t < x <= tr.len() && (x == tr.len() || sb[tr[x].var() as int]) implies
                        #[trigger] node_done(*history, *formula, conflict_clause_index as int, x, sb) by {
                        if x == t_old && t_old != t_start as int {
                            assert(!sb[tr[t_old].var() as int]);
                        }
                    }
                    lemma_cone_walk(*history, *formula, conflict_clause_index as int, t_start as int, t_old, sb, done, learned_lits@);
                }
            }
            if seen.test(var) {
                resolved_lit_idx = Some(lit.get_index());
                let u = lit.get_unsigned_index() as usize;
                current_node_idx = match pos_of[u] {
                    Some(p) => p,
                    None => {
                        return None;
                    },
                };
                proof {
                    assert(trail@[current_node_idx as int].uidx() == lit.uidx());
                    if trail@[current_node_idx as int]@ != lit@ {
                        lemma_unsigned_index_injective(trail@[current_node_idx as int]@, lit@);
                    }
                    if ready {
                        assert(trail@[current_node_idx as int].var() == trail@[t as int].var());
                        assert(current_node_idx == t);
                    }
                }
                present.set(current_node_idx, true);
                if path_count == 0 {
                    return None;
                }
                path_count = path_count - 1;
                current_clause_idx = level_data.get_reason(&lit);
                break;
            }
        }
        proof {
            if ready {
                lemma_cone_lower(*history, *formula, conflict_clause_index as int, t_start as int, t as int, bitset_bits(seen),
                    done, learned_lits@);
            }
        }
        if path_count == 0 {
            let resolved = match resolved_lit_idx {
                Some(x) => x,
                None => {
                    return None;
                },
            };
            proof { lemma_count_true_le(bitset_bits(seen)); }
            let ghost learned_before_uip = learned_lits@;
            learned_lits.push(Literal::new(-resolved));
            first_uip_pos = current_node_idx;
            proof {
                if ready {
                    lemma_open_count_none(trail@, bitset_bits(seen), t as int);
                    lemma_dominates(*history, *formula, conflict_clause_index as int, bitset_bits(seen), t as int);
                    lemma_cone_end(*history, *formula, conflict_clause_index as int, t as int, bitset_bits(seen), done, learned_before_uip);
                    lemma_cone_first(*history, *formula, conflict_clause_index as int, t as int, bitset_bits(seen), done, learned_before_uip);
                    assert(learned_lits@.subrange(0, learned_lits@.len() - 1) =~= learned_before_uip);
                }
            }
            break;
        }
    }
    let last_idx = learned_lits.len() - 1;
    let first = learned_lits[0];
    let last = learned_lits[last_idx];
    let ghost before = learned_lits@;
    learned_lits.set(0, last);
    learned_lits.set(last_idx, first);
    proof {
        assert forall|i: int| 1 <= i < learned_lits@.len() implies
            history.level_of(#[trigger] learned_lits@[i]) != Some(current_level) by {
            if i == last_idx as int {
                assert(learned_lits@[i] == before[0]);
            } else {
                assert(learned_lits@[i] == before[i]);
            }
        }
        if ready {
            let m = before.subrange(0, before.len() - 1);
            let rest = learned_lits@.subrange(1, learned_lits@.len() as int);
            if m.len() == 0 {
                assert(rest =~= m);
            } else {
                assert(rest =~= m.subrange(1, m.len() as int).push(m[0]));
                lemma_cone_rotate(*history, *formula, conflict_clause_index as int, first_uip_pos as int, m);
            }
        }
    }
    Some(ConflictAnalysis {
        current_level,
        uip_clause_literals: learned_lits,
        trail,
        first_uip_pos,
        successors,
        present,
        reason_of,
        pos_of,
    })
}

} // verus!
