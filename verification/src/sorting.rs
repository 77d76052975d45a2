use vstd::prelude::*;

verus! {

/// Strictly increasing.
pub open spec fn strictly_increasing(s: Seq<usize>) -> bool {
    forall|i: int, j: int| 0 <= i < j < s.len() ==> s[i] < s[j]
}

/// Non-increasing.
pub open spec fn non_increasing(s: Seq<usize>) -> bool {
    forall|i: int, j: int| 0 <= i <= j < s.len() ==> s[i] >= s[j]
}

proof fn lemma_contains_insert(s: Seq<usize>, pos: int, x: usize, y: usize)
    requires
        0 <= pos <= s.len(),
    ensures
        s.insert(pos, x).contains(y) <==> (s.contains(y) || y == x),
{
    let t = s.insert(pos, x);
    if s.contains(y) {
        let k = choose|k: int| 0 <= k < s.len() && #[trigger] s[k] == y;
        if k < pos {
            assert(t[k] == y);
        } else {
            assert(t[k + 1] == y);
        }
    }
    if y == x {
        assert(t[pos] == x);
    }
    if t.contains(y) {
        let k = choose|k: int| 0 <= k < t.len() && #[trigger] t[k] == y;
        if k < pos {
            assert(s[k] == y);
        } else if k > pos {
            assert(s[k - 1] == y);
        }
    }
}

/// Whether `s` holds `x`.
pub fn contains_usize(s: &Vec<usize>, x: usize) -> (r: bool)
    ensures
        r == s@.contains(x),
{
    for i in 0..s.len()
        invariant
            forall|k: int| 0 <= k < i ==> s@[k] != x,
    {
        if s[i] == x {
            assert(s@[i as int] == x);
            return true;
        }
    }
    false
}

/// The distinct values of `v` in increasing order (what `sort_unstable` then `dedup` leave).
pub fn sort_dedup(v: &Vec<usize>) -> (r: Vec<usize>)
    ensures
        strictly_increasing(r@),
        forall|x: usize| #[trigger] r@.contains(x) <==> v@.contains(x),
        r@.len() <= v@.len(),
{
    let mut r: Vec<usize> = Vec::new();
    for i in 0..v.len()
        invariant
            strictly_increasing(r@),
            forall|x: usize| #[trigger] r@.contains(x) <==> v@.subrange(0, i as int).contains(x),
            r@.len() <= i,
    {
        let x = v[i];
        let mut pos: usize = 0;
        while pos < r.len() && r[pos] < x
            invariant
                pos <= r@.len(),
                strictly_increasing(r@),
                forall|k: int| 0 <= k < pos ==> r@[k] < x,
            decreases r@.len() - pos,
        {
            pos = pos + 1;
        }
        let ghost old_r = r@;
        assert(v@.subrange(0, i + 1) =~= v@.subrange(0, i as int).push(x));
        if pos < r.len() && r[pos] == x {
            assert forall|y: usize| #[trigger] r@.contains(y) <==> v@.subrange(0, i + 1).contains(y) by {
                vstd::seq_lib::lemma_seq_contains_after_push(v@.subrange(0, i as int), x, y);
                if y == x {
                    assert(r@[pos as int] == x);
                }
            }
        } else {
            r.insert(pos, x);
            assert forall|a: int, b: int| 0 <= a < b < r@.len() implies r@[a] < r@[b] by {
                if b < pos {
                } else if b == pos {
                } else if a < pos {
                    assert(r@[b] == old_r[b - 1]);
                    if pos < old_r.len() {
                        assert(old_r[pos as int] > x);
                    }
                } else if a == pos {
                    assert(old_r[a] > x || old_r.len() == pos);
                } else {
                }
            }
            assert(r@ =~= old_r.insert(pos as int, x));
            assert forall|y: usize| #[trigger] r@.contains(y) <==> v@.subrange(0, i + 1).contains(y) by {
                lemma_contains_insert(old_r, pos as int, x, y);
                vstd::seq_lib::lemma_seq_contains_after_push(v@.subrange(0, i as int), x, y);
            }
        }
    }
    assert(v@.subrange(0, v@.len() as int) =~= v@);
    r
}

/// `v` sorted into non-increasing order (a permutation of it).
pub fn sort_descending(v: &Vec<usize>) -> (r: Vec<usize>)
    ensures
        non_increasing(r@),
        r@.to_multiset() == v@.to_multiset(),
        r@.len() == v@.len(),
{
    let mut r: Vec<usize> = Vec::new();
    assert(r@ =~= v@.subrange(0, 0));
    for i in 0..v.len()
        invariant
            non_increasing(r@),
            r@.to_multiset() == v@.subrange(0, i as int).to_multiset(),
            r@.len() == i,
    {
        let x = v[i];
        let mut pos: usize = 0;
        while pos < r.len() && r[pos] >= x
            invariant
                pos <= r@.len(),
                non_increasing(r@),
                forall|k: int| 0 <= k < pos ==> r@[k] >= x,
            decreases r@.len() - pos,
        {
            pos = pos + 1;
        }
        let ghost old_r = r@;
        r.insert(pos, x);
        proof {
            assert(v@.subrange(0, i + 1) =~= v@.subrange(0, i as int).push(x));
            vstd::seq_lib::to_multiset_insert(old_r, pos as int, x);
            vstd::seq_lib::to_multiset_build(v@.subrange(0, i as int), x);
            assert forall|a: int, b: int| 0 <= a <= b < r@.len() implies r@[a] >= r@[b] by {
                if b < pos {
                } else if b == pos {
                } else if a < pos {
                    assert(r@[b] == old_r[b - 1]);
                } else if a == pos {
                    assert(r@[b] == old_r[b - 1]);
                    if pos < old_r.len() {
                        assert(old_r[pos as int] < x);
                    }
                } else {
                }
            }
        }
    }
    assert(v@.subrange(0, v@.len() as int) =~= v@);
    r
}

} // verus!
