use vstd::prelude::*;
use crate::formula::literal::Literal;

verus! {

/// Which literal positions of a clause are watched.
#[derive(Clone, Copy, Debug, PartialEq, Eq, Structural)]
pub enum Watched {
    Unwatched,
    One(usize),
    Two(usize, usize),
}

/// For every literal (by dense index), the indices of the clauses watching it.
#[derive(Clone)]
pub struct Watch {
    watchlist: Vec<Vec<usize>>,
}

impl View for Watch {
    type V = Seq<Seq<usize>>;

    closed spec fn view(&self) -> Seq<Seq<usize>> {
        Seq::new(self.watchlist@.len(), |i: int| self.watchlist@[i]@)
    }
}

/// `s` with every occurrence of `x` removed, order kept.
pub open spec fn seq_without(s: Seq<usize>, x: usize) -> Seq<usize>
    decreases s.len(),
{
    if s.len() == 0 {
        s
    } else if s.last() == x {
        seq_without(s.drop_last(), x)
    } else {
        seq_without(s.drop_last(), x).push(s.last())
    }
}

/// `s` with `x` removed and every entry above `x` decremented, as after deleting clause `x`.
pub open spec fn seq_shift_after_delete(s: Seq<usize>, x: usize) -> Seq<usize>
    decreases s.len(),
{
    if s.len() == 0 {
        s
    } else if s.last() == x {
        seq_shift_after_delete(s.drop_last(), x)
    } else if s.last() > x {
        seq_shift_after_delete(s.drop_last(), x).push((s.last() - 1) as usize)
    } else {
        seq_shift_after_delete(s.drop_last(), x).push(s.last())
    }
}

impl Watch {
    /// Watch lists for `n_lits` variables: two (empty) lists per variable.
    pub fn new(n_lits: usize) -> (r: Self)
        requires
            n_lits * 2 <= usize::MAX,
        ensures
            r@ == Seq::new((2 * n_lits) as nat, |i: int| Seq::<usize>::empty()),
    {
        let mut watchlist: Vec<Vec<usize>> = Vec::new();
        for _i in 0..n_lits
            invariant
                watchlist@.len() == 2 * _i,
                forall|j: int| 0 <= j < watchlist@.len() ==> watchlist@[j]@.len() == 0,
        {
            watchlist.push(Vec::new());
            watchlist.push(Vec::new());
        }
        let r = Self { watchlist };
        assert forall|j: int| 0 <= j < r@.len() implies r@[j] =~= Seq::<usize>::empty() by {}
        assert(r@ =~= Seq::new((2 * n_lits) as nat, |i: int| Seq::<usize>::empty()));
        r
    }

    pub fn len(&self) -> (r: usize)
        ensures
            r == self@.len(),
    {
        self.watchlist.len()
    }

    /// The clauses watched by `lit`.
    pub fn get_watched(&self, lit: &Literal) -> (r: &Vec<usize>)
        requires
            lit.wf(),
            lit.uidx() < self@.len(),
        ensures
            r@ == self@[lit.uidx() as int],
    {
        let idx = lit.get_unsigned_index() as usize;
        &self.watchlist[idx]
    }

    /// Pushes `clause_idx` onto the watch list of `lit`.
    pub fn add_to_watchlist(&mut self, clause_idx: usize, lit: &Literal)
        requires
            lit.wf(),
            lit.uidx() < old(self)@.len(),
        ensures
            final(self)@ == old(self)@.update(
                lit.uidx() as int,
                old(self)@[lit.uidx() as int].push(clause_idx),
            ),
    {
        let idx = lit.get_unsigned_index() as usize;
        let mut list = Vec::new();
        std::mem::swap(&mut list, &mut self.watchlist[idx]);
        list.push(clause_idx);
        self.watchlist.set(idx, list);
        assert(self@ =~= old(self)@.update(
            lit.uidx() as int,
            old(self)@[lit.uidx() as int].push(clause_idx),
        ));
    }

    /// Makes room for one more variable (two more lists).
    pub fn add_literal(&mut self)
        ensures
            final(self)@ == old(self)@.push(Seq::empty()).push(Seq::empty()),
    {
        self.watchlist.push(Vec::new());
        self.watchlist.push(Vec::new());
        assert(self@ =~= old(self)@.push(Seq::empty()).push(Seq::empty()));
    }

    /// Removes every occurrence of `clause_idx` from the watch list of `lit`.
    pub fn remove_from_watchlist(&mut self, clause_idx: usize, lit: &Literal)
        requires
            lit.wf(),
            lit.uidx() < old(self)@.len(),
        ensures
            final(self)@ == old(self)@.update(
                lit.uidx() as int,
                seq_without(old(self)@[lit.uidx() as int], clause_idx),
            ),
    {
        let idx = lit.get_unsigned_index() as usize;
        let mut list = Vec::new();
        std::mem::swap(&mut list, &mut self.watchlist[idx]);
        let ghost old_list = list@;
        let mut kept: Vec<usize> = Vec::new();
        for k in 0..list.len()
            invariant
                list@ == old_list,
                kept@ == seq_without(old_list.subrange(0, k as int), clause_idx),
        {
            assert(old_list.subrange(0, k + 1).drop_last() =~= old_list.subrange(0, k as int));
            if list[k] != clause_idx {
                kept.push(list[k]);
            }
        }
        assert(old_list.subrange(0, old_list.len() as int) =~= old_list);
        self.watchlist.set(idx, kept);
        assert(self@ =~= old(self)@.update(
            lit.uidx() as int,
            seq_without(old(self)@[lit.uidx() as int], clause_idx),
        ));
    }

    /// Takes the watch list of `lit`, leaving it empty.
    pub fn take(&mut self, lit: &Literal) -> (r: Vec<usize>)
        requires
            lit.wf(),
            lit.uidx() < old(self)@.len(),
        ensures
            r@ == old(self)@[lit.uidx() as int],
            final(self)@ == old(self)@.update(lit.uidx() as int, Seq::empty()),
    {
        let idx = lit.get_unsigned_index() as usize;
        let mut list = Vec::new();
        std::mem::swap(&mut list, &mut self.watchlist[idx]);
        assert(self@ =~= old(self)@.update(lit.uidx() as int, Seq::empty()));
        list
    }

    /// Replaces the watch list of `lit`.
    pub fn set(&mut self, lit: &Literal, new_list: Vec<usize>)
        requires
            lit.wf(),
            lit.uidx() < old(self)@.len(),
        ensures
            final(self)@ == old(self)@.update(lit.uidx() as int, new_list@),
    {
        let idx = lit.get_unsigned_index() as usize;
        self.watchlist.set(idx, new_list);
        assert(self@ =~= old(self)@.update(lit.uidx() as int, new_list@));
    }

    /// Drops clause `clause_index` from every list and renumbers the clauses after it.
    pub fn shift_by_one_from_index(&mut self, clause_index: usize)
        ensures
            final(self)@.len() == old(self)@.len(),
            forall|i: int|
                0 <= i < old(self)@.len() ==> #[trigger] final(self)@[i] == seq_shift_after_delete(
                    old(self)@[i],
                    clause_index,
                ),
    {
        let n = self.watchlist.len();
        for i in 0..n
            invariant
                n == old(self)@.len(),
                self@.len() == n,
                forall|j: int|
                    0 <= j < i ==> #[trigger] self@[j] == seq_shift_after_delete(
                        old(self)@[j],
                        clause_index,
                    ),
                forall|j: int| i <= j < n ==> #[trigger] self@[j] == old(self)@[j],
        {
            let ghost before = self@;
            let mut list = Vec::new();
            std::mem::swap(&mut list, &mut self.watchlist[i]);
            let ghost old_list = list@;
            assert(old_list == before[i as int]);
            let mut kept: Vec<usize> = Vec::new();
            for k in 0..list.len()
                invariant
                    list@ == old_list,
                    kept@ == seq_shift_after_delete(old_list.subrange(0, k as int), clause_index),
            {
                assert(old_list.subrange(0, k + 1).drop_last() =~= old_list.subrange(0, k as int));
                let v = list[k];
                if v != clause_index {
                    if v > clause_index {
                        kept.push(v - 1);
                    } else {
                        kept.push(v);
                    }
                }
            }
            assert(old_list.subrange(0, old_list.len() as int) =~= old_list);
            let ghost kept_view = kept@;
            self.watchlist.set(i, kept);
            assert(self@ =~= before.update(i as int, kept_view));
        }
    }
}

} // verus!
