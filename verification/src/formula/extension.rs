use vstd::prelude::*;
use std::collections::HashMap;
use crate::formula::literal::{Literal, valid_lit_value};

verus! {

broadcast use vstd::std_specs::hash::group_hash_axioms;

/// Integer key of the ordered pair `(hi, lo)` of literal values.
pub open spec fn pair_key(hi: int, lo: int) -> int {
    (hi + 0x8000_0000) * 0x1_0000_0000 + (lo + 0x8000_0000)
}

pub open spec fn in_i32(v: int) -> bool {
    i32::MIN <= v <= i32::MAX
}

/// The pair of two literal values with the larger first, as the map keys it.
pub open spec fn ordered_pair(a: int, b: int) -> (int, int) {
    if a > b { (a, b) } else { (b, a) }
}

proof fn lemma_pair_key_injective(a: int, b: int, c: int, d: int)
    requires
        in_i32(a),
        in_i32(b),
        in_i32(c),
        in_i32(d),
        pair_key(a, b) == pair_key(c, d),
    ensures
        a == c,
        b == d,
{
    assert(a == c && b == d) by (nonlinear_arith)
        requires
            in_i32(a),
            in_i32(b),
            in_i32(c),
            in_i32(d),
            (a + 0x8000_0000) * 0x1_0000_0000 + (b + 0x8000_0000) == (c + 0x8000_0000) * 0x1_0000_0000
                + (d + 0x8000_0000),
    ;
}

/// A substitution recorded for the pair `{a, b}` is found again for `{b, a}`: the pair key does
/// not depend on the order of the two literals.
pub proof fn lemma_substitution_read_back(m: Map<(int, int), int>, a: int, b: int, s: int)
    ensures
        ordered_pair(a, b) == ordered_pair(b, a),
        m.insert(ordered_pair(a, b), s).contains_key(ordered_pair(b, a)),
        m.insert(ordered_pair(a, b), s)[ordered_pair(b, a)] == s,
{
}

/// Extension variables introduced for pairs of literals (`z <-> a & b`).
#[derive(Clone)]
pub struct ExtensionMap {
    map: HashMap<u64, i32>,
}

impl View for ExtensionMap {
    type V = Map<(int, int), int>;

    closed spec fn view(&self) -> Map<(int, int), int> {
        Map::new(
            |k: (int, int)|
                in_i32(k.0) && in_i32(k.1) && self.map@.contains_key(pair_key(k.0, k.1) as u64),
            |k: (int, int)| self.map@[pair_key(k.0, k.1) as u64] as int,
        )
    }
}

fn key_of(hi: i32, lo: i32) -> (r: u64)
    ensures
        r == pair_key(hi as int, lo as int),
{
    let h: u64 = (hi as i64 + 0x8000_0000i64) as u64;
    let l: u64 = (lo as i64 + 0x8000_0000i64) as u64;
    assert(h * 0x1_0000_0000 + l <= u64::MAX) by (nonlinear_arith)
        requires
            h <= 0xffff_ffff,
            l <= 0xffff_ffff,
    ;
    h * 0x1_0000_0000 + l
}

impl ExtensionMap {
    /// Every stored substitute is a valid literal value.
    pub closed spec fn wf(&self) -> bool {
        forall|k: u64| #[trigger] self.map@.contains_key(k) ==> valid_lit_value(self.map@[k] as int)
    }

    pub fn new() -> (r: Self)
        ensures
            r@ == Map::<(int, int), int>::empty(),
            r.wf(),
    {
        let r = Self { map: HashMap::new() };
        assert(r@ =~= Map::<(int, int), int>::empty());
        r
    }

    /// The extension literal recorded for the pair `{lit1, lit2}`, if any.
    pub fn substitute(&self, lit1: &Literal, lit2: &Literal) -> (r: Option<Literal>)
        requires
            self.wf(),
        ensures
            r is Some <==> self@.contains_key(ordered_pair(lit1@, lit2@)),
            r matches Some(l) ==> l@ == self@[ordered_pair(lit1@, lit2@)] && l.wf(),
    {
        let idx1 = lit1.get_index();
        let idx2 = lit2.get_index();
        let key = if idx1 > idx2 { key_of(idx1, idx2) } else { key_of(idx2, idx1) };
        match self.map.get(&key) {
            Some(idx) => {
                assert(self.map@.contains_key(key));
                Some(Literal::new(*idx))
            },
            _ => None,
        }
    }

    /// Records `substitute` as the extension literal of the pair `{lit1, lit2}`.
    pub fn add_substitution(&mut self, lit1: &Literal, lit2: &Literal, substitute: &Literal)
        requires
            old(self).wf(),
            substitute.wf(),
        ensures
            final(self).wf(),
            final(self)@ == old(self)@.insert(ordered_pair(lit1@, lit2@), substitute@),
    {
        let idx1 = lit1.get_index();
        let idx2 = lit2.get_index();
        let ghost k = ordered_pair(lit1@, lit2@);
        let key = if idx1 > idx2 { key_of(idx1, idx2) } else { key_of(idx2, idx1) };
        self.map.insert(key, substitute.get_index());
        proof {
            assert forall|p: (int, int)| #[trigger] self@.contains_key(p) == old(self)@.insert(k, substitute@).contains_key(p)
                && (self@.contains_key(p) ==> self@[p] == old(self)@.insert(k, substitute@)[p]) by {
                if in_i32(p.0) && in_i32(p.1) && pair_key(p.0, p.1) as u64 == key {
                    lemma_pair_key_injective(p.0, p.1, k.0, k.1);
                }
            }
            assert(self@ =~= old(self)@.insert(k, substitute@));
        }
    }
}

} // verus!
