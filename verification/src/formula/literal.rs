use vstd::prelude::*;

verus! {

/// A literal in DIMACS convention: `x` for the variable `|x|`, negated when `x < 0`.
#[derive(Clone, Copy, PartialEq, Eq, Structural, Hash, Debug)]
pub struct Literal {
    literal: i32,
}

impl View for Literal {
    type V = int;

    closed spec fn view(&self) -> int {
        self.literal as int
    }
}

/// A literal value that can be negated and indexed without overflow.
pub open spec fn valid_lit_value(v: int) -> bool {
    v != 0 && i32::MIN < v <= i32::MAX
}

/// Variable of a literal value.
pub open spec fn var_of(v: int) -> nat {
    if v < 0 { (-v) as nat } else { v as nat }
}

/// Dense non-negative index of a literal value: `2v - 1` for `v`, `2v` for `-v`.
pub open spec fn unsigned_index_of(v: int) -> nat {
    if v < 0 { (2 * (-v)) as nat } else { (2 * v - 1) as nat }
}

/// Literal value of a dense index (inverse of `unsigned_index_of`).
pub open spec fn from_unsigned_spec(u: nat) -> int {
    if u % 2 == 0 { -((u + 1) / 2) } else { ((u + 1) / 2) as int }
}

impl Literal {
    pub open spec fn wf(self) -> bool {
        valid_lit_value(self@)
    }

    pub open spec fn var(self) -> nat {
        var_of(self@)
    }

    pub open spec fn uidx(self) -> nat {
        unsigned_index_of(self@)
    }

    pub open spec fn neg_spec(self) -> bool {
        self@ < 0
    }

    /// Two literals with the same value are the same literal.
    pub proof fn lemma_view_injective(a: Literal, b: Literal)
        ensures
            (a@ == b@) <==> (a == b),
    {
    }

    /// Value of a literal under a (partial) assignment of variables.
    pub open spec fn eval_spec(self, model: Seq<Option<bool>>) -> Option<bool> {
        if self.var() < model.len() {
            match model[self.var() as int] {
                Some(b) => Some(b != self.neg_spec()),
                None => None,
            }
        } else {
            None
        }
    }

    /// Creates a literal from its DIMACS value.
    pub fn new(literal: i32) -> (r: Self)
        requires
            literal != 0,
        ensures
            r@ == literal,
            valid_lit_value(literal as int) ==> r.wf(),
    {
        Self { literal }
    }

    /// The opposite literal.
    pub fn negated(&self) -> (r: Self)
        requires
            self.wf(),
        ensures
            r@ == -self@,
            r.wf(),
            r.var() == self.var(),
    {
        Self { literal: -self.literal }
    }

    /// Literal of a dense index; odd indices are positive, even ones negative.
    pub fn from_unsigned_index(unsigned_index: u32) -> (r: Literal)
        requires
            0 < unsigned_index < u32::MAX,
        ensures
            r@ == from_unsigned_spec(unsigned_index as nat),
            r.wf(),
            r.uidx() == unsigned_index,
    {
        let idx: i32 = ((unsigned_index as u64 + 1) / 2) as i32;
        if unsigned_index % 2 == 0 {
            Literal::new(-idx)
        } else {
            Literal::new(idx)
        }
    }

    /// Dense index of this literal: `2v - 1` for a positive, `2v` for a negative literal.
    pub fn get_unsigned_index(&self) -> (r: u32)
        requires
            self.wf(),
        ensures
            r == self.uidx(),
            r >= 1,
    {
        if self.literal < 0 {
            let idx: u32 = (-self.literal) as u32;
            idx * 2
        } else {
            let idx: u32 = self.literal as u32;
            idx * 2 - 1
        }
    }

    /// Variable index of this literal.
    pub fn get_variable(&self) -> (r: usize)
        requires
            self.wf(),
        ensures
            r == self.var(),
            r >= 1,
    {
        if self.literal < 0 {
            (-self.literal) as usize
        } else {
            self.literal as usize
        }
    }

    /// The signed DIMACS value.
    pub fn get_index(&self) -> (r: i32)
        ensures
            r == self@,
    {
        self.literal
    }

    pub fn is_negated(&self) -> (r: bool)
        ensures
            r == self.neg_spec(),
    {
        self.literal < 0
    }
}

/// Dense indices and literal values are in bijection.
pub proof fn lemma_unsigned_index_roundtrip(l: Literal)
    requires
        l.wf(),
    ensures
        from_unsigned_spec(l.uidx()) == l@,
        l.uidx() >= 1,
{
}

/// Negating twice gives back the literal; a literal and its negation share a variable
/// but have distinct dense indices.
pub proof fn lemma_negation_involutive(v: int)
    requires
        valid_lit_value(v),
    ensures
        valid_lit_value(-v),
        -(-v) == v,
        var_of(-v) == var_of(v),
        unsigned_index_of(-v) != unsigned_index_of(v),
{
}

/// Distinct literal values have distinct dense indices.
pub proof fn lemma_unsigned_index_injective(a: int, b: int)
    requires
        valid_lit_value(a),
        valid_lit_value(b),
        a != b,
    ensures
        unsigned_index_of(a) != unsigned_index_of(b),
{
}

} // verus!
