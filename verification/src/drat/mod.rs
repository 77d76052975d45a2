use vstd::prelude::*;
use crate::formula::clause::lits_wf;
use crate::formula::literal::Literal;
use std::io;
use std::io::Write;

verus! {

#[verifier::external_type_specification]
#[verifier::external_body]
pub struct ExIoError(std::io::Error);

/// Decimal digits of `n`, most significant first.
pub open spec fn nat_digits(n: nat) -> Seq<u8>
    decreases n,
{
    if n < 10 {
        seq![(48 + n) as u8]
    } else {
        nat_digits(n / 10).push((48 + n % 10) as u8)
    }
}

/// DIMACS text of a literal value: an optional minus sign, then decimal digits.
pub open spec fn int_text(v: int) -> Seq<u8> {
    if v < 0 {
        seq![45u8] + nat_digits((-v) as nat)
    } else {
        nat_digits(v as nat)
    }
}

/// Each literal followed by a space, in order.
pub open spec fn lits_text(lits: Seq<Literal>) -> Seq<u8>
    decreases lits.len(),
{
    if lits.len() == 0 {
        Seq::empty()
    } else {
        lits_text(lits.drop_last()) + int_text(lits.last()@) + seq![32u8]
    }
}

/// A DRAT line for `lits`: the literals, then `0` and a newline; `d ` in front for a deletion.
pub open spec fn drat_line(lits: Seq<Literal>, delete: bool) -> Seq<u8> {
    (if delete { seq![100u8, 32u8] } else { Seq::empty() }) + lits_text(lits) + seq![48u8, 10u8]
}

/// Each value followed by a space, in order.
pub open spec fn values_text(vals: Seq<int>) -> Seq<u8>
    decreases vals.len(),
{
    if vals.len() == 0 {
        Seq::empty()
    } else {
        values_text(vals.drop_last()) + int_text(vals.last()) + seq![32u8]
    }
}

/// The DRAT line of a clause given by its literal values.
pub open spec fn values_line(vals: Seq<int>, delete: bool) -> Seq<u8> {
    (if delete { seq![100u8, 32u8] } else { Seq::empty() }) + values_text(vals) + seq![48u8, 10u8]
}

/// The addition lines of the clauses `vs` (given by literal values), in order.
pub open spec fn values_lines(vs: Seq<Seq<int>>) -> Seq<u8>
    decreases vs.len(),
{
    if vs.len() == 0 {
        Seq::empty()
    } else {
        values_lines(vs.drop_last()) + values_line(vs.last(), false)
    }
}

/// A clause's DRAT line depends only on the values of its literals.
pub proof fn lemma_drat_line_values(lits: Seq<Literal>, delete: bool)
    ensures
        drat_line(lits, delete) == values_line(lits.map_values(|l: Literal| l@), delete),
    decreases lits.len(),
{
    lemma_lits_text_values(lits);
}

proof fn lemma_lits_text_values(lits: Seq<Literal>)
    ensures
        lits_text(lits) == values_text(lits.map_values(|l: Literal| l@)),
    decreases lits.len(),
{
    if lits.len() > 0 {
        lemma_lits_text_values(lits.drop_last());
        let vs = lits.map_values(|l: Literal| l@);
        assert(vs.drop_last() =~= lits.drop_last().map_values(|l: Literal| l@));
        assert(vs.last() == lits.last()@);
    }
}

fn push_digits(n: u32, out: &mut Vec<u8>)
    ensures
        final(out)@ == old(out)@ + nat_digits(n as nat),
    decreases n,
{
    if n >= 10 {
        push_digits(n / 10, out);
    }
    out.push(48u8 + (n % 10) as u8);
    proof {
        if n >= 10 {
            assert(nat_digits(n as nat) == nat_digits((n / 10) as nat).push((48 + n % 10) as u8));
        }
    }
}

fn push_int(v: i64, out: &mut Vec<u8>)
    requires
        -0xffff_ffff <= v <= 0xffff_ffff,
    ensures
        final(out)@ == old(out)@ + int_text(v as int),
{
    if v < 0 {
        out.push(45u8);
        push_digits((-v) as u32, out);
        assert(out@ =~= old(out)@ + int_text(v as int));
    } else {
        push_digits(v as u32, out);
    }
}

/// The bytes of the DRAT line for `clause` (see `drat_line`).
pub fn drat_line_bytes(clause: &[Literal], delete: bool) -> (r: Vec<u8>)
    requires
        lits_wf(clause@),
    ensures
        r@ == drat_line(clause@, delete),
{
    let mut out: Vec<u8> = Vec::new();
    if delete {
        out.push(100u8);
        out.push(32u8);
    }
    let ghost prefix = out@;
    for i in 0..clause.len()
        invariant
            lits_wf(clause@),
            out@ == prefix + lits_text(clause@.subrange(0, i as int)),
    {
        assert(clause@.subrange(0, i + 1).drop_last() =~= clause@.subrange(0, i as int));
        push_int(DratLogger::<Vec<u8>>::lit_to_dimacs(&clause[i]), &mut out);
        out.push(32u8);
        assert(out@ =~= prefix + lits_text(clause@.subrange(0, i + 1)));
    }
    assert(clause@.subrange(0, clause@.len() as int) =~= clause@);
    out.push(48u8);
    out.push(10u8);
    assert(out@ =~= drat_line(clause@, delete));
    out
}

/// `std::io::Write::write_all`: hands `bytes` to the writer. What the writer does with
/// them, and whether it reports an error, is up to the writer and is not stated.
#[verifier::external_body]
fn write_all<W: Write>(writer: &mut W, bytes: &[u8]) -> io::Result<()> {
    writer.write_all(bytes)
}

/// The DIMACS text of a prefix of a clause is a prefix of the clause's text.
proof fn lemma_lits_text_prefix(s: Seq<Literal>, i: int)
    requires
        0 <= i <= s.len(),
    ensures
        lits_text(s.subrange(0, i)).is_prefix_of(lits_text(s)),
    decreases s.len(),
{
    if i < s.len() {
        lemma_lits_text_prefix(s.drop_last(), i);
        assert(s.drop_last().subrange(0, i) =~= s.subrange(0, i));
        let a = lits_text(s.subrange(0, i));
        let b = lits_text(s.drop_last());
        let c = lits_text(s);
        assert(c == b + int_text(s.last()@) + seq![32u8]);
        assert forall|k: int| 0 <= k < a.len() implies a[k] == c[k] by {
            assert(a[k] == b.subrange(0, a.len() as int)[k]);
        }
        assert(a =~= c.subrange(0, a.len() as int));
    } else {
        assert(s.subrange(0, i) =~= s);
    }
}

/// Writes a DRAT proof: clause additions, deletions and the final empty clause.
pub struct DratLogger<W> {
    writer: W,
    logged: Ghost<Seq<u8>>,
    offered: Ghost<Seq<u8>>,
}

impl<W: Write> DratLogger<W> {
    /// The text of every line logged so far, in order.
    pub closed spec fn logged(&self) -> Seq<u8> {
        self.logged@
    }

    /// The bytes handed to the writer so far, in order: each line is handed over token by
    /// token (a literal and its space, `d `, `0` and the newline) and stops at the first token
    /// the writer refuses.
    pub closed spec fn offered(&self) -> Seq<u8> {
        self.offered@
    }

    /// The lines logged so far end with the empty clause's line.
    pub open spec fn ends_with_empty_clause(&self) -> bool {
        let s = self.logged();
        s.len() >= 2 && s.subrange(s.len() - 2, s.len() as int) == drat_line(Seq::empty(), false)
    }

    pub fn new(writer: W) -> (r: Self)
        ensures
            r.logged() == Seq::<u8>::empty(),
            r.offered() == Seq::<u8>::empty(),
    {
        Self { writer: writer, logged: Ghost(Seq::empty()), offered: Ghost(Seq::empty()) }
    }

    /// Literals already carry their DIMACS index and sign (`-3` for the negation of `x3`).
    fn lit_to_dimacs(lit: &Literal) -> (r: i64)
        ensures
            r == lit@,
            lit.wf() ==> -0xffff_ffff <= r <= 0xffff_ffff,
    {
        lit.get_index() as i64
    }

    /// Hands `tok` to the writer (it counts as offered even when the writer refuses it).
    fn write_token(&mut self, tok: &Vec<u8>) -> (r: io::Result<()>)
        ensures
            final(self).offered() == old(self).offered() + tok@,
            final(self).logged() == old(self).logged(),
    {
        self.offered = Ghost(self.offered@ + tok@);
        write_all(&mut self.writer, tok.as_slice())
    }

    /// Logs the DRAT line of `clause`, writing it token by token and stopping at the first
    /// token the writer refuses, whose error is returned.
    fn write_line(&mut self, clause: &[Literal], delete: bool) -> (r: io::Result<()>)
        requires
            lits_wf(clause@),
        ensures
            final(self).logged() == old(self).logged() + drat_line(clause@, delete),
            old(self).offered().is_prefix_of(final(self).offered()),
            final(self).offered().subrange(old(self).offered().len() as int, final(self).offered().len() as int)
                .is_prefix_of(drat_line(clause@, delete)),
            r is Ok ==> final(self).offered() == old(self).offered() + drat_line(clause@, delete),
    {
        let ghost o0 = self.offered@;
        let ghost line = drat_line(clause@, delete);
        let ghost dpre: Seq<u8> = if delete { seq![100u8, 32u8] } else { Seq::empty() };
        self.logged = Ghost(self.logged@ + line);
        proof { lemma_lits_text_prefix(clause@, 0); }
        if delete {
            let mut tok: Vec<u8> = Vec::new();
            tok.push(100u8);
            tok.push(32u8);
            let res = self.write_token(&tok);
            proof {
                assert(tok@ =~= dpre);
                assert(clause@.subrange(0, 0) =~= Seq::<Literal>::empty());
                assert(lits_text(Seq::<Literal>::empty()) == Seq::<u8>::empty());
                assert(self.offered@.subrange(o0.len() as int, self.offered@.len() as int) =~= dpre);
                assert(dpre.is_prefix_of(line)) by {
                    assert(line[0] == 100u8 && line[1] == 32u8);
                    assert(dpre =~= line.subrange(0, 2));
                }
            }
            match res {
                Ok(()) => {},
                Err(e) => { return Err(e); },
            }
        }
        proof {
            assert(self.offered@ =~= o0 + dpre + lits_text(clause@.subrange(0, 0))) by {
                assert(clause@.subrange(0, 0) =~= Seq::<Literal>::empty());
                assert(lits_text(Seq::<Literal>::empty()) == Seq::<u8>::empty());
            }
        }
        for i in 0..clause.len()
            invariant
                lits_wf(clause@),
                line == drat_line(clause@, delete),
                o0 == old(self).offered(),
                dpre == (if delete { seq![100u8, 32u8] } else { Seq::<u8>::empty() }),
                self.offered@ == o0 + dpre + lits_text(clause@.subrange(0, i as int)),
                self.logged() == old(self).logged() + line,
        {
            let mut tok: Vec<u8> = Vec::new();
            push_int(Self::lit_to_dimacs(&clause[i]), &mut tok);
            tok.push(32u8);
            let res = self.write_token(&tok);
            proof {
                assert(clause@.subrange(0, i + 1).drop_last() =~= clause@.subrange(0, i as int));
                assert(self.offered@ =~= o0 + dpre + lits_text(clause@.subrange(0, i + 1)));
                lemma_lits_text_prefix(clause@, i + 1);
                let part = dpre + lits_text(clause@.subrange(0, i + 1));
                assert(self.offered@.subrange(o0.len() as int, self.offered@.len() as int) =~= part);
                let lt = lits_text(clause@.subrange(0, i + 1));
                assert forall|k: int| 0 <= k < part.len() implies part[k] == line[k] by {
                    if k >= dpre.len() {
                        assert(lt[k - dpre.len()] == lits_text(clause@)[k - dpre.len()]);
                    }
                }
                assert(part =~= line.subrange(0, part.len() as int));
                assert(o0 =~= self.offered@.subrange(0, o0.len() as int));
            }
            match res {
                Ok(()) => {},
                Err(e) => { return Err(e); },
            }
        }
        let mut end: Vec<u8> = Vec::new();
        end.push(48u8);
        end.push(10u8);
        let res = self.write_token(&end);
        proof {
            assert(clause@.subrange(0, clause@.len() as int) =~= clause@);
            assert(self.offered@ =~= o0 + line);
            assert(self.offered@.subrange(o0.len() as int, self.offered@.len() as int) =~= line);
        }
        res
    }

    /// Logs a learnt or preprocessed clause (`drat_line(clause, false)`).
    pub fn log_add(&mut self, clause: &[Literal]) -> (r: io::Result<()>)
        requires
            lits_wf(clause@),
        ensures
            final(self).logged() == old(self).logged() + drat_line(clause@, false),
            old(self).offered().is_prefix_of(final(self).offered()),
            final(self).offered().subrange(old(self).offered().len() as int, final(self).offered().len() as int)
                .is_prefix_of(drat_line(clause@, false)),
            r is Ok ==> final(self).offered() == old(self).offered() + drat_line(clause@, false),
    {
        self.write_line(clause, false)
    }

    /// Logs a clause deletion (`drat_line(clause, true)`).
    pub fn log_delete(&mut self, clause: &[Literal]) -> (r: io::Result<()>)
        requires
            lits_wf(clause@),
        ensures
            final(self).logged() == old(self).logged() + drat_line(clause@, true),
            old(self).offered().is_prefix_of(final(self).offered()),
            final(self).offered().subrange(old(self).offered().len() as int, final(self).offered().len() as int)
                .is_prefix_of(drat_line(clause@, true)),
            r is Ok ==> final(self).offered() == old(self).offered() + drat_line(clause@, true),
    {
        self.write_line(clause, true)
    }

    /// Logs the final empty clause (`0` and a newline) that marks unsatisfiability.
    pub fn log_empty_clause(&mut self) -> (r: io::Result<()>)
        ensures
            final(self).logged() == old(self).logged() + drat_line(Seq::empty(), false),
            final(self).ends_with_empty_clause(),
            old(self).offered().is_prefix_of(final(self).offered()),
            final(self).offered().subrange(old(self).offered().len() as int, final(self).offered().len() as int)
                .is_prefix_of(drat_line(Seq::empty(), false)),
            r is Ok ==> final(self).offered() == old(self).offered() + drat_line(Seq::empty(), false),
    {
        let no_literals: Vec<Literal> = Vec::new();
        let r = self.write_line(no_literals.as_slice(), false);
        proof {
            assert(no_literals@ =~= Seq::<Literal>::empty());
            assert(drat_line(Seq::<Literal>::empty(), false) =~= seq![48u8, 10u8]) by {
                assert(lits_text(Seq::<Literal>::empty()) == Seq::<u8>::empty());
            }
            let s = self.logged@;
            assert(s.subrange(s.len() - 2, s.len() as int) =~= drat_line(Seq::<Literal>::empty(), false));
        }
        r
    }
}

} // verus!
