use vstd::prelude::*;
use crate::regex::{Regex, matches_whole, size};
use crate::instruction::{Instruction, accepts, targets_in_range, well_formed};
use crate::correctness::lemma_compile_correct;

verus! {

/// The instructions that `r` compiles to when its first instruction stands
/// at index `p`. The code falls through to index `p + size(r)` when it is done.
pub open spec fn code(r: Regex, p: int) -> Seq<Instruction>
    decreases r,
{
    match r {
        Regex::Literal(c) => seq![Instruction::MatchChar(c)],
        Regex::Concat(a, b) => code(*a, p) + code(*b, p + size(*a)),
        Regex::Union(a, b) => {
            let q = p + size(*a) + 2;
            let e = q + size(*b);
            seq![Instruction::Split((p + 1) as usize, q as usize)] + code(*a, p + 1) + seq![
                Instruction::Jump(e as usize),
            ] + code(*b, q)
        },
        Regex::Repeat(body) => {
            let e = p + size(*body) + 2;
            seq![Instruction::Split((p + 1) as usize, e as usize)] + code(*body, p + 1) + seq![
                Instruction::Jump(p as usize),
            ]
        },
    }
}

/// The whole program for `r`: its code at index zero, then one final accept.
pub open spec fn program_of(r: Regex) -> Seq<Instruction> {
    code(r, 0).push(Instruction::Accept)
}

/// Whether the program for `r` can be addressed with `usize` indices.
pub open spec fn compilable(r: Regex) -> bool {
    size(r) < usize::MAX
}

/// A control transfer of the instruction at index `k` of a fragment that ends
/// at `hi` stays at or before `hi`; no fragment holds an accept.
pub open spec fn stays_within(ins: Instruction, k: int, hi: int) -> bool {
    match ins {
        Instruction::MatchChar(_) => k + 1 <= hi,
        Instruction::Jump(t) => t <= hi,
        Instruction::Split(t1, t2) => t1 <= hi && t2 <= hi,
        Instruction::Accept => false,
    }
}

/// The code of `r` is `size(r)` instructions long, wherever it is placed.
pub proof fn lemma_code_len(r: Regex, p: int)
    ensures
        code(r, p).len() == size(r),
    decreases r,
{
    match r {
        Regex::Literal(_) => {},
        Regex::Concat(a, b) => {
            lemma_code_len(*a, p);
            lemma_code_len(*b, p + size(*a));
        },
        Regex::Union(a, b) => {
            lemma_code_len(*a, p + 1);
            lemma_code_len(*b, p + size(*a) + 2);
        },
        Regex::Repeat(body) => {
            lemma_code_len(*body, p + 1);
        },
    }
}

/// Control never leaves the code of `r` except by falling through to its end,
/// and the code holds no accept.
pub proof fn lemma_code_within(r: Regex, p: int)
    requires
        0 <= p,
        p + size(r) <= usize::MAX,
    ensures
        forall|k: int|
            0 <= k < size(r) ==> stays_within(#[trigger] code(r, p)[k], p + k, p + size(r)),
    decreases r,
{
    lemma_code_len(r, p);
    match r {
        Regex::Literal(_) => {},
        Regex::Concat(a, b) => {
            let pb = p + size(*a);
            lemma_code_within(*a, p);
            lemma_code_within(*b, pb);
            lemma_code_len(*a, p);
            lemma_code_len(*b, pb);
            assert forall|k: int| 0 <= k < size(r) implies stays_within(
                #[trigger] code(r, p)[k],
                p + k,
                p + size(r),
            ) by {
                if k < size(*a) {
                    assert(code(r, p)[k] == code(*a, p)[k]);
                } else {
                    assert(code(r, p)[k] == code(*b, pb)[k - size(*a)]);
                }
            }
        },
        Regex::Union(a, b) => {
            let q = p + size(*a) + 2;
            lemma_code_within(*a, p + 1);
            lemma_code_within(*b, q);
            lemma_code_len(*a, p + 1);
            lemma_code_len(*b, q);
            assert forall|k: int| 0 <= k < size(r) implies stays_within(
                #[trigger] code(r, p)[k],
                p + k,
                p + size(r),
            ) by {
                if 1 <= k < size(*a) + 1 {
                    assert(code(r, p)[k] == code(*a, p + 1)[k - 1]);
                } else if k >= q - p {
                    assert(code(r, p)[k] == code(*b, q)[k - (q - p)]);
                }
            }
        },
        Regex::Repeat(body) => {
            lemma_code_within(*body, p + 1);
            lemma_code_len(*body, p + 1);
            assert forall|k: int| 0 <= k < size(r) implies stays_within(
                #[trigger] code(r, p)[k],
                p + k,
                p + size(r),
            ) by {
                if 1 <= k < size(*body) + 1 {
                    assert(code(r, p)[k] == code(*body, p + 1)[k - 1]);
                }
            }
        },
    }
}

impl Regex {
    /// Appends the code of this expression to `out`, at index `out.len()`.
    /// Forward targets are left as placeholders and patched once the code
    /// they point past has been placed.
    fn emit(&self, out: &mut Vec<Instruction>)
        ensures
            final(out)@ == old(out)@ + code(*self, old(out)@.len() as int),
        decreases self,
    {
        let ghost start = out@;
        let p = out.len();
        match self {
            Regex::Literal(c) => {
                out.push(Instruction::MatchChar(*c));
                assert(out@ =~= start + code(*self, p as int));
            },
            Regex::Concat(a, b) => {
                a.emit(out);
                proof {
                    lemma_code_len(**a, p as int);
                }
                b.emit(out);
                assert(out@ =~= start + code(*self, p as int));
            },
            Regex::Union(a, b) => {
                // The split and the jump are placeholders until their targets are known.
                out.push(Instruction::Accept);
                a.emit(out);
                let jump_at = out.len();
                out.push(Instruction::Accept);
                let q = out.len();
                b.emit(out);
                let e = out.len();
                proof {
                    lemma_code_len(**a, p + 1);
                    lemma_code_len(**b, q as int);
                }
                out.set(p, Instruction::Split(p + 1, q));
                out.set(jump_at, Instruction::Jump(e));
                assert(out@ =~= start + code(*self, p as int));
            },
            Regex::Repeat(body) => {
                // The loop head is a placeholder until the exit index is known.
                out.push(Instruction::Accept);
                body.emit(out);
                out.push(Instruction::Jump(p));
                let e = out.len();
                proof {
                    lemma_code_len(**body, p + 1);
                }
                out.set(p, Instruction::Split(p + 1, e));
                assert(out@ =~= start + code(*self, p as int));
            },
        }
    }

    /// Compiles the expression into a program: its code followed by a single
    /// final accept.
    pub fn compile(&self) -> (prog: Vec<Instruction>)
        ensures
            prog@ == program_of(*self),
            well_formed(prog@),
            forall|s: Seq<char>| #[trigger] accepts(prog@, s) == matches_whole(*self, s),
    {
        let mut out: Vec<Instruction> = Vec::new();
        self.emit(&mut out);
        out.push(Instruction::Accept);
        let len = out.len();
        proof {
            lemma_code_len(*self, 0);
            assert(len == size(*self) + 1);
            assert(out@ =~= program_of(*self));
            assert(compilable(*self));
            lemma_program_well_formed(*self);
            assert forall|s: Seq<char>| #[trigger] accepts(out@, s) == matches_whole(*self, s) by {
                lemma_compile_correct(*self, s);
            }
        }
        out
    }
}

/// Programs produced for compilable expressions never leave themselves.
pub proof fn lemma_program_well_formed(r: Regex)
    requires
        compilable(r),
    ensures
        well_formed(program_of(r)),
{
    let prog = program_of(r);
    lemma_code_len(r, 0);
    lemma_code_within(r, 0);
    assert forall|k: int| 0 <= k < prog.len() implies targets_in_range(
        #[trigger] prog[k],
        k,
        prog.len() as int,
    ) by {
        if k < size(r) {
            assert(prog[k] == code(r, 0)[k]);
        }
    }
}

} // verus!
