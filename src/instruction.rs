use vstd::prelude::*;

verus! {

/// One instruction of the matching machine. Targets are absolute indices
/// into the program.
#[derive(Clone, Copy, Debug, PartialEq, Eq)]
pub enum Instruction {
    /// Consume one input character equal to the given one; otherwise the path dies.
    MatchChar(char),
    /// Continue at the given index.
    Jump(usize),
    /// Continue at both indices; the first is explored first.
    Split(usize, usize),
    /// The path succeeds if the whole input has been consumed.
    Accept,
}

/// Every target of the instruction at index `k` lies inside a program of `len` instructions.
pub open spec fn targets_in_range(ins: Instruction, k: int, len: int) -> bool {
    match ins {
        Instruction::MatchChar(_) => k + 1 < len,
        Instruction::Jump(t) => t < len,
        Instruction::Split(t1, t2) => t1 < len && t2 < len,
        Instruction::Accept => true,
    }
}

/// A program that the machine can run without leaving it: it is not empty and
/// no control transfer leads outside it.
pub open spec fn well_formed(prog: Seq<Instruction>) -> bool {
    &&& prog.len() > 0
    &&& forall|k: int| 0 <= k < prog.len() ==> targets_in_range(#[trigger] prog[k], k, prog.len() as int)
}

/// Whether some execution path from instruction `pc` at input offset `off`
/// reaches an accept with the whole input consumed, taking at most `fuel`
/// steps after the current instruction.
pub open spec fn steps(prog: Seq<Instruction>, input: Seq<char>, pc: int, off: int, fuel: nat) -> bool
    decreases fuel,
{
    if !(0 <= pc < prog.len()) {
        false
    } else {
        match prog[pc] {
            Instruction::Accept => off == input.len(),
            Instruction::MatchChar(c) => fuel > 0 && 0 <= off < input.len() && input[off] == c
                && steps(prog, input, pc + 1, off + 1, (fuel - 1) as nat),
            Instruction::Jump(t) => fuel > 0 && steps(prog, input, t as int, off, (fuel - 1) as nat),
            Instruction::Split(t1, t2) => fuel > 0 && (steps(
                prog,
                input,
                t1 as int,
                off,
                (fuel - 1) as nat,
            ) || steps(prog, input, t2 as int, off, (fuel - 1) as nat)),
        }
    }
}

/// Whether some execution path from `(pc, off)` accepts.
pub open spec fn reaches_accept(prog: Seq<Instruction>, input: Seq<char>, pc: int, off: int) -> bool {
    exists|fuel: nat| #[trigger] steps(prog, input, pc, off, fuel)
}

/// Whether the program accepts the whole input: some path from the first
/// instruction at offset zero reaches an accept with nothing left over.
pub open spec fn accepts(prog: Seq<Instruction>, input: Seq<char>) -> bool {
    reaches_accept(prog, input, 0, 0)
}

/// Whether the machine may move from `(pc, off)` to `(pc2, off2)` in one step.
pub open spec fn successor(
    prog: Seq<Instruction>,
    input: Seq<char>,
    pc: int,
    off: int,
    pc2: int,
    off2: int,
) -> bool {
    &&& 0 <= pc < prog.len()
    &&& match prog[pc] {
        Instruction::MatchChar(c) => 0 <= off < input.len() && input[off] == c && pc2 == pc + 1
            && off2 == off + 1,
        Instruction::Jump(t) => pc2 == t && off2 == off,
        Instruction::Split(t1, t2) => (pc2 == t1 || pc2 == t2) && off2 == off,
        Instruction::Accept => false,
    }
}

/// A state from which one step leads to an accepting path is itself on one.
pub proof fn lemma_step_back(
    prog: Seq<Instruction>,
    input: Seq<char>,
    pc: int,
    off: int,
    pc2: int,
    off2: int,
)
    requires
        successor(prog, input, pc, off, pc2, off2),
        reaches_accept(prog, input, pc2, off2),
    ensures
        reaches_accept(prog, input, pc, off),
{
    let fuel = choose|fuel: nat| #[trigger] steps(prog, input, pc2, off2, fuel);
    assert(steps(prog, input, pc, off, fuel + 1));
}

} // verus!
