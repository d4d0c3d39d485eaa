use vstd::prelude::*;
use crate::instruction::{Instruction, accepts, reaches_accept, steps, successor, targets_in_range, well_formed, lemma_step_back};

verus! {

/// A pending execution state: the instruction to run next and the input
/// offset reached. The input itself is shared by every state of a run.
#[derive(Clone, Copy, Debug)]
pub struct State {
    pub pc: usize,
    pub offset: usize,
}

/// Index of the flag for `(pc, off)` in a table with `width` offsets per instruction.
pub open spec fn slot(pc: int, off: int, width: int) -> int {
    pc * width + off
}

/// Whether `(pc, off)` has been explored already.
pub open spec fn seen(visited: Seq<bool>, width: int, pc: int, off: int) -> bool {
    visited[slot(pc, off, width)]
}

/// Whether `(pc, off)` is explored already or still waits on the stack.
pub open spec fn in_frontier(visited: Seq<bool>, stack: Seq<State>, width: int, pc: int, off: int) -> bool {
    seen(visited, width, pc, off) || exists|k: int|
        0 <= k < stack.len() && #[trigger] stack[k].pc == pc && stack[k].offset == off
}

/// An explored state does not accept, and each of its successors is explored
/// or waits on the stack.
pub open spec fn closed_at(
    prog: Seq<Instruction>,
    input: Seq<char>,
    visited: Seq<bool>,
    stack: Seq<State>,
    width: int,
    pc: int,
    off: int,
) -> bool {
    match prog[pc] {
        Instruction::Accept => off != input.len(),
        Instruction::MatchChar(c) => (off < input.len() && input[off] == c) ==> in_frontier(
            visited,
            stack,
            width,
            pc + 1,
            off + 1,
        ),
        Instruction::Jump(t) => in_frontier(visited, stack, width, t as int, off),
        Instruction::Split(t1, t2) => in_frontier(visited, stack, width, t1 as int, off)
            && in_frontier(visited, stack, width, t2 as int, off),
    }
}

/// Number of states not explored yet.
pub open spec fn unexplored(visited: Seq<bool>) -> nat
    decreases visited.len(),
{
    if visited.len() == 0 {
        0
    } else {
        unexplored(visited.drop_last()) + if visited.last() {
            0nat
        } else {
            1nat
        }
    }
}

proof fn lemma_mark_explored(visited: Seq<bool>, i: int)
    requires
        0 <= i < visited.len(),
        !visited[i],
    ensures
        unexplored(visited.update(i, true)) < unexplored(visited),
    decreases visited.len(),
{
    let v2 = visited.update(i, true);
    if i == visited.len() - 1 {
        assert(v2.drop_last() =~= visited.drop_last());
    } else {
        assert(v2.drop_last() =~= visited.drop_last().update(i, true));
        lemma_mark_explored(visited.drop_last(), i);
    }
}

proof fn lemma_slot_bounds(pc: int, off: int, width: int, len: int)
    requires
        0 <= pc < len,
        0 <= off < width,
    ensures
        0 <= slot(pc, off, width) < len * width,
{
    assert(0 <= pc * width) by (nonlinear_arith)
        requires
            0 <= pc,
            0 <= off < width,
    ;
    assert(pc * width + width <= len * width) by (nonlinear_arith)
        requires
            pc + 1 <= len,
            0 < width,
    ;
}

proof fn lemma_slot_injective(pc1: int, off1: int, pc2: int, off2: int, width: int)
    requires
        0 <= pc1,
        0 <= pc2,
        0 <= off1 < width,
        0 <= off2 < width,
        slot(pc1, off1, width) == slot(pc2, off2, width),
    ensures
        pc1 == pc2,
        off1 == off2,
{
    if pc1 < pc2 {
        assert(pc1 * width + width <= pc2 * width) by (nonlinear_arith)
            requires
                pc1 + 1 <= pc2,
                0 < width,
        ;
    } else if pc2 < pc1 {
        assert(pc2 * width + width <= pc1 * width) by (nonlinear_arith)
            requires
                pc2 + 1 <= pc1,
                0 < width,
        ;
    }
}

/// When the explored states are closed under steps and the stack is empty,
/// no explored state lies on an accepting path.
proof fn lemma_closed_rejects(
    prog: Seq<Instruction>,
    input: Seq<char>,
    visited: Seq<bool>,
    width: int,
    pc: int,
    off: int,
    fuel: nat,
)
    requires
        well_formed(prog),
        width == input.len() + 1,
        visited.len() == prog.len() * width,
        forall|pc2: int, off2: int|
            0 <= pc2 < prog.len() && 0 <= off2 <= input.len() && #[trigger] seen(
                visited,
                width,
                pc2,
                off2,
            ) ==> closed_at(prog, input, visited, Seq::empty(), width, pc2, off2),
        0 <= pc < prog.len(),
        0 <= off <= input.len(),
        seen(visited, width, pc, off),
    ensures
        !steps(prog, input, pc, off, fuel),
    decreases fuel,
{
    assert(closed_at(prog, input, visited, Seq::empty(), width, pc, off));
    if fuel > 0 {
        let f = (fuel - 1) as nat;
        match prog[pc] {
            Instruction::Accept => {},
            Instruction::MatchChar(c) => {
                if off < input.len() && input[off] == c {
                    lemma_closed_rejects(prog, input, visited, width, pc + 1, off + 1, f);
                }
            },
            Instruction::Jump(t) => {
                lemma_closed_rejects(prog, input, visited, width, t as int, off, f);
            },
            Instruction::Split(t1, t2) => {
                lemma_closed_rejects(prog, input, visited, width, t1 as int, off, f);
                lemma_closed_rejects(prog, input, visited, width, t2 as int, off, f);
            },
        }
    }
}

/// Explored states only grow and the stack keeps all but its last entry,
/// which is explored now: what was in the frontier still is.
proof fn lemma_frontier_kept(
    v1: Seq<bool>,
    v2: Seq<bool>,
    s1: Seq<State>,
    s2: Seq<State>,
    width: int,
    pc: int,
    off: int,
)
    requires
        in_frontier(v1, s1, width, pc, off),
        v1.len() == v2.len(),
        forall|t: int| 0 <= t < v1.len() && v1[t] ==> v2[t],
        0 <= slot(pc, off, width) < v1.len(),
        s1.len() > 0,
        s1.len() - 1 <= s2.len(),
        forall|t: int| 0 <= t < s1.len() - 1 ==> s2[t] == s1[t],
        seen(v2, width, s1.last().pc as int, s1.last().offset as int),
    ensures
        in_frontier(v2, s2, width, pc, off),
{
    if !seen(v1, width, pc, off) {
        let k = choose|k: int| 0 <= k < s1.len() && #[trigger] s1[k].pc == pc && s1[k].offset == off;
        if k < s1.len() - 1 {
            assert(s2[k].pc == pc && s2[k].offset == off);
        }
    }
}

proof fn lemma_closed_kept(
    prog: Seq<Instruction>,
    input: Seq<char>,
    v1: Seq<bool>,
    v2: Seq<bool>,
    s1: Seq<State>,
    s2: Seq<State>,
    width: int,
    pc: int,
    off: int,
)
    requires
        well_formed(prog),
        width == input.len() + 1,
        v1.len() == prog.len() * width,
        0 <= pc < prog.len(),
        0 <= off <= input.len(),
        closed_at(prog, input, v1, s1, width, pc, off),
        v1.len() == v2.len(),
        forall|t: int| 0 <= t < v1.len() && v1[t] ==> v2[t],
        s1.len() > 0,
        s1.len() - 1 <= s2.len(),
        forall|t: int| 0 <= t < s1.len() - 1 ==> s2[t] == s1[t],
        seen(v2, width, s1.last().pc as int, s1.last().offset as int),
    ensures
        closed_at(prog, input, v2, s2, width, pc, off),
{
    let len = prog.len() as int;
    assert(targets_in_range(prog[pc], pc, len));
    match prog[pc] {
        Instruction::Accept => {},
        Instruction::MatchChar(c) => {
            if off < input.len() && input[off] == c {
                lemma_slot_bounds(pc + 1, off + 1, width, len);
                lemma_frontier_kept(v1, v2, s1, s2, width, pc + 1, off + 1);
            }
        },
        Instruction::Jump(t) => {
            lemma_slot_bounds(t as int, off, width, len);
            lemma_frontier_kept(v1, v2, s1, s2, width, t as int, off);
        },
        Instruction::Split(t1, t2) => {
            lemma_slot_bounds(t1 as int, off, width, len);
            lemma_frontier_kept(v1, v2, s1, s2, width, t1 as int, off);
            lemma_slot_bounds(t2 as int, off, width, len);
            lemma_frontier_kept(v1, v2, s1, s2, width, t2 as int, off);
        },
    }
}

/// Decides whether `program` accepts the whole of `input`, exploring the
/// paths depth first with an explicit stack; the first branch of a split is
/// explored first. Each (instruction, offset) state is explored at most once,
/// which keeps the search finite even where a repeated body can match the
/// empty string. The table of explored states has one flag per instruction
/// and offset, so its size must fit in `usize`.
pub fn match_all(program: &Vec<Instruction>, input: &Vec<char>) -> (r: bool)
    requires
        well_formed(program@),
        program@.len() * (input@.len() + 1) <= usize::MAX,
    ensures
        r == accepts(program@, input@),
{
    let ghost prog = program@;
    let ghost inp = input@;
    let n = input.len();
    let plen = program.len();
    assert(n + 1 <= plen * (n + 1)) by (nonlinear_arith)
        requires
            plen >= 1,
    ;
    let width = n + 1;
    let total = plen * width;
    let mut visited: Vec<bool> = Vec::new();
    let mut k: usize = 0;
    while k < total
        invariant
            k <= total,
            visited@.len() == k,
            forall|t: int| 0 <= t < k ==> !visited@[t],
        decreases total - k,
    {
        visited.push(false);
        k = k + 1;
    }
    let mut stack: Vec<State> = Vec::new();
    stack.push(State { pc: 0, offset: 0 });
    assert(stack@[0].pc == 0 && stack@[0].offset == 0);
    assert forall|pc: int, off: int| 0 <= pc < plen && 0 <= off <= n implies !#[trigger] seen(
        visited@,
        width as int,
        pc,
        off,
    ) by {
        lemma_slot_bounds(pc, off, width as int, plen as int);
    }
    while stack.len() > 0
        invariant
            prog == program@,
            inp == input@,
            well_formed(prog),
            n == inp.len(),
            plen == prog.len(),
            width == n + 1,
            total == plen * width,
            visited@.len() == total,
            forall|t: int|
                0 <= t < stack@.len() ==> (#[trigger] stack@[t]).pc < plen && stack@[t].offset
                    <= n,
            forall|t: int|
                0 <= t < stack@.len() && reaches_accept(
                    prog,
                    inp,
                    (#[trigger] stack@[t]).pc as int,
                    stack@[t].offset as int,
                ) ==> accepts(prog, inp),
            forall|pc: int, off: int|
                0 <= pc < plen && 0 <= off <= n && #[trigger] seen(visited@, width as int, pc, off)
                    ==> closed_at(prog, inp, visited@, stack@, width as int, pc, off),
            in_frontier(visited@, stack@, width as int, 0, 0),
        decreases unexplored(visited@), stack@.len(),
    {
        let ghost s1 = stack@;
        let ghost v1 = visited@;
        let ghost w = width as int;
        let st = stack.pop().unwrap();
        assert(st == s1.last());
        assert(s1[s1.len() - 1] == st);
        proof {
            lemma_slot_bounds(st.pc as int, st.offset as int, w, plen as int);
        }
        let idx = st.pc * width + st.offset;
        if visited[idx] {
            proof {
                assert forall|pc: int, off: int|
                    0 <= pc < plen && 0 <= off <= n && #[trigger] seen(visited@, w, pc, off)
                        implies closed_at(prog, inp, visited@, stack@, w, pc, off) by {
                    lemma_closed_kept(prog, inp, v1, visited@, s1, stack@, w, pc, off);
                }
                lemma_slot_bounds(0, 0, w, plen as int);
                lemma_frontier_kept(v1, visited@, s1, stack@, w, 0, 0);
            }
            continue;
        }
        visited.set(idx, true);
        proof {
            lemma_mark_explored(v1, idx as int);
        }
        let ins = program[st.pc];
        assert(targets_in_range(prog[st.pc as int], st.pc as int, plen as int));
        match ins {
            Instruction::MatchChar(c) => {
                if st.offset < n && input[st.offset] == c {
                    stack.push(State { pc: st.pc + 1, offset: st.offset + 1 });
                    proof {
                        let top = stack@.len() - 1;
                        assert(stack@[top].pc == st.pc + 1 && stack@[top].offset == st.offset + 1);
                        assert(successor(prog, inp, st.pc as int, st.offset as int, st.pc + 1, st.offset + 1));
                    }
                }
            },
            Instruction::Jump(t) => {
                stack.push(State { pc: t, offset: st.offset });
                proof {
                    let top = stack@.len() - 1;
                    assert(stack@[top].pc == t && stack@[top].offset == st.offset);
                    assert(successor(prog, inp, st.pc as int, st.offset as int, t as int, st.offset as int));
                }
            },
            Instruction::Split(t1, t2) => {
                stack.push(State { pc: t2, offset: st.offset });
                stack.push(State { pc: t1, offset: st.offset });
                proof {
                    let top = stack@.len() - 1;
                    assert(stack@[top].pc == t1 && stack@[top].offset == st.offset);
                    assert(stack@[top - 1].pc == t2 && stack@[top - 1].offset == st.offset);
                    assert(successor(prog, inp, st.pc as int, st.offset as int, t1 as int, st.offset as int));
                    assert(successor(prog, inp, st.pc as int, st.offset as int, t2 as int, st.offset as int));
                }
            },
            Instruction::Accept => {
                if st.offset == n {
                    assert(steps(prog, inp, st.pc as int, st.offset as int, 0));
                    return true;
                }
            },
        }
        proof {
            let s2 = stack@;
            let v2 = visited@;
            assert(closed_at(prog, inp, v2, s2, w, st.pc as int, st.offset as int));
            assert forall|t: int|
                0 <= t < s2.len() && reaches_accept(
                    prog,
                    inp,
                    (#[trigger] s2[t]).pc as int,
                    s2[t].offset as int,
                ) implies accepts(prog, inp) by {
                if t >= s1.len() - 1 {
                    lemma_step_back(prog, inp, st.pc as int, st.offset as int, s2[t].pc as int, s2[t].offset as int);
                } else {
                    assert(s2[t] == s1[t]);
                }
            }
            assert forall|t: int| 0 <= t < s2.len() implies (#[trigger] s2[t]).pc < plen && s2[t].offset <= n by {
                if t < s1.len() - 1 {
                    assert(s2[t] == s1[t]);
                }
            }
            assert forall|pc: int, off: int|
                0 <= pc < plen && 0 <= off <= n && #[trigger] seen(v2, w, pc, off)
                    implies closed_at(prog, inp, v2, s2, w, pc, off) by {
                lemma_slot_bounds(pc, off, w, plen as int);
                if seen(v1, w, pc, off) {
                    lemma_closed_kept(prog, inp, v1, v2, s1, s2, w, pc, off);
                } else {
                    lemma_slot_injective(pc, off, st.pc as int, st.offset as int, w);
                }
            }
            lemma_slot_bounds(0, 0, w, plen as int);
            lemma_frontier_kept(v1, v2, s1, s2, w, 0, 0);
        }
    }
    proof {
        let w = width as int;
        assert(stack@ =~= Seq::<State>::empty());
        if accepts(prog, inp) {
            let fuel = choose|fuel: nat| #[trigger] steps(prog, inp, 0, 0, fuel);
            lemma_closed_rejects(prog, inp, visited@, w, 0, 0, fuel);
        }
    }
    false
}

/// A compiled program together with the input it is to be run on.
#[derive(Debug)]
pub struct VM {
    pub program: Vec<Instruction>,
    pub input: Vec<char>,
}

impl VM {
    pub fn new(program: Vec<Instruction>, input: Vec<char>) -> (vm: VM)
        ensures
            vm.program@ == program@,
            vm.input@ == input@,
    {
        VM { program, input }
    }

    /// Runs the program on the input: true when the program accepts the
    /// whole input.
    pub fn run(&mut self) -> (r: bool)
        requires
            well_formed(old(self).program@),
            old(self).program@.len() * (old(self).input@.len() + 1) <= usize::MAX,
        ensures
            final(self).program@ == old(self).program@,
            final(self).input@ == old(self).input@,
            r == accepts(old(self).program@, old(self).input@),
    {
        match_all(&self.program, &self.input)
    }
}

} // verus!
