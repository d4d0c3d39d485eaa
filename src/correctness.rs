use vstd::prelude::*;
use crate::regex::{Regex, matches_whole, size};
use crate::instruction::{Instruction, accepts, reaches_accept, steps, successor, lemma_step_back};
use crate::compiler::{code, compilable, program_of, lemma_code_len};

verus! {

/// `prog` holds the code of `r` at index `p`, followed by at least one more instruction.
pub open spec fn fragment_at(prog: Seq<Instruction>, r: Regex, p: int) -> bool {
    &&& 0 <= p
    &&& p + size(r) < prog.len()
    &&& p + size(r) <= usize::MAX
    &&& forall|k: int| 0 <= k < size(r) ==> prog[p + k] == #[trigger] code(r, p)[k]
}

/// The instructions and sub-fragments that a fragment for `r` at `p` is made of.
pub open spec fn layout_at(prog: Seq<Instruction>, r: Regex, p: int) -> bool {
    match r {
        Regex::Literal(c) => prog[p] == Instruction::MatchChar(c),
        Regex::Concat(a, b) => fragment_at(prog, *a, p) && fragment_at(prog, *b, p + size(*a)),
        Regex::Union(a, b) => {
            &&& prog[p] == Instruction::Split((p + 1) as usize, (p + size(*a) + 2) as usize)
            &&& fragment_at(prog, *a, p + 1)
            &&& prog[p + size(*a) + 1] == Instruction::Jump((p + size(r)) as usize)
            &&& fragment_at(prog, *b, p + size(*a) + 2)
        },
        Regex::Repeat(body) => {
            &&& prog[p] == Instruction::Split((p + 1) as usize, (p + size(r)) as usize)
            &&& fragment_at(prog, *body, p + 1)
            &&& prog[p + size(*body) + 1] == Instruction::Jump(p as usize)
        },
    }
}

proof fn lemma_layout(prog: Seq<Instruction>, r: Regex, p: int)
    requires
        fragment_at(prog, r, p),
    ensures
        layout_at(prog, r, p),
{
    lemma_code_len(r, p);
    match r {
        Regex::Literal(c) => {
            assert(prog[p + 0] == code(r, p)[0]);
        },
        Regex::Concat(a, b) => {
            let pb = p + size(*a);
            lemma_code_len(*a, p);
            lemma_code_len(*b, pb);
            assert forall|k: int| 0 <= k < size(*a) implies prog[p + k] == #[trigger] code(*a, p)[k] by {
                assert(prog[p + k] == code(r, p)[k]);
            }
            assert forall|k: int| 0 <= k < size(*b) implies prog[pb + k] == #[trigger] code(*b, pb)[k] by {
                assert(prog[p + (size(*a) + k)] == code(r, p)[size(*a) + k]);
            }
        },
        Regex::Union(a, b) => {
            let q = p + size(*a) + 2;
            lemma_code_len(*a, p + 1);
            lemma_code_len(*b, q);
            assert(prog[p + 0] == code(r, p)[0]);
            assert(prog[p + (size(*a) + 1)] == code(r, p)[size(*a) + 1int]);
            assert forall|k: int| 0 <= k < size(*a) implies prog[(p + 1) + k] == #[trigger] code(*a, p + 1)[k] by {
                assert(prog[p + (k + 1)] == code(r, p)[k + 1]);
            }
            assert forall|k: int| 0 <= k < size(*b) implies prog[q + k] == #[trigger] code(*b, q)[k] by {
                assert(prog[p + (size(*a) + 2 + k)] == code(r, p)[size(*a) + 2 + k]);
            }
        },
        Regex::Repeat(body) => {
            lemma_code_len(*body, p + 1);
            assert(prog[p + 0] == code(r, p)[0]);
            assert(prog[p + (size(*body) + 1)] == code(r, p)[size(*body) + 1int]);
            assert forall|k: int| 0 <= k < size(*body) implies prog[(p + 1) + k] == #[trigger] code(*body, p + 1)[k] by {
                assert(prog[p + (k + 1)] == code(r, p)[k + 1]);
            }
        },
    }
}

/// A fragment matching `input[i..j]` leads from its start at `i` to its end at
/// `j`, so an accepting path after the fragment extends back to its start.
proof fn lemma_forward(prog: Seq<Instruction>, input: Seq<char>, r: Regex, p: int, i: int, j: int)
    requires
        fragment_at(prog, r, p),
        0 <= i <= j <= input.len(),
        matches_whole(r, input.subrange(i, j)),
        reaches_accept(prog, input, p + size(r), j),
    ensures
        reaches_accept(prog, input, p, i),
    decreases r,
{
    lemma_layout(prog, r, p);
    let s = input.subrange(i, j);
    match r {
        Regex::Literal(c) => {
            assert(s.len() == 1 && s[0] == c);
            assert(successor(prog, input, p, i, p + 1, i + 1));
            lemma_step_back(prog, input, p, i, p + 1, i + 1);
        },
        Regex::Concat(a, b) => {
            let k = choose|k: int|
                0 <= k <= s.len() && matches_whole(*a, #[trigger] s.subrange(0, k))
                    && matches_whole(*b, s.subrange(k, s.len() as int));
            assert(s.subrange(0, k) =~= input.subrange(i, i + k));
            assert(s.subrange(k, s.len() as int) =~= input.subrange(i + k, j));
            lemma_forward(prog, input, *b, p + size(*a), i + k, j);
            lemma_forward(prog, input, *a, p, i, i + k);
        },
        Regex::Union(a, b) => {
            let q = p + size(*a) + 2;
            if matches_whole(*a, s) {
                assert(successor(prog, input, p + size(*a) + 1, j, p + size(r), j));
                lemma_step_back(prog, input, p + size(*a) + 1, j, p + size(r), j);
                lemma_forward(prog, input, *a, p + 1, i, j);
                assert(successor(prog, input, p, i, p + 1, i));
                lemma_step_back(prog, input, p, i, p + 1, i);
            } else {
                lemma_forward(prog, input, *b, q, i, j);
                assert(successor(prog, input, p, i, q, i));
                lemma_step_back(prog, input, p, i, q, i);
            }
        },
        Regex::Repeat(body) => {
            let parts = choose|parts: Seq<Seq<char>>|
                #[trigger] parts.flatten() == s && forall|k: int|
                    0 <= k < parts.len() ==> matches_whole(*body, #[trigger] parts[k]);
            assert forall|x: int, y: int|
                0 <= x <= y <= input.len() && matches_whole(*body, #[trigger] input.subrange(x, y))
                    && reaches_accept(prog, input, p + 1 + size(*body), y) implies reaches_accept(
                prog,
                input,
                p + 1,
                x,
            ) by {
                lemma_forward(prog, input, *body, p + 1, x, y);
            }
            lemma_forward_repeat(prog, input, r, *body, p, parts, i, j);
        },
    }
}

/// The loop of a repetition, run once per part, carries an accepting path
/// after the loop back to the loop head.
proof fn lemma_forward_repeat(
    prog: Seq<Instruction>,
    input: Seq<char>,
    r: Regex,
    body: Regex,
    p: int,
    parts: Seq<Seq<char>>,
    i: int,
    j: int,
)
    requires
        r == Regex::Repeat(Box::new(body)),
        fragment_at(prog, r, p),
        0 <= i <= j <= input.len(),
        parts.flatten() == input.subrange(i, j),
        forall|k: int| 0 <= k < parts.len() ==> matches_whole(body, #[trigger] parts[k]),
        forall|x: int, y: int|
            0 <= x <= y <= input.len() && matches_whole(body, #[trigger] input.subrange(x, y))
                && reaches_accept(prog, input, p + 1 + size(body), y) ==> reaches_accept(
                prog,
                input,
                p + 1,
                x,
            ),
        reaches_accept(prog, input, p + size(r), j),
    ensures
        reaches_accept(prog, input, p, i),
    decreases parts.len(),
{
    lemma_layout(prog, r, p);
    if parts.len() == 0 {
        assert(input.subrange(i, j).len() == 0);
        assert(successor(prog, input, p, i, p + size(r), i));
        lemma_step_back(prog, input, p, i, p + size(r), i);
    } else {
        let first = parts[0];
        let rest = parts.drop_first();
        let s = input.subrange(i, j);
        let k = i + first.len();
        assert(s == first + rest.flatten());
        assert(s.subrange(0, first.len() as int) =~= first);
        assert(s.subrange(0, first.len() as int) =~= input.subrange(i, k));
        assert(s.subrange(first.len() as int, s.len() as int) =~= rest.flatten());
        assert(s.subrange(first.len() as int, s.len() as int) =~= input.subrange(k, j));
        assert forall|t: int| 0 <= t < rest.len() implies matches_whole(body, #[trigger] rest[t]) by {
            assert(rest[t] == parts[t + 1]);
        }
        lemma_forward_repeat(prog, input, r, body, p, rest, k, j);
        assert(successor(prog, input, p + size(body) + 1, k, p, k));
        lemma_step_back(prog, input, p + size(body) + 1, k, p, k);
        assert(matches_whole(body, input.subrange(i, k)));
        assert(successor(prog, input, p, i, p + 1, i));
        lemma_step_back(prog, input, p, i, p + 1, i);
    }
}

/// An accepting path from the start of a fragment at `i` passes its end at
/// some `j` with the fragment matching `input[i..j]`, and needs no more steps
/// from there. Returns `j` and the steps left at the end.
proof fn lemma_backward(
    prog: Seq<Instruction>,
    input: Seq<char>,
    r: Regex,
    p: int,
    i: int,
    fuel: nat,
) -> (res: (int, nat))
    requires
        fragment_at(prog, r, p),
        0 <= i <= input.len(),
        steps(prog, input, p, i, fuel),
    ensures
        i <= res.0 <= input.len(),
        res.1 <= fuel,
        matches_whole(r, input.subrange(i, res.0)),
        steps(prog, input, p + size(r), res.0, res.1),
    decreases r, fuel,
{
    lemma_layout(prog, r, p);
    match r {
        Regex::Literal(c) => {
            assert(input.subrange(i, i + 1) =~= seq![c]);
            (i + 1, (fuel - 1) as nat)
        },
        Regex::Concat(a, b) => {
            let (k, f1) = lemma_backward(prog, input, *a, p, i, fuel);
            let (j, f2) = lemma_backward(prog, input, *b, p + size(*a), k, f1);
            let s = input.subrange(i, j);
            assert(s.subrange(0, k - i) =~= input.subrange(i, k));
            assert(s.subrange(k - i, s.len() as int) =~= input.subrange(k, j));
            (j, f2)
        },
        Regex::Union(a, b) => {
            let q = p + size(*a) + 2;
            if steps(prog, input, p + 1, i, (fuel - 1) as nat) {
                let (j, f1) = lemma_backward(prog, input, *a, p + 1, i, (fuel - 1) as nat);
                assert(steps(prog, input, p + size(*a) + 1, j, f1));
                (j, (f1 - 1) as nat)
            } else {
                let (j, f1) = lemma_backward(prog, input, *b, q, i, (fuel - 1) as nat);
                (j, f1)
            }
        },
        Regex::Repeat(body) => {
            if steps(prog, input, p + 1, i, (fuel - 1) as nat) {
                let (j, f1) = lemma_backward(prog, input, *body, p + 1, i, (fuel - 1) as nat);
                assert(steps(prog, input, p + size(*body) + 1, j, f1));
                let (j2, f2) = lemma_backward(prog, input, r, p, j, (f1 - 1) as nat);
                let tail = input.subrange(j, j2);
                let more = choose|parts: Seq<Seq<char>>|
                    #[trigger] parts.flatten() == tail && forall|k: int|
                        0 <= k < parts.len() ==> matches_whole(*body, #[trigger] parts[k]);
                let parts = seq![input.subrange(i, j)] + more;
                assert(parts.drop_first() =~= more);
                assert(parts.flatten() =~= input.subrange(i, j2));
                assert forall|k: int| 0 <= k < parts.len() implies matches_whole(
                    *body,
                    #[trigger] parts[k],
                ) by {
                    if k > 0 {
                        assert(parts[k] == more[k - 1]);
                    }
                }
                (j2, f2)
            } else {
                let parts = Seq::<Seq<char>>::empty();
                assert(parts.flatten() =~= input.subrange(i, i));
                (i, (fuel - 1) as nat)
            }
        },
    }
}

/// The compiled program accepts exactly the strings that the expression matches.
pub proof fn lemma_compile_correct(r: Regex, s: Seq<char>)
    requires
        compilable(r),
    ensures
        accepts(program_of(r), s) == matches_whole(r, s),
{
    let prog = program_of(r);
    let n = s.len() as int;
    lemma_code_len(r, 0);
    assert forall|k: int| 0 <= k < size(r) implies prog[0 + k] == #[trigger] code(r, 0)[k] by {}
    assert(fragment_at(prog, r, 0));
    assert(s.subrange(0, n) =~= s);
    if matches_whole(r, s) {
        assert(steps(prog, s, size(r) as int, n, 0));
        lemma_forward(prog, s, r, 0, 0, n);
    }
    if accepts(prog, s) {
        let fuel = choose|fuel: nat| #[trigger] steps(prog, s, 0, 0, fuel);
        let (j, f) = lemma_backward(prog, s, r, 0, 0, fuel);
        assert(j == n);
    }
}

} // verus!
