use vstd::prelude::*;
use crate::regex::{Regex, matches_whole, nullable, lemma_matches_empty};
use crate::instruction::{Instruction, accepts};
use crate::compiler::{compilable, program_of};
use crate::correctness::lemma_compile_correct;

verus! {

/// A compiled single character accepts exactly the one-character input made
/// of that character.
pub proof fn lemma_literal_accepts(c: char, s: Seq<char>)
    ensures
        accepts(program_of(Regex::Literal(c)), s) == (s == seq![c]),
        s.len() == 1 ==> (accepts(program_of(Regex::Literal(c)), s) <==> s[0] == c),
{
    lemma_compile_correct(Regex::Literal(c), s);
    if s.len() == 1 && s[0] == c {
        assert(s =~= seq![c]);
    }
}

/// A compiled concatenation accepts `s` exactly when `s` splits at some point
/// into a prefix accepted by the left program and a suffix accepted by the
/// right one.
pub proof fn lemma_concat_accepts(a: Regex, b: Regex, s: Seq<char>)
    requires
        compilable(Regex::Concat(Box::new(a), Box::new(b))),
    ensures
        accepts(program_of(Regex::Concat(Box::new(a), Box::new(b))), s) <==> exists|k: int|
            0 <= k <= s.len() && #[trigger] accepts(program_of(a), s.subrange(0, k)) && accepts(
                program_of(b),
                s.subrange(k, s.len() as int),
            ),
{
    let r = Regex::Concat(Box::new(a), Box::new(b));
    lemma_compile_correct(r, s);
    if accepts(program_of(r), s) {
        let k = choose|k: int|
            0 <= k <= s.len() && matches_whole(a, #[trigger] s.subrange(0, k)) && matches_whole(
                b,
                s.subrange(k, s.len() as int),
            );
        lemma_compile_correct(a, s.subrange(0, k));
        lemma_compile_correct(b, s.subrange(k, s.len() as int));
    }
    if exists|k: int|
        0 <= k <= s.len() && #[trigger] accepts(program_of(a), s.subrange(0, k)) && accepts(
            program_of(b),
            s.subrange(k, s.len() as int),
        ) {
        let k = choose|k: int|
            0 <= k <= s.len() && #[trigger] accepts(program_of(a), s.subrange(0, k)) && accepts(
                program_of(b),
                s.subrange(k, s.len() as int),
            );
        lemma_compile_correct(a, s.subrange(0, k));
        lemma_compile_correct(b, s.subrange(k, s.len() as int));
    }
}

/// A compiled alternation accepts exactly what either branch accepts, so the
/// order of the branches does not change the outcome.
pub proof fn lemma_union_accepts(a: Regex, b: Regex, s: Seq<char>)
    requires
        compilable(Regex::Union(Box::new(a), Box::new(b))),
    ensures
        accepts(program_of(Regex::Union(Box::new(a), Box::new(b))), s) == (accepts(program_of(a), s)
            || accepts(program_of(b), s)),
        accepts(program_of(Regex::Union(Box::new(a), Box::new(b))), s) == accepts(
            program_of(Regex::Union(Box::new(b), Box::new(a))),
            s,
        ),
{
    lemma_compile_correct(Regex::Union(Box::new(a), Box::new(b)), s);
    lemma_compile_correct(Regex::Union(Box::new(b), Box::new(a)), s);
    lemma_compile_correct(a, s);
    lemma_compile_correct(b, s);
}

/// A compiled repetition accepts `s` exactly when `s` is the concatenation of
/// zero or more parts, each accepted by the body's program.
pub proof fn lemma_repeat_accepts(body: Regex, s: Seq<char>)
    requires
        compilable(Regex::Repeat(Box::new(body))),
    ensures
        accepts(program_of(Regex::Repeat(Box::new(body))), s) <==> exists|parts: Seq<Seq<char>>|
            #[trigger] parts.flatten() == s && forall|k: int|
                0 <= k < parts.len() ==> accepts(program_of(body), #[trigger] parts[k]),
{
    lemma_compile_correct(Regex::Repeat(Box::new(body)), s);
    assert forall|x: Seq<char>| #[trigger] accepts(program_of(body), x) == matches_whole(body, x) by {
        lemma_compile_correct(body, x);
    }
}

/// Compiling is a function of the expression alone: any two programs compiled
/// from the same expression accept the same inputs.
pub proof fn lemma_compile_deterministic(
    r: Regex,
    first: Seq<Instruction>,
    second: Seq<Instruction>,
    s: Seq<char>,
)
    requires
        first == program_of(r),
        second == program_of(r),
    ensures
        first == second,
        accepts(first, s) == accepts(second, s),
{
}

/// A compiled program accepts the empty input exactly when its expression is
/// nullable.
pub proof fn lemma_empty_input(r: Regex)
    requires
        compilable(r),
    ensures
        accepts(program_of(r), Seq::<char>::empty()) == nullable(r),
{
    lemma_compile_correct(r, Seq::<char>::empty());
    lemma_matches_empty(r);
}

} // verus!
