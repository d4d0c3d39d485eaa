use vstd::prelude::*;

verus! {

/// A regular expression over characters.
#[derive(Debug)]
pub enum Regex {
    /// Exactly one given character.
    Literal(char),
    /// The left expression immediately followed by the right one.
    Concat(Box<Regex>, Box<Regex>),
    /// Either of the two expressions.
    Union(Box<Regex>, Box<Regex>),
    /// Zero or more consecutive repetitions of the body (Kleene star).
    Repeat(Box<Regex>),
}

/// Number of instructions that the expression compiles to (without the final accept).
pub open spec fn size(r: Regex) -> nat
    decreases r,
{
    match r {
        Regex::Literal(_) => 1,
        Regex::Concat(a, b) => size(*a) + size(*b),
        Regex::Union(a, b) => size(*a) + size(*b) + 2,
        Regex::Repeat(body) => size(*body) + 2,
    }
}

/// The language of an expression: whether `r` matches the whole of `s`.
pub open spec fn matches_whole(r: Regex, s: Seq<char>) -> bool
    decreases r,
{
    match r {
        Regex::Literal(c) => s == seq![c],
        Regex::Concat(a, b) => exists|k: int|
            0 <= k <= s.len() && matches_whole(*a, #[trigger] s.subrange(0, k)) && matches_whole(
                *b,
                s.subrange(k, s.len() as int),
            ),
        Regex::Union(a, b) => matches_whole(*a, s) || matches_whole(*b, s),
        Regex::Repeat(body) => exists|parts: Seq<Seq<char>>|
            #[trigger] parts.flatten() == s && forall|k: int|
                0 <= k < parts.len() ==> matches_whole(*body, #[trigger] parts[k]),
    }
}

/// Whether an expression accepts the empty string, read off its structure.
pub open spec fn nullable(r: Regex) -> bool
    decreases r,
{
    match r {
        Regex::Literal(_) => false,
        Regex::Concat(a, b) => nullable(*a) && nullable(*b),
        Regex::Union(a, b) => nullable(*a) || nullable(*b),
        Regex::Repeat(_) => true,
    }
}

/// The empty string is matched exactly by the nullable expressions.
pub proof fn lemma_matches_empty(r: Regex)
    ensures
        matches_whole(r, Seq::<char>::empty()) == nullable(r),
    decreases r,
{
    let e = Seq::<char>::empty();
    match r {
        Regex::Literal(c) => {
            assert(seq![c].len() == 1);
            assert(e != seq![c]);
        },
        Regex::Concat(a, b) => {
            lemma_matches_empty(*a);
            lemma_matches_empty(*b);
            assert(e.subrange(0, 0) =~= e);
            if matches_whole(r, e) {
                let k = choose|k: int|
                    0 <= k <= e.len() && matches_whole(*a, #[trigger] e.subrange(0, k)) && matches_whole(
                        *b,
                        e.subrange(k, e.len() as int),
                    );
                assert(k == 0);
            }
        },
        Regex::Union(a, b) => {
            lemma_matches_empty(*a);
            lemma_matches_empty(*b);
        },
        Regex::Repeat(body) => {
            let parts = Seq::<Seq<char>>::empty();
            assert(parts.flatten() =~= e);
        },
    }
}

} // verus!
