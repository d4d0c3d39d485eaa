use regex_vm::engine::{match_all, VM};
use regex_vm::instruction::Instruction;
use regex_vm::regex::Regex;

fn lit(c: char) -> Regex {
    Regex::Literal(c)
}

fn cat(a: Regex, b: Regex) -> Regex {
    Regex::Concat(Box::new(a), Box::new(b))
}

fn alt(a: Regex, b: Regex) -> Regex {
    Regex::Union(Box::new(a), Box::new(b))
}

fn star(a: Regex) -> Regex {
    Regex::Repeat(Box::new(a))
}

fn a_or_b_c_star() -> Regex {
    alt(lit('a'), cat(lit('b'), star(lit('c'))))
}

fn run(re: &Regex, input: &str) -> bool {
    let program = re.compile();
    let mut vm = VM::new(program, input.chars().collect());
    vm.run()
}

#[test]
fn scenario_a_matches() {
    assert!(run(&a_or_b_c_star(), "a"));
}

#[test]
fn scenario_b_matches() {
    assert!(run(&a_or_b_c_star(), "b"));
}

#[test]
fn scenario_bccc_matches() {
    assert!(run(&a_or_b_c_star(), "bccc"));
}

#[test]
fn scenario_bcd_rejected() {
    assert!(!run(&a_or_b_c_star(), "bcd"));
}

#[test]
fn scenario_empty_rejected() {
    assert!(!run(&a_or_b_c_star(), ""));
}

#[test]
fn scenario_union_then_literal() {
    let re = cat(alt(lit('a'), lit('b')), lit('a'));
    assert!(run(&re, "ba"));
    assert!(!run(&re, "bb"));
    assert!(run(&re, "aa"));
    assert!(!run(&re, "a"));
}

#[test]
fn literal_single_characters() {
    let re = lit('x');
    assert!(run(&re, "x"));
    assert!(!run(&re, "y"));
    assert!(!run(&re, "xx"));
    assert!(!run(&re, ""));
}

#[test]
fn concat_split_points() {
    let re = cat(star(lit('a')), lit('b'));
    assert!(run(&re, "b"));
    assert!(run(&re, "aaab"));
    assert!(!run(&re, "aaa"));
    assert!(!run(&re, "ba"));
}

#[test]
fn union_order_does_not_matter() {
    let left = alt(lit('a'), cat(lit('b'), lit('c')));
    let right = alt(cat(lit('b'), lit('c')), lit('a'));
    for input in ["a", "bc", "b", "", "abc", "c"] {
        assert_eq!(run(&left, input), run(&right, input));
    }
    assert!(run(&left, "bc"));
    assert!(!run(&left, "abc"));
}

#[test]
fn repeat_partitions() {
    let re = star(alt(lit('a'), cat(lit('b'), lit('c'))));
    assert!(run(&re, ""));
    assert!(run(&re, "abcabca"));
    assert!(!run(&re, "abcb"));
    assert!(!run(&re, "cb"));
}

#[test]
fn repeat_of_nullable_body_terminates() {
    let re = star(star(lit('a')));
    assert!(run(&re, ""));
    assert!(run(&re, "aaaa"));
    assert!(!run(&re, "aab"));
    let re2 = cat(star(alt(star(lit('a')), lit('b'))), lit('c'));
    assert!(run(&re2, "abbac"));
    assert!(!run(&re2, "abba"));
}

#[test]
fn empty_input_boundary() {
    assert!(run(&star(lit('x')), ""));
    assert!(!run(&lit('x'), ""));
    assert!(run(&cat(star(lit('x')), star(lit('y'))), ""));
    assert!(!run(&cat(star(lit('x')), lit('y')), ""));
    assert!(run(&alt(lit('x'), star(lit('y'))), ""));
}

#[test]
fn compile_twice_gives_same_program() {
    let re = a_or_b_c_star();
    let first = re.compile();
    let second = re.compile();
    assert_eq!(first, second);
    for input in ["a", "b", "bccc", "bcd", ""] {
        let v: Vec<char> = input.chars().collect();
        assert_eq!(match_all(&first, &v), match_all(&second, &v));
    }
}

#[test]
fn compiled_layout_of_union_and_repeat() {
    let program = a_or_b_c_star().compile();
    assert_eq!(
        program,
        vec![
            Instruction::Split(1, 3),
            Instruction::MatchChar('a'),
            Instruction::Jump(7),
            Instruction::MatchChar('b'),
            Instruction::Split(5, 7),
            Instruction::MatchChar('c'),
            Instruction::Jump(4),
            Instruction::Accept,
        ]
    );
}

#[test]
fn single_accept_at_end() {
    let program = cat(alt(lit('a'), star(lit('b'))), star(lit('c'))).compile();
    let accepts = program.iter().filter(|i| **i == Instruction::Accept).count();
    assert_eq!(accepts, 1);
    assert_eq!(program.last(), Some(&Instruction::Accept));
}

#[test]
fn vm_keeps_program_and_input() {
    let program = lit('q').compile();
    let mut vm = VM::new(program.clone(), vec!['q']);
    assert!(vm.run());
    assert!(vm.run());
    assert_eq!(vm.program, program);
    assert_eq!(vm.input, vec!['q']);
}
