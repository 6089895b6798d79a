use sexp_arena::atom::Atom;
use sexp_arena::evaluator::{eval, run, Env};
use sexp_arena::node::{Kind, ReadError};
use sexp_arena::reader::Arena;
use sexp_arena::tokenizer::{tokenize, Token};

fn texts(tokens: &[Token]) -> Vec<String> {
    tokens.iter().map(|t| t.value.clone()).collect()
}

fn read_str(src: &str) -> Result<Arena, ReadError> {
    Arena::read(&tokenize(src))
}

fn sym(s: &str) -> Atom {
    Atom::Symbol(s.to_string())
}

#[test]
fn single_form_reads_and_evaluates() {
    let tokens = tokenize("(+ 1 2)");
    assert_eq!(texts(&tokens), vec!["(", "+", "1", "2", ")"]);
    let arena = Arena::read(&tokens).ok().unwrap();
    assert_eq!(arena.len(), 1);
    let node = arena.get(0).unwrap();
    assert_eq!(node.kind, Kind::Exec);
    assert_eq!(node.children, vec![sym("+"), Atom::Int(1), Atom::Int(2)]);
    let mut env = Env::new();
    let mut out: Vec<String> = Vec::new();
    let max = eval(&arena, &mut env, 0, &mut out);
    assert_eq!(max, 0);
    assert_eq!(out, vec!["(exec + 1 2)"]);
}

#[test]
fn nested_form_gets_a_reference() {
    let arena = read_str("(a (b 1) 2)").ok().unwrap();
    assert_eq!(arena.len(), 2);
    let outer = arena.get(0).unwrap();
    assert_eq!(outer.kind, Kind::Exec);
    assert_eq!(outer.children, vec![sym("a"), Atom::Reference(1), Atom::Int(2)]);
    let inner = arena.get(1).unwrap();
    assert_eq!(inner.kind, Kind::Exec);
    assert_eq!(inner.children, vec![sym("b"), Atom::Int(1)]);
    let mut env = Env::new();
    let mut out: Vec<String> = Vec::new();
    let max = eval(&arena, &mut env, 0, &mut out);
    assert_eq!(max, 1);
    assert_eq!(out, vec!["(exec a %1 2)", "(exec b 1)"]);
}

#[test]
fn top_level_scalars_are_dropped() {
    let arena = read_str("true false 3 3.5").ok().unwrap();
    assert_eq!(arena.len(), 0);
    assert!(arena.get(0).is_none());
    assert!(run(&arena).is_empty());
}

#[test]
fn unmatched_closer_underflows() {
    assert!(matches!(read_str(")"), Err(ReadError::StackUnderflow(0))));
    assert!(matches!(read_str("(a) ]"), Err(ReadError::StackUnderflow(3))));
}

#[test]
fn unclosed_container_is_an_error() {
    assert!(matches!(read_str("(a [b"), Err(ReadError::UnterminatedContainer(2))));
    assert!(matches!(read_str("{"), Err(ReadError::UnterminatedContainer(1))));
}

#[test]
fn one_entry_per_opener() {
    let arena = read_str("(a [b {c}] (d)) [] {x}").ok().unwrap();
    assert_eq!(arena.len(), 6);
    assert_eq!(arena.get(1).unwrap().kind, Kind::Vector);
    assert_eq!(arena.get(2).unwrap().kind, Kind::Mapping);
    assert_eq!(arena.get(4).unwrap().kind, Kind::Vector);
    assert_eq!(arena.get(5).unwrap().kind, Kind::Mapping);
}

#[test]
fn references_point_forward() {
    let arena = read_str("(a (b (c) (d)) (e) [f {g}])").ok().unwrap();
    assert_eq!(arena.len(), 7);
    for id in 0..arena.len() {
        for child in &arena.get(id).unwrap().children {
            if let Atom::Reference(n) = child {
                assert!(*n > id);
                assert!(*n < arena.len());
            }
        }
    }
    assert_eq!(
        arena.get(1).unwrap().children,
        vec![sym("b"), Atom::Reference(2), Atom::Reference(3)]
    );
    assert_eq!(
        arena.get(0).unwrap().children,
        vec![sym("a"), Atom::Reference(1), Atom::Reference(4), Atom::Reference(5)]
    );
}

#[test]
fn driver_visits_every_id_once_in_order() {
    let arena = read_str("(a (b)) (c) [d (e (f))]").ok().unwrap();
    assert_eq!(arena.len(), 6);
    let out = run(&arena);
    assert_eq!(
        out,
        vec![
            "(exec a %1)",
            "(exec b)",
            "",
            "(exec c)",
            "",
            "(vector d %4)",
            "(exec e %5)",
            "(exec f)",
            "",
        ]
    );
}

#[test]
fn eval_from_inner_id_and_out_of_range() {
    let arena = read_str("(a (b (c)) (d))").ok().unwrap();
    let mut env = Env::new();
    let mut out: Vec<String> = Vec::new();
    assert_eq!(eval(&arena, &mut env, 1, &mut out), 2);
    assert_eq!(out, vec!["(exec b %2)", "(exec c)"]);
    let mut none: Vec<String> = Vec::new();
    assert_eq!(eval(&arena, &mut env, 9, &mut none), 9);
    assert!(none.is_empty());
}

#[test]
fn literals_survive_reading() {
    let arena = read_str("(x 1 (2.5 true) [\"s\" -3] 'q)").ok().unwrap();
    let mut found: Vec<String> = Vec::new();
    for id in 0..arena.len() {
        for child in &arena.get(id).unwrap().children {
            if !matches!(child, Atom::Reference(_)) {
                found.push(child.render());
            }
        }
    }
    found.sort();
    let mut expected: Vec<String> = ["x", "1", "2.5", "true", "s", "-3", "q"]
        .iter()
        .map(|s| s.to_string())
        .collect();
    expected.sort();
    assert_eq!(found, expected);
}

#[test]
fn quote_marks_are_passed_over() {
    let arena = read_str("(say \"hi\" 'x)").ok().unwrap();
    assert_eq!(arena.len(), 1);
    assert_eq!(arena.get(0).unwrap().children, vec![sym("say"), sym("hi"), sym("x")]);
}

#[test]
fn empty_input() {
    assert!(tokenize("").is_empty());
    let arena = read_str("").ok().unwrap();
    assert_eq!(arena.len(), 0);
    assert!(run(&arena).is_empty());
}
