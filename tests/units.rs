use sexp_arena::atom::Atom;
use sexp_arena::node::{Kind, Node, ReadError};
use sexp_arena::tokenizer::{tokenize, Token};

fn tok(s: &str) -> Token {
    Token { value: s.to_string() }
}

fn texts(src: &str) -> Vec<String> {
    tokenize(src).into_iter().map(|t| t.value).collect()
}

#[test]
fn delimiters_stand_alone() {
    assert_eq!(texts("(ab[c]{d})"), vec!["(", "ab", "[", "c", "]", "{", "d", "}", ")"]);
    assert_eq!(texts("@x~y`z"), vec!["@", "x", "~", "y", "`", "z"]);
    assert_eq!(texts("\"str\" 'q"), vec!["\"", "str", "\"", "'", "q"]);
    assert_eq!(texts("((x))"), vec!["(", "(", "x", ")", ")"]);
}

#[test]
fn whitespace_tokens_are_dropped() {
    assert_eq!(texts("a  b\nc"), vec!["a", "b", "c"]);
    assert_eq!(texts("(\t)"), vec!["(", ")"]);
    assert_eq!(texts(" \n "), Vec::<String>::new());
}

#[test]
fn tab_is_not_a_delimiter() {
    assert_eq!(texts("a\tb"), vec!["a\tb"]);
    assert_eq!(texts("(\tx)"), vec!["(", "\tx", ")"]);
}

#[test]
fn non_ascii_text_is_kept() {
    assert_eq!(texts("(λ é)"), vec!["(", "λ", "é", ")"]);
}

#[test]
fn infer_booleans() {
    assert_eq!(Atom::infer(&tok("true")), Atom::Boolean(true));
    assert_eq!(Atom::infer(&tok("false")), Atom::Boolean(false));
    assert_eq!(Atom::infer(&tok("True")), Atom::Symbol("True".to_string()));
}

#[test]
fn infer_integers() {
    assert_eq!(Atom::infer(&tok("42")), Atom::Int(42));
    assert_eq!(Atom::infer(&tok("+5")), Atom::Int(5));
    assert_eq!(Atom::infer(&tok("-17")), Atom::Int(-17));
    assert_eq!(Atom::infer(&tok("007")), Atom::Int(7));
    assert_eq!(Atom::infer(&tok("9223372036854775807")), Atom::Int(i64::MAX));
    assert_eq!(Atom::infer(&tok("-9223372036854775808")), Atom::Int(i64::MIN));
}

#[test]
fn infer_floats() {
    assert_eq!(Atom::infer(&tok("3.5")), Atom::Float("3.5".to_string()));
    assert_eq!(Atom::infer(&tok(".5")), Atom::Float(".5".to_string()));
    assert_eq!(Atom::infer(&tok("5.")), Atom::Float("5.".to_string()));
    assert_eq!(Atom::infer(&tok("1e5")), Atom::Float("1e5".to_string()));
    assert_eq!(Atom::infer(&tok("-2.5E-3")), Atom::Float("-2.5E-3".to_string()));
    assert_eq!(Atom::infer(&tok("inf")), Atom::Float("inf".to_string()));
    assert_eq!(Atom::infer(&tok("-Infinity")), Atom::Float("-Infinity".to_string()));
    assert_eq!(Atom::infer(&tok("NaN")), Atom::Float("NaN".to_string()));
    assert_eq!(
        Atom::infer(&tok("9223372036854775808")),
        Atom::Float("9223372036854775808".to_string())
    );
    for t in ["3.5", ".5", "5.", "1e5", "-2.5E-3", "inf", "-Infinity", "NaN", "9223372036854775808"] {
        assert!(t.parse::<f64>().is_ok());
    }
}

#[test]
fn infer_symbols() {
    for t in ["+", "-", ".", "e5", "1e", "1e+", "1.2.3", "abc", "1x", "infinit", "--1", "+-1", "..5"] {
        assert_eq!(Atom::infer(&tok(t)), Atom::Symbol(t.to_string()));
        assert!(t.parse::<f64>().is_err());
        assert!(t.parse::<i64>().is_err());
    }
}

#[test]
fn render_atoms() {
    assert_eq!(Atom::Int(-42).render(), "-42");
    assert_eq!(Atom::Int(0).render(), "0");
    assert_eq!(Atom::Int(i64::MIN).render(), "-9223372036854775808");
    assert_eq!(Atom::Reference(12).render(), "%12");
    assert_eq!(Atom::Boolean(false).render(), "false");
    assert_eq!(Atom::Boolean(true).render(), "true");
    assert_eq!(Atom::Float("2.50".to_string()).render(), "2.50");
    assert_eq!(Atom::Keyword("k".to_string()).render(), "k");
    assert_eq!(Atom::String("s t".to_string()).render(), "s t");
}

#[test]
fn atoms_compare_structurally() {
    assert_eq!(Atom::Int(1), Atom::Int(1));
    assert_ne!(Atom::Int(1), Atom::Int(2));
    assert_ne!(Atom::Int(1), Atom::Float("1".to_string()));
    assert_eq!(Atom::Symbol("a".to_string()), Atom::Symbol("a".to_string()));
    assert_ne!(Atom::Symbol("a".to_string()), Atom::Keyword("a".to_string()));
    assert_ne!(Atom::Symbol("a".to_string()), Atom::String("a".to_string()));
    assert_eq!(Atom::Reference(3), Atom::Reference(3));
}

#[test]
fn node_kinds_and_rendering() {
    let cases = [
        ("(", Kind::Exec, "(exec )"),
        ("[", Kind::Vector, "(vector )"),
        ("{", Kind::Mapping, "(map )"),
        ("\"", Kind::Text, "(string )"),
        ("'", Kind::List, "(list )"),
    ];
    for (t, kind, text) in cases {
        let node = Node::new(&tok(t)).ok().unwrap();
        assert_eq!(node.kind, kind);
        assert!(node.children.is_empty());
        assert_eq!(node.render(), text);
    }
    let mut node = Node::new(&tok("(")).ok().unwrap();
    node.push(Atom::Symbol("f".to_string()));
    node.push(Atom::Reference(4));
    node.push(Atom::Int(-1));
    assert_eq!(node.render(), "(exec f %4 -1)");
}

#[test]
fn unsupported_delimiter() {
    assert!(matches!(Node::new(&tok(")")), Err(ReadError::UnsupportedDelimiter)));
    assert!(matches!(Node::new(&tok("x")), Err(ReadError::UnsupportedDelimiter)));
    assert!(matches!(Node::new(&tok("((")), Err(ReadError::UnsupportedDelimiter)));
}
