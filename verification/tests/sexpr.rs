//! Reading S-expressions.

use incremental_skolem::sexpr::{parse_all, tokenize, Sexpr};
use incremental_skolem::text::{is_white_space, parse_number};

#[test]
fn parses_nested_lists() {
    let src = "(assert (forall ((x U)) (P x)))";
    let parsed = parse_all(src).unwrap();
    assert_eq!(parsed.len(), 1);
    let list = parsed[0].list().unwrap();
    assert_eq!(list[0].atom(), Some("assert"));
}

#[test]
fn ignores_comments() {
    let src = "; a comment\n(check-sat) ; trailing comment";
    let parsed = parse_all(src).unwrap();
    assert_eq!(parsed.len(), 1);
    assert_eq!(parsed[0].list().unwrap()[0].atom(), Some("check-sat"));
}

fn atom(text: &str) -> Sexpr {
    Sexpr::Atom(text.to_string())
}

fn error(src: &str) -> String {
    match parse_all(src) {
        Ok(_) => panic!("{} should not parse", src),
        Err(e) => e.0,
    }
}

#[test]
fn nothing_parses_to_nothing() {
    assert_eq!(parse_all("").unwrap(), vec![]);
    assert_eq!(parse_all(" \t\n ; only a comment").unwrap(), vec![]);
}

#[test]
fn quoted_symbols_and_strings_are_single_atoms() {
    assert_eq!(
        parse_all("(a |b c (| \"d ; e)\" f)").unwrap(),
        vec![Sexpr::List(vec![atom("a"), atom("|b c (|"), atom("\"d ; e)\""), atom("f")])]
    );
}

#[test]
fn an_open_quote_runs_to_the_end() {
    assert_eq!(parse_all("x |y z").unwrap(), vec![atom("x"), atom("|y z")]);
    assert_eq!(parse_all("\"y z").unwrap(), vec![atom("\"y z")]);
}

#[test]
fn a_symbol_runs_to_the_next_parenthesis_or_space() {
    assert_eq!(
        parse_all("a;b|c\"d(e)").unwrap(),
        vec![atom("a;b|c\"d"), Sexpr::List(vec![atom("e")])]
    );
    assert_eq!(parse_all("()").unwrap(), vec![Sexpr::List(vec![])]);
}

#[test]
fn unicode_space_separates_symbols() {
    assert_eq!(parse_all("a\u{a0}b\u{2003}c").unwrap(), vec![atom("a"), atom("b"), atom("c")]);
}

#[test]
fn an_unclosed_list_is_an_error() {
    assert_eq!(error("(a (b)"), "unclosed '('");
    assert_eq!(error("("), "unclosed '('");
}

#[test]
fn a_stray_closing_parenthesis_is_an_error() {
    assert_eq!(error("(a) )"), "unexpected ')'");
    assert_eq!(error(")("), "unexpected ')'");
}

#[test]
fn copies_are_equal_and_parts_can_be_told_apart() {
    let parsed = parse_all("(a (b c) d)").unwrap();
    assert_eq!(parsed[0].clone(), parsed[0]);
    let items = parsed[0].list().unwrap();
    assert_eq!(items.len(), 3);
    assert_eq!(items[0].atom(), Some("a"));
    assert!(items[0].list().is_none());
    assert_eq!(items[1].atom(), None);
    assert_ne!(items[0], items[2]);
    assert_ne!(items[0], items[1]);
}

/// Characters count as space exactly where Rust says so.
#[test]
fn white_space_is_that_of_unicode() {
    for code in 0..0x11_0000u32 {
        if let Some(c) = char::from_u32(code) {
            assert_eq!(is_white_space(c), c.is_whitespace(), "{:?}", c);
        }
    }
}

/// Numbers are read as Rust reads them.
#[test]
fn numbers_are_read_as_rust_reads_them() {
    let samples = vec![
        "", "+", "-", "0", "7", "+7", "-7", "-0", "++7", "007", "42", "4294967295", "4294967296",
        "+4294967295", "00000000000000000001", "99999999999999999999999", "1 ", " 1", "1_000",
        "0x10", "٣", "1.0",
    ];
    for text in samples {
        assert_eq!(parse_number(text), text.parse::<u32>().ok(), "{:?}", text);
    }
}

/// The tokens of an S-expression with a space between each two.
fn spaced(s: &Sexpr) -> String {
    match s {
        Sexpr::Atom(name) => name.clone(),
        Sexpr::List(items) => {
            let mut text = String::from("(");
            for item in items {
                text.push(' ');
                text.push_str(&spaced(item));
            }
            text.push_str(" )");
            text
        }
    }
}

/// Only spacing and comments are lost: the tokens, spaced out, are read as the same.
#[test]
fn tokens_spaced_out_are_read_alike() {
    let samples = vec![
        "(a(b)c)|d e|\"f g\"h ; i\n(j;k l)",
        "((()))()",
        "x|y z| \"\" || a|b",
        "(assert(forall((x U))(P x)))(check-sat)",
        "p q \"never closed (",
    ];
    for src in samples {
        let parsed = parse_all(src).unwrap();
        let text: Vec<String> = parsed.iter().map(spaced).collect();
        assert_eq!(parse_all(&text.join(" ")).unwrap(), parsed, "{:?}", src);
    }
}

/// Splitting the tokens with a space between each two gives the same tokens.
#[test]
fn joining_and_splitting_gives_the_tokens() {
    let samples = vec![
        "", "a", "(a(b)c)|d e|\"f g\"h ; i\n(j;k l)", ")(", "x|y z| \"\" || a|b ; c", "p \"q (",
    ];
    for src in samples {
        let tokens = tokenize(src);
        assert_eq!(tokenize(&tokens.join(" ")), tokens, "{:?}", src);
    }
    assert_eq!(tokenize("(p|q r|)"), vec!["(", "p|q", "r|", ")"]);
    assert_eq!(tokenize("(|q r|s)"), vec!["(", "|q r|", "s", ")"]);
}

#[test]
fn atoms_have_the_shape_of_tokens() {
    let parsed = parse_all("a;b\"c |d (e| \"f)\" g|h").unwrap();
    let names: Vec<&str> = parsed.iter().map(|s| s.atom().unwrap()).collect();
    assert_eq!(names, vec!["a;b\"c", "|d (e|", "\"f)\"", "g|h"]);
}
