use plotlang::first_pass::run;
use plotlang::lexer::{tokenize, Token, TokenType, TokenValue};
use plotlang::parser::{Expr, Parser};

fn s(x: &str) -> String {
    x.to_string()
}

fn parse_source(src: &str) -> Expr {
    let (tokens, precedence, defs) = run(tokenize(&s(src)));
    Parser::new(tokens, 0, precedence, defs).parse().unwrap()
}

fn var(x: &str) -> Box<Expr> {
    Box::new(Expr::Variable(s(x)))
}

fn bin(l: Box<Expr>, op: &str, r: Box<Expr>) -> Box<Expr> {
    Box::new(Expr::Binary { left: l, op: s(op), right: r })
}

fn count(tokens: &[Token], kind: TokenType) -> usize {
    tokens.iter().filter(|t| t._type == kind).count()
}

#[test]
fn output_always_ends_with_single_eof() {
    for src in ["", "£a", "sweet £a { £b }\n", "asia -> never closed", "\n\n   \t"] {
        let tokens = tokenize(&s(src));
        assert_eq!(tokens.last().unwrap()._type, TokenType::EOF);
        assert_eq!(count(&tokens, TokenType::EOF), 1);
    }
}

#[test]
fn indentation_is_balanced() {
    let tokens = tokenize(&s("£a\n  £b\n    £c\n£d"));
    assert_eq!(count(&tokens, TokenType::Indent), 2);
    assert_eq!(count(&tokens, TokenType::Dedent), 2);
    let open = tokenize(&s("£a\n  £b\n    £c"));
    assert_eq!(count(&open, TokenType::Indent), 2);
    assert_eq!(count(&open, TokenType::Dedent), 0);
    let mut depth: i64 = 0;
    for t in &tokenize(&s("£a\n\t£b\n  £c\n£d\n        £e\n£f")) {
        if t._type == TokenType::Indent {
            depth += 1;
        }
        if t._type == TokenType::Dedent {
            depth -= 1;
        }
        assert!(depth >= 0);
    }
}

#[test]
fn definitions_are_removed_and_registered() {
    let src = "I would love to own a plot of land in the 1800s called ** and lease it to { pow, 7, binary } owners\n£a ** £b";
    let (tokens, precedence, defs) = run(tokenize(&s(src)));
    assert_eq!(count(&tokens, TokenType::Define), 0);
    assert_eq!(count(&tokens, TokenType::EndOfAssign), 0);
    assert_eq!(defs.len(), 1);
    assert_eq!(precedence.get("**"), Some(7));
}

#[test]
fn later_definition_of_a_symbol_wins() {
    let src = "I would love to own a plot of land in the 1800s called <> and lease it to { f, 2 } owners I would love to own a plot of land in the 1800s called <> and lease it to { g, 9 } owners";
    let (tokens, precedence, defs) = run(tokenize(&s(src)));
    assert_eq!(tokens.len(), 1);
    assert_eq!(defs.len(), 2);
    assert_eq!(precedence.get("<>"), Some(9));
}

#[test]
fn tighter_operator_groups_first() {
    assert_eq!(
        parse_source("£x + £y ^ £z"),
        Expr::Block(vec![*bin(var("x"), "+", bin(var("y"), "^", var("z")))])
    );
    assert_eq!(
        parse_source("£x ^ £y + £z"),
        Expr::Block(vec![*bin(bin(var("x"), "^", var("y")), "+", var("z"))])
    );
}

#[test]
fn equal_precedence_groups_left() {
    assert_eq!(
        parse_source("£x - £y + £z"),
        Expr::Block(vec![*bin(bin(var("x"), "-", var("y")), "+", var("z"))])
    );
    assert_eq!(
        parse_source("£x < £y = £z"),
        Expr::Block(vec![*bin(bin(var("x"), "<", var("y")), "=", var("z"))])
    );
}

#[test]
fn builtins_survive_first_pass() {
    let (_, precedence, _) = run(tokenize(&s("£a + £b")));
    let expected = [("^^", 4), ("^", 3), ("*", 2), ("/", 2), ("+", 1), ("-", 1), ("<", 0), (">", 0), ("=", 0), ("≥", 0), ("≤", 0)];
    for (op, p) in expected {
        assert_eq!(precedence.get(op), Some(p));
    }
}

#[test]
fn redefined_builtin_takes_new_precedence() {
    let src = "I would love to own a plot of land in the 1800s called + and lease it to { add, 6 } owners";
    let (_, precedence, _) = run(tokenize(&s(src)));
    assert_eq!(precedence.get("+"), Some(6));
    assert_eq!(precedence.get("*"), Some(2));
}

#[test]
fn nested_inline_blocks() {
    assert_eq!(
        parse_source("{ { £a } }"),
        Expr::Block(vec![Expr::Block(vec![Expr::Block(vec![Expr::Variable(s("a"))])])])
    );
}

#[test]
fn indented_block_inside_braces() {
    assert_eq!(
        parse_source("sweet £a {\n    £b\n    { £c }\n}"),
        Expr::Block(vec![Expr::If {
            cond: var("a"),
            then: Box::new(Expr::Block(vec![
                Expr::Variable(s("b")),
                Expr::Block(vec![Expr::Variable(s("c"))]),
            ])),
            else_then: Box::new(Expr::Block(vec![])),
        }])
    );
}

#[test]
fn for_counts_trailing_s() {
    assert_eq!(tokenize(&s("lolsie"))[0], Token::new(TokenType::For, Some(TokenValue::Num(0))));
    assert_eq!(tokenize(&s("lolsiesss £i"))[0], Token::new(TokenType::For, Some(TokenValue::Num(3))));
    assert_eq!(
        parse_source("lolsiess £i { }"),
        Expr::Block(vec![Expr::For {
            iter: 2,
            var: s("i"),
            then: Box::new(Expr::Block(vec![])),
            else_then: Box::new(Expr::Block(vec![])),
        }])
    );
}

#[test]
fn longest_phrase_wins() {
    let tokens = tokenize(&s("sweet but stout sweet stout"));
    let kinds: Vec<TokenType> = tokens.iter().map(|t| t._type).collect();
    assert_eq!(kinds, vec![TokenType::ElseIf, TokenType::If, TokenType::Else, TokenType::EOF]);
}
