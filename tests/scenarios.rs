use plotlang::first_pass::{default_precedence_map, run, OperatorDef, OperatorKind, PrecedenceMap};
use plotlang::lexer::{tokenize, Token, TokenType, TokenValue};
use plotlang::parser::{Expr, ParseError, Parser};

fn s(x: &str) -> String {
    x.to_string()
}

fn str_tok(kind: TokenType, v: &str) -> Token {
    Token::new(kind, Some(TokenValue::Str(s(v))))
}

fn eof() -> Token {
    str_tok(TokenType::EOF, "EOF")
}

fn var(x: &str) -> Box<Expr> {
    Box::new(Expr::Variable(s(x)))
}

fn konst(x: &str) -> Box<Expr> {
    Box::new(Expr::Const(s(x)))
}

fn empty() -> Box<Expr> {
    Box::new(Expr::Block(vec![]))
}

fn parse_source(src: &str) -> Result<Expr, ParseError> {
    let (tokens, precedence, defs) = run(tokenize(&s(src)));
    Parser::new(tokens, 0, precedence, defs).parse()
}

#[test]
fn empty_source_gives_eof_and_empty_block() {
    assert_eq!(tokenize(&s("")), vec![eof()]);
    assert_eq!(parse_source(""), Ok(Expr::Block(vec![])));
}

#[test]
fn else_if_phrase_is_one_token() {
    assert_eq!(
        tokenize(&s("sweet but stout")),
        vec![str_tok(TokenType::ElseIf, "sweet but stout"), eof()]
    );
}

#[test]
fn number_expression() {
    assert_eq!(
        tokenize(&s("£a + £b * £c")),
        vec![
            str_tok(TokenType::Variable, "a"),
            str_tok(TokenType::BinaryOperator, "+"),
            str_tok(TokenType::Variable, "b"),
            str_tok(TokenType::BinaryOperator, "*"),
            str_tok(TokenType::Variable, "c"),
            eof(),
        ]
    );
    assert_eq!(
        parse_source("£a + £b * £c"),
        Ok(Expr::Block(vec![Expr::Binary {
            left: var("a"),
            op: s("+"),
            right: Box::new(Expr::Binary { left: var("b"), op: s("*"), right: var("c") }),
        }]))
    );
}

#[test]
fn define_statement() {
    let src = "I would love to own a plot of land in the 1800s called £x and lease it to $Y owners";
    assert_eq!(
        parse_source(src),
        Ok(Expr::Block(vec![Expr::Define { var: s("x"), val: konst("Y") }]))
    );
}

#[test]
fn operator_definition() {
    let src = "I would love to own a plot of land in the 1800s called ++ and lease it to { \"inc\", 5, postfix } owners";
    let (tokens, precedence, defs) = run(tokenize(&s(src)));
    assert_eq!(tokens, vec![eof()]);
    assert_eq!(precedence.get("++"), Some(5));
    assert_eq!(
        defs,
        vec![OperatorDef {
            op: s("++"),
            func: Some(s("inc")),
            precedence: 5,
            kind: OperatorKind::Postfix,
        }]
    );
    let parser = Parser::new(tokens, 0, precedence, defs);
    assert!(parser.has_postfix("++"));
}

#[test]
fn for_loop_count_token() {
    let tokens = tokenize(&s("lolsies £i sweet £i = $ZERO stout jump off the bandwagon"));
    assert_eq!(
        tokens,
        vec![
            Token::new(TokenType::For, Some(TokenValue::Num(1))),
            str_tok(TokenType::Variable, "i"),
            str_tok(TokenType::If, "sweet"),
            str_tok(TokenType::Variable, "i"),
            str_tok(TokenType::BinaryOperator, "="),
            str_tok(TokenType::Const, "ZERO"),
            str_tok(TokenType::Else, "stout"),
            str_tok(TokenType::Break, "jump off the bandwagon"),
            eof(),
        ]
    );
    // the loop body must stand in braces
    assert_eq!(
        parse_source("lolsies £i sweet £i = $ZERO stout jump off the bandwagon"),
        Err(ParseError { pos: 2, found: Some(TokenType::If) })
    );
}

#[test]
fn for_loop_with_braced_body() {
    assert_eq!(
        parse_source("lolsies £i { jump off the bandwagon }"),
        Ok(Expr::Block(vec![Expr::For {
            iter: 1,
            var: s("i"),
            then: Box::new(Expr::Block(vec![Expr::Break()])),
            else_then: empty(),
        }]))
    );
}

#[test]
fn while_postfix_on_parenthesized_condition() {
    assert_eq!(
        parse_source("(£n > $ZERO) yarp' { anywho £n }"),
        Ok(Expr::Block(vec![Expr::While {
            cond: Box::new(Expr::Binary { left: var("n"), op: s(">"), right: konst("ZERO") }),
            then: Box::new(Expr::Block(vec![Expr::Yield(var("n"))])),
            else_then: empty(),
        }]))
    );
}

#[test]
fn while_postfix_binds_to_primary() {
    assert_eq!(
        parse_source("£n > $ZERO yarp' { anywho £n }"),
        Ok(Expr::Block(vec![Expr::Binary {
            left: var("n"),
            op: s(">"),
            right: Box::new(Expr::While {
                cond: konst("ZERO"),
                then: Box::new(Expr::Block(vec![Expr::Yield(var("n"))])),
                else_then: empty(),
            }),
        }]))
    );
}

#[test]
fn comment_span() {
    assert_eq!(
        tokenize(&s("europe -> anything until newline\n£x")),
        vec![
            str_tok(TokenType::Comment, "anything until newline"),
            str_tok(TokenType::Newline, "\\n"),
            str_tok(TokenType::Variable, "x"),
            eof(),
        ]
    );
}

#[test]
fn builtin_precedences() {
    let m: PrecedenceMap = default_precedence_map();
    assert_eq!(m.get("^^"), Some(4));
    assert_eq!(m.get("^"), Some(3));
    assert_eq!(m.get("*"), Some(2));
    assert_eq!(m.get("/"), Some(2));
    assert_eq!(m.get("+"), Some(1));
    assert_eq!(m.get("-"), Some(1));
    assert_eq!(m.get("<"), Some(0));
    assert_eq!(m.get(">"), Some(0));
    assert_eq!(m.get("="), Some(0));
    assert_eq!(m.get("≥"), Some(0));
    assert_eq!(m.get("≤"), Some(0));
    assert_eq!(m.get("%"), None);
}
