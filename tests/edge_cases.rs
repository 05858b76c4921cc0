use plotlang::first_pass::{parse_usize, run, OperatorDef, OperatorKind, PrecedenceMap};
use plotlang::lexer::{tokenize, Token, TokenType, TokenValue};
use plotlang::parser::{Expr, ParseError, Parser};

fn s(x: &str) -> String {
    x.to_string()
}

fn str_tok(kind: TokenType, v: &str) -> Token {
    Token::new(kind, Some(TokenValue::Str(s(v))))
}

fn char_tok(kind: TokenType, c: char) -> Token {
    Token::new(kind, Some(TokenValue::Char(c)))
}

fn eof() -> Token {
    str_tok(TokenType::EOF, "EOF")
}

fn parse_source(src: &str) -> Result<Expr, ParseError> {
    let (tokens, precedence, defs) = run(tokenize(&s(src)));
    Parser::new(tokens, 0, precedence, defs).parse()
}

fn var(x: &str) -> Box<Expr> {
    Box::new(Expr::Variable(s(x)))
}

fn empty() -> Box<Expr> {
    Box::new(Expr::Block(vec![]))
}

#[test]
fn indentation_tokens() {
    assert_eq!(
        tokenize(&s("sweet £a {\n    £b\n}")),
        vec![
            str_tok(TokenType::If, "sweet"),
            str_tok(TokenType::Variable, "a"),
            char_tok(TokenType::LeftCurly, '{'),
            str_tok(TokenType::Newline, "\\n"),
            str_tok(TokenType::Indent, "INDENT"),
            str_tok(TokenType::Variable, "b"),
            str_tok(TokenType::Newline, "\\n"),
            str_tok(TokenType::Dedent, "DEDENT"),
            char_tok(TokenType::RightCurly, '}'),
            eof(),
        ]
    );
}

#[test]
fn tab_counts_four_and_dedents_pop_levels() {
    let tokens = tokenize(&s("£a\n\t£b\n  \t  £c\n£d"));
    let kinds: Vec<TokenType> = tokens.iter().map(|t| t._type).collect();
    assert_eq!(
        kinds,
        vec![
            TokenType::Variable,
            TokenType::Newline,
            TokenType::Indent,
            TokenType::Variable,
            TokenType::Newline,
            TokenType::Indent,
            TokenType::Variable,
            TokenType::Newline,
            TokenType::Dedent,
            TokenType::Dedent,
            TokenType::Variable,
            TokenType::EOF,
        ]
    );
}

#[test]
fn block_comment_is_two_tokens() {
    assert_eq!(
        tokenize(&s("asia -> hidden <- asia £x")),
        vec![
            str_tok(TokenType::BlockCommentStart, " hidden "),
            Token::new(TokenType::BlockCommentEnd, None),
            str_tok(TokenType::Variable, "x"),
            eof(),
        ]
    );
    assert_eq!(parse_source("asia -> hidden <- asia £x"), Ok(Expr::Block(vec![Expr::Variable(s("x"))])));
}

#[test]
fn unterminated_block_comment_runs_to_end() {
    assert_eq!(
        tokenize(&s("asia -> forever")),
        vec![
            str_tok(TokenType::BlockCommentStart, " forever"),
            Token::new(TokenType::BlockCommentEnd, None),
            eof(),
        ]
    );
}

#[test]
fn keywords_need_no_word_boundary() {
    assert_eq!(
        tokenize(&s("sweetness")),
        vec![str_tok(TokenType::If, "sweet"), str_tok(TokenType::String, "ness"), eof()]
    );
}

#[test]
fn sigils_and_words() {
    assert_eq!(
        tokenize(&s("€cash_1 $ abc+def £")),
        vec![
            str_tok(TokenType::Variable, "cash_1"),
            str_tok(TokenType::Const, ""),
            str_tok(TokenType::String, "abc"),
            str_tok(TokenType::BinaryOperator, "+"),
            str_tok(TokenType::String, "def"),
            str_tok(TokenType::Variable, ""),
            eof(),
        ]
    );
}

#[test]
fn operator_characters_join() {
    assert_eq!(
        tokenize(&s("£a >= £b ≥≤ £c")),
        vec![
            str_tok(TokenType::Variable, "a"),
            str_tok(TokenType::BinaryOperator, ">="),
            str_tok(TokenType::Variable, "b"),
            str_tok(TokenType::BinaryOperator, "≥≤"),
            str_tok(TokenType::Variable, "c"),
            eof(),
        ]
    );
}

#[test]
fn punctuation_tokens() {
    assert_eq!(
        tokenize(&s("(){},")),
        vec![
            char_tok(TokenType::LeftParen, '('),
            char_tok(TokenType::RightParen, ')'),
            char_tok(TokenType::LeftCurly, '{'),
            char_tok(TokenType::RightCurly, '}'),
            char_tok(TokenType::Comma, ','),
            eof(),
        ]
    );
}

#[test]
fn reads_decimal_numbers() {
    assert_eq!(parse_usize(&s("42")), Some(42));
    assert_eq!(parse_usize(&s("+7")), Some(7));
    assert_eq!(parse_usize(&s("007")), Some(7));
    assert_eq!(parse_usize(&s("")), None);
    assert_eq!(parse_usize(&s("+")), None);
    assert_eq!(parse_usize(&s("-1")), None);
    assert_eq!(parse_usize(&s("1a")), None);
    assert_eq!(parse_usize(&s("99999999999999999999999999")), None);
    assert_eq!(parse_usize(&usize::MAX.to_string()), Some(usize::MAX));
}

#[test]
fn definition_without_metadata_uses_defaults() {
    let src = "I would love to own a plot of land in the 1800s called ** and lease it to owners";
    let (tokens, precedence, defs) = run(tokenize(&s(src)));
    assert_eq!(tokens, vec![eof()]);
    assert_eq!(defs, vec![OperatorDef { op: s("**"), func: None, precedence: 0, kind: OperatorKind::Binary }]);
    assert_eq!(precedence.get("**"), Some(0));
}

#[test]
fn metadata_kind_names_ignore_case() {
    let def = |meta: &str| {
        let src = format!("I would love to own a plot of land in the 1800s called => and lease it to {} owners", meta);
        run(tokenize(&src)).2
    };
    assert_eq!(def("{ f, 1, PostFix }")[0].kind, OperatorKind::Postfix);
    assert_eq!(def("{ f, 1, UNARY }")[0].kind, OperatorKind::Postfix);
    assert_eq!(def("{ f, 1, Prefix }")[0].kind, OperatorKind::Prefix);
    assert_eq!(def("{ f, 1, weird }")[0].kind, OperatorKind::Binary);
    assert_eq!(def("{ f, x9, binary }")[0].precedence, 0);
    assert_eq!(def("{ f 3 prefix }")[0].precedence, 3);
}

#[test]
fn malformed_definition_passes_through() {
    let src = "I would love to own a plot of land in the 1800s called ** and lease it to $A";
    let (tokens, _, defs) = run(tokenize(&s(src)));
    assert_eq!(defs, vec![]);
    assert_eq!(tokens.len(), 5);
}

#[test]
fn user_prefix_operator() {
    let src = "I would love to own a plot of land in the 1800s called -- and lease it to { neg, 3, prefix } owners\n-- £a";
    assert_eq!(
        parse_source(src),
        Ok(Expr::Block(vec![Expr::Unary { oper: var("a"), op: s("--") }]))
    );
}

#[test]
fn builtin_postfix_operator() {
    assert_eq!(
        parse_source("£a ++"),
        Ok(Expr::Block(vec![Expr::Unary { oper: var("a"), op: s("++") }]))
    );
}

#[test]
fn function_call_and_array() {
    assert_eq!(
        parse_source("print(£a, $B)"),
        Ok(Expr::Block(vec![Expr::Func {
            name: s("print"),
            args: vec![Expr::Variable(s("a")), Expr::Const(s("B"))],
        }]))
    );
    assert_eq!(
        parse_source("red, green, blue"),
        Ok(Expr::Block(vec![Expr::Array(vec![s("red"), s("green"), s("blue")])]))
    );
    assert_eq!(parse_source("word"), Ok(Expr::Block(vec![Expr::String(s("word"))])));
}

#[test]
fn if_else_try_yield_break() {
    assert_eq!(
        parse_source("sweet £a { £b } stout { £c }"),
        Ok(Expr::Block(vec![Expr::If {
            cond: var("a"),
            then: Box::new(Expr::Block(vec![Expr::Variable(s("b"))])),
            else_then: Box::new(Expr::Block(vec![Expr::Variable(s("c"))])),
        }]))
    );
    assert_eq!(
        parse_source("sir, would there happen to be any extension work? £a yay, homework! £b"),
        Ok(Expr::Block(vec![Expr::Try { attempt: var("a"), catch: var("b") }]))
    );
    assert_eq!(parse_source("anywho £x"), Ok(Expr::Block(vec![Expr::Yield(var("x"))])));
    assert_eq!(parse_source("jump off the bandwagon"), Ok(Expr::Block(vec![Expr::Break()])));
    assert_eq!(
        parse_source("(£n) yarp' { }"),
        Ok(Expr::Block(vec![Expr::While { cond: var("n"), then: empty(), else_then: empty() }]))
    );
}

#[test]
fn for_count_from_text_payload() {
    let tokens = vec![
        str_tok(TokenType::For, "4"),
        str_tok(TokenType::Variable, "i"),
        char_tok(TokenType::LeftCurly, '{'),
        char_tok(TokenType::RightCurly, '}'),
    ];
    let mut parser = Parser::new(tokens, 0, PrecedenceMap::new(), vec![]);
    assert_eq!(
        parser.parse(),
        Ok(Expr::Block(vec![Expr::For { iter: 4, var: s("i"), then: empty(), else_then: empty() }]))
    );
    assert_eq!(parser.position(), 4);
}

#[test]
fn parse_errors() {
    assert_eq!(parse_source("£a\n  £b"), Err(ParseError { pos: 2, found: Some(TokenType::Indent) }));
    assert_eq!(parse_source("(£a"), Err(ParseError { pos: 2, found: Some(TokenType::EOF) }));
    assert_eq!(parse_source("£a +"), Err(ParseError { pos: 2, found: Some(TokenType::EOF) }));
    assert_eq!(parse_source("stout"), Err(ParseError { pos: 0, found: Some(TokenType::Else) }));
    assert_eq!(
        parse_source("I would love to own a plot of land in the 1800s called word and lease it to $A owners"),
        Err(ParseError { pos: 1, found: Some(TokenType::String) })
    );
    let tokens = vec![str_tok(TokenType::Variable, "a"), str_tok(TokenType::BinaryOperator, "+")];
    let mut parser = Parser::new(tokens, 0, PrecedenceMap::new(), vec![]);
    assert_eq!(parser.parse(), Err(ParseError { pos: 2, found: None }));
    assert_eq!(parser.position(), 0);
}

#[test]
fn parse_stops_at_eof() {
    let (tokens, precedence, defs) = run(tokenize(&s("£a\n£b")));
    let mut parser = Parser::new(tokens, 0, precedence, defs);
    assert_eq!(
        parser.parse(),
        Ok(Expr::Block(vec![Expr::Variable(s("a")), Expr::Variable(s("b"))]))
    );
    assert_eq!(parser.position(), 3);
}

#[test]
fn precedence_map_operations() {
    let mut m = PrecedenceMap::new();
    assert_eq!(m.get("+"), None);
    m.insert(s("+"), 3);
    m.insert(s("-"), 1);
    m.insert(s("+"), 8);
    assert_eq!(m.get("+"), Some(8));
    assert_eq!(m.get("-"), Some(1));
}

#[test]
fn token_descriptions() {
    assert_eq!(Token::new(TokenType::For, Some(TokenValue::Num(120))).describe(), "Type: For, Value: 120");
    assert_eq!(Token::new(TokenType::For, Some(TokenValue::Num(0))).describe(), "Type: For, Value: 0");
    assert_eq!(str_tok(TokenType::Variable, "x").describe(), "Type: Variable, Value: x");
    assert_eq!(char_tok(TokenType::Comma, ',').describe(), "Type: Comma, Value: ,");
    assert_eq!(
        Token::new(TokenType::BlockCommentEnd, None).describe(),
        "Type: BlockCommentEnd, Value: None"
    );
    assert_eq!(TokenType::BinaryOperator.name(), "BinaryOperator");
}
