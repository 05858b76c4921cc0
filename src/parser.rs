use vstd::prelude::*;

use crate::first_pass::{
    OperatorDef, OperatorDefModel, OperatorKind, PrecedenceMap, defs_model, parse_decimal,
    opt_text, parse_usize, text_of, token_text,
};
use crate::lexer::{Token, TokenModel, TokenType, TokenValue, ValueModel, tokens_model};

verus! {

/// The abstract syntax tree.
#[derive(Debug, PartialEq, Eq)]
pub enum Expr {
    String(String),
    Array(Vec<String>),
    Variable(String),
    Const(String),
    Binary { left: Box<Expr>, op: String, right: Box<Expr> },
    Unary { oper: Box<Expr>, op: String },
    Func { name: String, args: Vec<Expr> },
    If { cond: Box<Expr>, then: Box<Expr>, else_then: Box<Expr> },
    While { cond: Box<Expr>, then: Box<Expr>, else_then: Box<Expr> },
    For { iter: usize, var: String, then: Box<Expr>, else_then: Box<Expr> },
    Define { var: String, val: Box<Expr> },
    Try { attempt: Box<Expr>, catch: Box<Expr> },
    Yield(Box<Expr>),
    Break(),
    Block(Vec<Expr>),
}

/// Mathematical model of a syntax tree.
pub enum Ast {
    String(Seq<char>),
    Array(Seq<Seq<char>>),
    Variable(Seq<char>),
    Const(Seq<char>),
    Binary { left: Box<Ast>, op: Seq<char>, right: Box<Ast> },
    Unary { oper: Box<Ast>, op: Seq<char> },
    Func { name: Seq<char>, args: Seq<Ast> },
    If { cond: Box<Ast>, then: Box<Ast>, else_then: Box<Ast> },
    While { cond: Box<Ast>, then: Box<Ast>, else_then: Box<Ast> },
    For { iter: nat, var: Seq<char>, then: Box<Ast>, else_then: Box<Ast> },
    Define { var: Seq<char>, val: Box<Ast> },
    Try { attempt: Box<Ast>, catch: Box<Ast> },
    Yield(Box<Ast>),
    Break,
    Block(Seq<Ast>),
}

impl Expr {
    /// The model of this tree.
    pub open spec fn model(&self) -> Ast
        decreases self,
    {
        match self {
            Expr::String(s) => Ast::String(s@),
            Expr::Array(v) => Ast::Array(v@.map_values(|s: String| s@)),
            Expr::Variable(s) => Ast::Variable(s@),
            Expr::Const(s) => Ast::Const(s@),
            Expr::Binary { left, op, right } => Ast::Binary {
                left: Box::new(left.model()),
                op: op@,
                right: Box::new(right.model()),
            },
            Expr::Unary { oper, op } => Ast::Unary { oper: Box::new(oper.model()), op: op@ },
            Expr::Func { name, args } => Ast::Func {
                name: name@,
                args: Seq::new(args.len() as nat, |i: int| if 0 <= i < args.len() {
                    args[i].model()
                } else {
                    Ast::Break
                }),
            },
            Expr::If { cond, then, else_then } => Ast::If {
                cond: Box::new(cond.model()),
                then: Box::new(then.model()),
                else_then: Box::new(else_then.model()),
            },
            Expr::While { cond, then, else_then } => Ast::While {
                cond: Box::new(cond.model()),
                then: Box::new(then.model()),
                else_then: Box::new(else_then.model()),
            },
            Expr::For { iter, var, then, else_then } => Ast::For {
                iter: *iter as nat,
                var: var@,
                then: Box::new(then.model()),
                else_then: Box::new(else_then.model()),
            },
            Expr::Define { var, val } => Ast::Define { var: var@, val: Box::new(val.model()) },
            Expr::Try { attempt, catch } => Ast::Try {
                attempt: Box::new(attempt.model()),
                catch: Box::new(catch.model()),
            },
            Expr::Yield(e) => Ast::Yield(Box::new(e.model())),
            Expr::Break() => Ast::Break,
            Expr::Block(v) => Ast::Block(Seq::new(v.len() as nat, |i: int| if 0 <= i < v.len() {
                v[i].model()
            } else {
                Ast::Break
            })),
        }
    }
}

/// Why parsing stopped: the offset of the offending token, and its kind (`None` at
/// the end of the input).
#[derive(Debug, Clone, Copy, PartialEq, Eq, Structural)]
pub struct ParseError {
    pub pos: usize,
    pub found: Option<TokenType>,
}

/// What the parser reads: the tokens, the starting offset and its operator tables.
pub struct ParserModel {
    pub tokens: Seq<TokenModel>,
    pub pos: int,
    pub precedence: Map<Seq<char>, nat>,
    pub prefix: Seq<Seq<char>>,
    pub postfix: Seq<Seq<char>>,
}

/// The outcome of parsing one production: a tree and the offset after it.
pub type Parsed = Result<(Ast, int), ParseError>;

/// The outcome of parsing a list: the items and the offset after it.
pub type ParsedList<T> = Result<(Seq<T>, int), ParseError>;

pub open spec fn empty_block() -> Ast {
    Ast::Block(seq![])
}

pub open spec fn kind_is(m: ParserModel, p: int, k: TokenType) -> bool {
    0 <= p < m.tokens.len() && m.tokens[p].kind == k
}

pub open spec fn kind_at(m: ParserModel, p: int) -> Option<TokenType> {
    if 0 <= p < m.tokens.len() {
        Some(m.tokens[p].kind)
    } else {
        None
    }
}

/// The error reported for the token at `p`.
pub open spec fn error_at(m: ParserModel, p: int) -> ParseError {
    ParseError { pos: p as usize, found: kind_at(m, p) }
}

/// `q` lies after `p` and within the input.
pub open spec fn advanced(m: ParserModel, p: int, q: int) -> bool {
    p < q <= m.tokens.len()
}

/// The operator symbol of an operator token.
pub open spec fn op_symbol(t: TokenModel) -> Option<Seq<char>> {
    if t.kind == TokenType::BinaryOperator {
        match t.value {
            Some(ValueModel::Str(s)) => Some(s),
            Some(ValueModel::Char(c)) => Some(seq![c]),
            _ => None,
        }
    } else {
        None
    }
}

/// The precedence of a symbol; 0 for symbols that have none.
pub open spec fn precedence_of(m: ParserModel, s: Seq<char>) -> nat {
    if m.precedence.contains_key(s) {
        m.precedence[s]
    } else {
        0
    }
}

/// The token at `p` is an operator that stands in postfix position.
pub open spec fn is_postfix_op(m: ParserModel, p: int) -> bool {
    0 <= p < m.tokens.len() && op_symbol(m.tokens[p]) is Some && m.postfix.contains(
        op_symbol(m.tokens[p])->0,
    )
}

/// The token at `p` is an operator that stands in prefix position.
pub open spec fn is_prefix_op(m: ParserModel, p: int) -> bool {
    0 <= p < m.tokens.len() && op_symbol(m.tokens[p]) is Some && m.prefix.contains(
        op_symbol(m.tokens[p])->0,
    )
}

/// An expression at `p`.
pub open spec fn expr(m: ParserModel, p: int) -> Parsed
    decreases m.tokens.len() - p, 4nat,
{
    binary(m, p, 0int)
}

/// A binary expression at `p` whose operators all have precedence at least `min`.
pub open spec fn binary(m: ParserModel, p: int, min: int) -> Parsed
    decreases m.tokens.len() - p, 3nat,
{
    match prefix(m, p) {
        Ok((left, q)) => if advanced(m, p, q) {
            binary_rest(m, left, q, min)
        } else {
            Ok((left, q))
        },
        Err(e) => Err(e),
    }
}

/// Continues a binary expression whose left operand `left` ends before `p`.
pub open spec fn binary_rest(m: ParserModel, left: Ast, p: int, min: int) -> Parsed
    decreases m.tokens.len() - p, 3nat,
{
    if !kind_is(m, p, TokenType::BinaryOperator) || is_postfix_op(m, p) {
        Ok((left, p))
    } else {
        match text_of(m.tokens[p]) {
            None => Err(error_at(m, p)),
            Some(op) => {
                let prec = precedence_of(m, op);
                if prec < min {
                    Ok((left, p))
                } else {
                    match binary(m, p + 1, prec + 1 as int) {
                        Ok((right, q)) => {
                            let node = Ast::Binary {
                                left: Box::new(left),
                                op,
                                right: Box::new(right),
                            };
                            if advanced(m, p, q) {
                                binary_rest(m, node, q, min)
                            } else {
                                Ok((node, q))
                            }
                        },
                        Err(e) => Err(e),
                    }
                }
            },
        }
    }
}

/// A prefix expression at `p`.
pub open spec fn prefix(m: ParserModel, p: int) -> Parsed
    decreases m.tokens.len() - p, 2nat,
{
    if is_prefix_op(m, p) {
        match prefix(m, p + 1) {
            Ok((e, q)) => Ok((Ast::Unary { oper: Box::new(e), op: op_symbol(m.tokens[p])->0 }, q)),
            Err(e) => Err(e),
        }
    } else {
        postfix(m, p)
    }
}

/// A primary expression at `p` followed by its postfix operators and loops.
pub open spec fn postfix(m: ParserModel, p: int) -> Parsed
    decreases m.tokens.len() - p, 1nat,
{
    match primary(m, p) {
        Ok((e, q)) => if advanced(m, p, q) {
            postfix_rest(m, e, q)
        } else {
            Ok((e, q))
        },
        Err(e) => Err(e),
    }
}

/// Applies the postfix operators and `while` loops that follow `e` from `p` on.
pub open spec fn postfix_rest(m: ParserModel, e: Ast, p: int) -> Parsed
    decreases m.tokens.len() - p, 1nat,
{
    if kind_is(m, p, TokenType::BinaryOperator) {
        if is_postfix_op(m, p) {
            postfix_rest(m, Ast::Unary { oper: Box::new(e), op: op_symbol(m.tokens[p])->0 }, p + 1)
        } else {
            Ok((e, p))
        }
    } else if kind_is(m, p, TokenType::While) {
        if !kind_is(m, p + 1, TokenType::LeftCurly) {
            Err(error_at(m, p + 1))
        } else {
            match block(m, p + 2) {
                Ok((body, q)) => {
                    let node = Ast::While {
                        cond: Box::new(e),
                        then: Box::new(body),
                        else_then: Box::new(empty_block()),
                    };
                    if advanced(m, p, q) {
                        postfix_rest(m, node, q)
                    } else {
                        Ok((node, q))
                    }
                },
                Err(x) => Err(x),
            }
        }
    } else {
        Ok((e, p))
    }
}

/// Wraps the result of `r` with `f` when it succeeded.
pub open spec fn map_parsed(r: Parsed, f: spec_fn(Ast) -> Ast) -> Parsed {
    match r {
        Ok((e, q)) => Ok((f(e), q)),
        Err(x) => Err(x),
    }
}

/// A primary expression at `p`.
pub open spec fn primary(m: ParserModel, p: int) -> Parsed
    decreases m.tokens.len() - p, 0nat,
{
    if !(0 <= p < m.tokens.len()) {
        Err(error_at(m, p))
    } else {
        let t = m.tokens[p];
        match t.kind {
            TokenType::Const => match text_of(t) {
                Some(s) => Ok((Ast::Const(s), p + 1)),
                None => Err(error_at(m, p)),
            },
            TokenType::Variable => match text_of(t) {
                Some(s) => Ok((Ast::Variable(s), p + 1)),
                None => Err(error_at(m, p)),
            },
            TokenType::String => match text_of(t) {
                Some(s) => if kind_is(m, p + 1, TokenType::LeftParen) {
                    match call_args(m, p + 2, seq![]) {
                        Ok((args, q)) => Ok((Ast::Func { name: s, args }, q)),
                        Err(x) => Err(x),
                    }
                } else if kind_is(m, p + 1, TokenType::Comma) {
                    match array_items(m, p + 1, seq![s]) {
                        Ok((items, q)) => Ok((Ast::Array(items), q)),
                        Err(x) => Err(x),
                    }
                } else {
                    Ok((Ast::String(s), p + 1))
                },
                None => Err(error_at(m, p)),
            },
            TokenType::If => if_rest(m, p + 1),
            TokenType::For => for_rest(m, p + 1),
            TokenType::Try => try_rest(m, p + 1),
            TokenType::Yield => map_parsed(expr(m, p + 1), |e: Ast| Ast::Yield(Box::new(e))),
            TokenType::Break => Ok((Ast::Break, p + 1)),
            TokenType::LeftParen => match expr(m, p + 1) {
                Ok((e, q)) => if kind_is(m, q, TokenType::RightParen) {
                    Ok((e, q + 1))
                } else {
                    Err(error_at(m, q))
                },
                Err(x) => Err(x),
            },
            TokenType::LeftCurly => block(m, p + 1),
            TokenType::Define => define_rest(m, p + 1),
            _ => Err(error_at(m, p)),
        }
    }
}

/// The arguments of a call from `p` on, up to and including the closing `)`.
pub open spec fn call_args(m: ParserModel, p: int, acc: Seq<Ast>) -> ParsedList<Ast>
    decreases m.tokens.len() - p, 5nat,
{
    if !(0 <= p < m.tokens.len()) {
        Err(error_at(m, p))
    } else if m.tokens[p].kind == TokenType::RightParen {
        Ok((acc, p + 1))
    } else if m.tokens[p].kind == TokenType::Comma {
        call_args(m, p + 1, acc)
    } else {
        match expr(m, p) {
            Ok((e, q)) => if advanced(m, p, q) {
                call_args(m, q, acc.push(e))
            } else {
                Ok((acc.push(e), q))
            },
            Err(x) => Err(x),
        }
    }
}

/// The further items of an array literal: each a comma and a word.
pub open spec fn array_items(m: ParserModel, p: int, acc: Seq<Seq<char>>) -> ParsedList<Seq<char>>
    decreases m.tokens.len() - p,
{
    if !(0 <= p < m.tokens.len()) {
        Err(error_at(m, p))
    } else if m.tokens[p].kind == TokenType::Comma {
        if kind_is(m, p + 1, TokenType::String) && text_of(m.tokens[p + 1]) is Some {
            array_items(m, p + 2, acc.push(text_of(m.tokens[p + 1])->0))
        } else {
            Err(error_at(m, p + 1))
        }
    } else {
        Ok((acc, p))
    }
}

/// The rest of an `if` from its condition at `p` on.
pub open spec fn if_rest(m: ParserModel, p: int) -> Parsed
    decreases m.tokens.len() - p, 5nat,
{
    match expr(m, p) {
        Ok((cond, q)) => if !advanced(m, p, q) || !kind_is(m, q, TokenType::LeftCurly) {
            Err(error_at(m, q))
        } else {
            match block(m, q + 1) {
                Ok((then, r)) => if !advanced(m, q, r) {
                    Err(error_at(m, r))
                } else if kind_is(m, r, TokenType::Else) {
                    if kind_is(m, r + 1, TokenType::LeftCurly) {
                        match block(m, r + 2) {
                            Ok((else_then, u)) => Ok(
                                (
                                    Ast::If {
                                        cond: Box::new(cond),
                                        then: Box::new(then),
                                        else_then: Box::new(else_then),
                                    },
                                    u,
                                ),
                            ),
                            Err(x) => Err(x),
                        }
                    } else {
                        Err(error_at(m, r + 1))
                    }
                } else {
                    Ok(
                        (
                            Ast::If {
                                cond: Box::new(cond),
                                then: Box::new(then),
                                else_then: Box::new(empty_block()),
                            },
                            r,
                        ),
                    )
                },
                Err(x) => Err(x),
            }
        },
        Err(x) => Err(x),
    }
}

/// The repetition count a `for` token carries.
pub open spec fn iteration_count(t: TokenModel) -> Option<nat> {
    match t.value {
        Some(ValueModel::Num(n)) => Some(n),
        Some(ValueModel::Str(s)) => parse_decimal(s),
        _ => None,
    }
}

/// The rest of a `for` whose keyword stands at `p - 1`.
pub open spec fn for_rest(m: ParserModel, p: int) -> Parsed
    decreases m.tokens.len() - p, 5nat,
{
    if !(1 <= p <= m.tokens.len()) {
        Err(error_at(m, p))
    } else {
        match iteration_count(m.tokens[p - 1]) {
            None => Err(error_at(m, p - 1)),
            Some(n) => if !kind_is(m, p, TokenType::Variable) || text_of(m.tokens[p]) is None {
                Err(error_at(m, p))
            } else if !kind_is(m, p + 1, TokenType::LeftCurly) {
                Err(error_at(m, p + 1))
            } else {
                match block(m, p + 2) {
                    Ok((body, q)) => Ok(
                        (
                            Ast::For {
                                iter: n,
                                var: text_of(m.tokens[p])->0,
                                then: Box::new(body),
                                else_then: Box::new(empty_block()),
                            },
                            q,
                        ),
                    ),
                    Err(x) => Err(x),
                }
            },
        }
    }
}

/// The rest of a `try` from its attempt at `p` on.
pub open spec fn try_rest(m: ParserModel, p: int) -> Parsed
    decreases m.tokens.len() - p, 5nat,
{
    match expr(m, p) {
        Ok((attempt, q)) => if !advanced(m, p, q) || !kind_is(m, q, TokenType::Catch) {
            Err(error_at(m, q))
        } else {
            match expr(m, q + 1) {
                Ok((catch, r)) => Ok(
                    (Ast::Try { attempt: Box::new(attempt), catch: Box::new(catch) }, r),
                ),
                Err(x) => Err(x),
            }
        },
        Err(x) => Err(x),
    }
}

/// The rest of a variable definition from its name at `p` on.
pub open spec fn define_rest(m: ParserModel, p: int) -> Parsed
    decreases m.tokens.len() - p, 5nat,
{
    if !(kind_is(m, p, TokenType::Variable) || kind_is(m, p, TokenType::Const)) || text_of(
        m.tokens[p],
    ) is None {
        Err(error_at(m, p))
    } else if !kind_is(m, p + 1, TokenType::Assign) {
        Err(error_at(m, p + 1))
    } else {
        match expr(m, p + 2) {
            Ok((val, q)) => if kind_is(m, q, TokenType::EndOfAssign) {
                Ok((Ast::Define { var: text_of(m.tokens[p])->0, val: Box::new(val) }, q + 1))
            } else {
                Err(error_at(m, q))
            },
            Err(x) => Err(x),
        }
    }
}

/// A block body from `p` on (just after its `{`), up to and including its `}`.
pub open spec fn block(m: ParserModel, p: int) -> Parsed
    decreases m.tokens.len() - p, 6nat,
{
    if kind_is(m, p, TokenType::RightCurly) {
        Ok((empty_block(), p + 1))
    } else if 0 <= p < m.tokens.len() && m.tokens[p].kind != TokenType::Newline {
        match expr(m, p) {
            Ok((e, q)) => if kind_is(m, q, TokenType::RightCurly) {
                Ok((Ast::Block(seq![e]), q + 1))
            } else {
                Err(error_at(m, q))
            },
            Err(x) => Err(x),
        }
    } else if !kind_is(m, p, TokenType::Newline) {
        Err(error_at(m, p))
    } else if !kind_is(m, p + 1, TokenType::Indent) {
        Err(error_at(m, p + 1))
    } else {
        block_items(m, p + 2, seq![])
    }
}

/// The lines of an indented block from `p` on, up to and including its `}`.
pub open spec fn block_items(m: ParserModel, p: int, acc: Seq<Ast>) -> Parsed
    decreases m.tokens.len() - p, 5nat,
{
    if !(0 <= p < m.tokens.len()) {
        Err(error_at(m, p))
    } else if m.tokens[p].kind == TokenType::Dedent {
        let q = if kind_is(m, p + 1, TokenType::Newline) {
            p + 2
        } else {
            p + 1
        };
        if kind_is(m, q, TokenType::RightCurly) {
            Ok((Ast::Block(acc), q + 1))
        } else {
            Err(error_at(m, q))
        }
    } else if m.tokens[p].kind == TokenType::Newline {
        block_items(m, p + 1, acc)
    } else {
        match expr(m, p) {
            Ok((e, q)) => if advanced(m, p, q) {
                block_items(m, q, acc.push(e))
            } else {
                Err(error_at(m, q))
            },
            Err(x) => Err(x),
        }
    }
}

/// The top level from `p` on: expressions up to `EOF` or the end of the input.
pub open spec fn program(m: ParserModel, p: int, acc: Seq<Ast>) -> Parsed
    decreases m.tokens.len() - p, 5nat,
{
    if !(0 <= p < m.tokens.len()) || m.tokens[p].kind == TokenType::EOF {
        Ok((Ast::Block(acc), p))
    } else {
        let k = m.tokens[p].kind;
        if k == TokenType::Newline || k == TokenType::Comment || k == TokenType::BlockCommentStart
            || k == TokenType::BlockCommentEnd {
            program(m, p + 1, acc)
        } else if k == TokenType::Indent || k == TokenType::Dedent {
            Err(error_at(m, p))
        } else {
            match expr(m, p) {
                Ok((e, q)) => if advanced(m, p, q) {
                    program(m, q, acc.push(e))
                } else {
                    Err(error_at(m, q))
                },
                Err(x) => Err(x),
            }
        }
    }
}

// ---------------------------------------------------------------------------
// The parser

/// The symbols of the definitions of kind `k`, in order.
pub open spec fn ops_of_kind(defs: Seq<OperatorDefModel>, k: OperatorKind) -> Seq<Seq<char>>
    decreases defs.len(),
{
    if defs.len() == 0 {
        seq![]
    } else if defs.last().kind == k {
        ops_of_kind(defs.drop_last(), k).push(defs.last().op)
    } else {
        ops_of_kind(defs.drop_last(), k)
    }
}

pub open spec fn strings_model(v: Seq<String>) -> Seq<Seq<char>> {
    v.map_values(|s: String| s@)
}

pub open spec fn exprs_model(v: Seq<Expr>) -> Seq<Ast> {
    Seq::new(v.len(), |i: int| v[i].model())
}

/// The model of an executable parse result.
pub open spec fn parsed_model(r: Result<(Expr, usize), ParseError>) -> Parsed {
    match r {
        Ok((e, q)) => Ok((e.model(), q as int)),
        Err(x) => Err(x),
    }
}

/// A successful result ends after `p` and within the input.
pub open spec fn moved_on(r: Result<(Expr, usize), ParseError>, p: int, len: int) -> bool {
    r matches Ok((_, q)) ==> p < q <= len
}

/// A Pratt parser over a token sequence, with its operator tables.
pub struct Parser {
    tokens: Vec<Token>,
    pos: usize,
    precedence_map: PrecedenceMap,
    prefix_ops: Vec<String>,
    postfix_ops: Vec<String>,
}

impl View for Parser {
    type V = ParserModel;

    closed spec fn view(&self) -> ParserModel {
        ParserModel {
            tokens: tokens_model(self.tokens@),
            pos: self.pos as int,
            precedence: self.precedence_map@,
            prefix: strings_model(self.prefix_ops@),
            postfix: strings_model(self.postfix_ops@),
        }
    }
}

proof fn lemma_block_model(v: Vec<Expr>)
    ensures
        Expr::Block(v).model() == Ast::Block(exprs_model(v@)),
{
    let b = Expr::Block(v).model();
    if let Ast::Block(s) = b {
        assert(s =~= exprs_model(v@));
    }
}

proof fn lemma_func_model(v: Vec<Expr>, name: String)
    ensures
        (Expr::Func { name, args: v }).model() == (Ast::Func { name: name@, args: exprs_model(v@) }),
{
    let f = (Expr::Func { name, args: v }).model();
    if let Ast::Func { name: _, args } = f {
        assert(args =~= exprs_model(v@));
    }
}

fn empty_block_expr() -> (r: Expr)
    ensures
        r.model() == empty_block(),
{
    let v: Vec<Expr> = Vec::new();
    proof {
        lemma_block_model(v);
        assert(exprs_model(v@) =~= seq![]);
    }
    Expr::Block(v)
}

fn push_string(v: &mut Vec<String>, s: String)
    ensures
        strings_model(final(v)@) == strings_model(old(v)@).push(s@),
{
    v.push(s);
    proof {
        assert(strings_model(v@) =~= strings_model(old(v)@).push(s@));
    }
}

fn contains_op(v: &Vec<String>, s: &String) -> (r: bool)
    ensures
        r == strings_model(v@).contains(s@),
{
    let mut k: usize = 0;
    while k < v.len()
        invariant
            k <= v.len(),
            forall|m: int| 0 <= m < k ==> (#[trigger] v@[m])@ != s@,
        decreases v.len() - k,
    {
        if v[k] == *s {
            proof {
                assert(strings_model(v@)[k as int] == s@);
            }
            return true;
        }
        k = k + 1;
    }
    proof {
        if strings_model(v@).contains(s@) {
            let m = choose|m: int| 0 <= m < strings_model(v@).len() && strings_model(v@)[m] == s@;
            assert(v@[m]@ == s@);
        }
    }
    false
}

fn token_op(t: &Token) -> (r: Option<String>)
    ensures
        opt_text(r) == op_symbol(t@),
{
    if t._type != TokenType::BinaryOperator {
        return None;
    }
    match &t.value {
        Some(TokenValue::Str(s)) => Some(s.clone()),
        Some(TokenValue::Char(c)) => {
            let mut s = String::new();
            s.push(*c);
            proof {
                assert(s@ =~= seq![*c]);
            }
            Some(s)
        },
        _ => None,
    }
}

impl Parser {
    /// A parser over `tokens` from offset `pos`, with the given precedences and the
    /// prefix and postfix operators among `operator_defs` added to the built-in ones.
    pub fn new(
        tokens: Vec<Token>,
        pos: usize,
        precedence_map: PrecedenceMap,
        operator_defs: Vec<OperatorDef>,
    ) -> (r: Self)
        ensures
            r@ == (ParserModel {
                tokens: tokens_model(tokens@),
                pos: pos as int,
                precedence: precedence_map@,
                prefix: seq!["!"@, "?"@] + ops_of_kind(defs_model(operator_defs@), OperatorKind::Prefix),
                postfix: seq!["!"@, "?"@, "++"@] + ops_of_kind(
                    defs_model(operator_defs@),
                    OperatorKind::Postfix,
                ),
            }),
    {
        let mut prefix_ops: Vec<String> = Vec::new();
        push_string(&mut prefix_ops, String::from_str("!"));
        push_string(&mut prefix_ops, String::from_str("?"));
        let mut postfix_ops: Vec<String> = Vec::new();
        push_string(&mut postfix_ops, String::from_str("!"));
        push_string(&mut postfix_ops, String::from_str("?"));
        push_string(&mut postfix_ops, String::from_str("++"));
        let ghost dm = defs_model(operator_defs@);
        proof {
            assert(strings_model(prefix_ops@) =~= seq!["!"@, "?"@] + ops_of_kind(
                dm.take(0),
                OperatorKind::Prefix,
            ));
            assert(strings_model(postfix_ops@) =~= seq!["!"@, "?"@, "++"@] + ops_of_kind(
                dm.take(0),
                OperatorKind::Postfix,
            ));
        }
        let mut k: usize = 0;
        while k < operator_defs.len()
            invariant
                k <= operator_defs.len(),
                dm == defs_model(operator_defs@),
                strings_model(prefix_ops@) == seq!["!"@, "?"@] + ops_of_kind(
                    dm.take(k as int),
                    OperatorKind::Prefix,
                ),
                strings_model(postfix_ops@) == seq!["!"@, "?"@, "++"@] + ops_of_kind(
                    dm.take(k as int),
                    OperatorKind::Postfix,
                ),
            decreases operator_defs.len() - k,
        {
            let def = &operator_defs[k];
            let ghost pre0 = strings_model(prefix_ops@);
            let ghost post0 = strings_model(postfix_ops@);
            proof {
                assert(dm.take(k + 1).drop_last() =~= dm.take(k as int));
                assert(dm.take(k + 1).last() == def@);
            }
            match def.kind {
                OperatorKind::Prefix => {
                    push_string(&mut prefix_ops, def.op.clone());
                    proof {
                        assert(strings_model(prefix_ops@) =~= seq!["!"@, "?"@] + ops_of_kind(
                            dm.take(k + 1),
                            OperatorKind::Prefix,
                        ));
                    }
                },
                OperatorKind::Postfix => {
                    push_string(&mut postfix_ops, def.op.clone());
                    proof {
                        assert(strings_model(postfix_ops@) =~= seq!["!"@, "?"@, "++"@]
                            + ops_of_kind(dm.take(k + 1), OperatorKind::Postfix));
                    }
                },
                OperatorKind::Binary => {},
            }
            k = k + 1;
        }
        proof {
            assert(dm.take(k as int) =~= dm);
        }
        Parser { tokens, pos, precedence_map, prefix_ops, postfix_ops }
    }

    /// Whether `op` may stand in prefix position.
    pub fn has_prefix(&self, op: &str) -> (r: bool)
        ensures
            r == self@.prefix.contains(op@),
    {
        contains_op(&self.prefix_ops, &String::from_str(op))
    }

    /// Whether `op` may stand in postfix position.
    pub fn has_postfix(&self, op: &str) -> (r: bool)
        ensures
            r == self@.postfix.contains(op@),
    {
        contains_op(&self.postfix_ops, &String::from_str(op))
    }

    /// The offset of the next token to read.
    pub fn position(&self) -> (r: usize)
        ensures
            r as int == self@.pos,
    {
        self.pos
    }

    fn kind_of(&self, p: usize) -> (r: Option<TokenType>)
        ensures
            r == kind_at(self@, p as int),
            self@.tokens.len() == self.tokens.len(),
    {
        if p < self.tokens.len() {
            proof {
                assert(self@.tokens[p as int] == self.tokens@[p as int]@);
            }
            Some(self.tokens[p]._type)
        } else {
            None
        }
    }

    fn is_kind(&self, p: usize, k: TokenType) -> (r: bool)
        ensures
            r == kind_is(self@, p as int, k),
            self@.tokens.len() == self.tokens.len(),
    {
        match self.kind_of(p) {
            Some(x) => x == k,
            None => false,
        }
    }

    fn text_at(&self, p: usize) -> (r: Option<String>)
        requires
            p < self@.tokens.len(),
        ensures
            opt_text(r) == text_of(self@.tokens[p as int]),
    {
        proof {
            assert(self@.tokens[p as int] == self.tokens@[p as int]@);
        }
        token_text(&self.tokens[p])
    }

    fn error(&self, p: usize) -> (r: ParseError)
        ensures
            r == error_at(self@, p as int),
    {
        ParseError { pos: p, found: self.kind_of(p) }
    }

    /// The symbol of the operator at `p`, when it stands in the given table.
    fn op_in(&self, p: usize, postfix_table: bool) -> (r: Option<String>)
        ensures
            postfix_table ==> (r is Some <==> is_postfix_op(self@, p as int)),
            !postfix_table ==> (r is Some <==> is_prefix_op(self@, p as int)),
            r matches Some(s) ==> s@ == op_symbol(self@.tokens[p as int])->0,
            self@.tokens.len() == self.tokens.len(),
    {
        if p >= self.tokens.len() {
            return None;
        }
        proof {
            assert(self@.tokens[p as int] == self.tokens@[p as int]@);
        }
        match token_op(&self.tokens[p]) {
            Some(s) => {
                let found = if postfix_table {
                    contains_op(&self.postfix_ops, &s)
                } else {
                    contains_op(&self.prefix_ops, &s)
                };
                if found {
                    Some(s)
                } else {
                    None
                }
            },
            None => None,
        }
    }

    /// The precedence of `op`, 0 when it has none.
    fn precedence(&self, op: &String) -> (r: usize)
        ensures
            r as nat == precedence_of(self@, op@),
    {
        match self.precedence_map.get(op.as_str()) {
            Some(v) => v,
            None => 0,
        }
    }

    /// Parses the top level from the current offset: expressions up to `EOF`, with
    /// newlines and comments between them skipped. On success the offset moves to
    /// where parsing stopped; on failure the parser is left as it was.
    pub fn parse(&mut self) -> (r: Result<Expr, ParseError>)
        ensures
            match program(old(self)@, old(self)@.pos, seq![]) {
                Ok((a, q)) => r matches Ok(e) && e.model() == a && final(self)@ == (ParserModel {
                    pos: q,
                    ..old(self)@
                }),
                Err(x) => r == Err::<Expr, ParseError>(x) && final(self)@ == old(self)@,
            },
    {
        let ghost m = self@;
        let mut exprs: Vec<Expr> = Vec::new();
        let mut q = self.pos;
        proof {
            assert(exprs_model(exprs@) =~= seq![]);
        }
        while q < self.tokens.len()
            invariant
                m == self@,
                m == old(self)@,
                m.tokens.len() == self.tokens.len(),
                m.pos <= q,
                program(m, m.pos, seq![]) == program(m, q as int, exprs_model(exprs@)),
            decreases m.tokens.len() - q,
        {
            let kind = self.tokens[q]._type;
            proof {
                assert(m.tokens[q as int] == self.tokens@[q as int]@);
            }
            match kind {
                TokenType::EOF => {
                    proof {
                        lemma_block_model(exprs);
                    }
                    self.pos = q;
                    return Ok(Expr::Block(exprs));
                },
                TokenType::Newline | TokenType::Comment | TokenType::BlockCommentStart
                | TokenType::BlockCommentEnd => {
                    q = q + 1;
                },
                TokenType::Indent | TokenType::Dedent => {
                    return Err(self.error(q));
                },
                _ => {
                    let ghost a0 = exprs_model(exprs@);
                    let (e, r) = match self.parse_expr(q) {
                        Ok(x) => x,
                        Err(x) => return Err(x),
                    };
                    exprs.push(e);
                    proof {
                        assert(exprs_model(exprs@) =~= a0.push(e.model()));
                    }
                    q = r;
                },
            }
        }
        proof {
            lemma_block_model(exprs);
        }
        self.pos = q;
        Ok(Expr::Block(exprs))
    }

    fn parse_expr(&self, p: usize) -> (r: Result<(Expr, usize), ParseError>)
        requires
            p <= self@.tokens.len(),
        ensures
            parsed_model(r) == expr(self@, p as int),
            moved_on(r, p as int, self@.tokens.len() as int),
        decreases self@.tokens.len() - p, 4nat,
    {
        self.parse_binary(p, 0)
    }

    fn parse_binary(&self, p: usize, min: u128) -> (r: Result<(Expr, usize), ParseError>)
        requires
            p <= self@.tokens.len(),
        ensures
            parsed_model(r) == binary(self@, p as int, min as int),
            moved_on(r, p as int, self@.tokens.len() as int),
        decreases self@.tokens.len() - p, 3nat,
    {
        let ghost m = self@;
        let (mut left, mut q) = match self.parse_prefix(p) {
            Ok(x) => x,
            Err(e) => return Err(e),
        };
        while q < self.tokens.len()
            invariant
                m == self@,
                m.tokens.len() == self.tokens.len(),
                p < q <= m.tokens.len(),
                binary(m, p as int, min as int) == binary_rest(m, left.model(), q as int, min as int),
            decreases m.tokens.len() - q,
        {
            if !self.is_kind(q, TokenType::BinaryOperator) {
                return Ok((left, q));
            }
            if self.op_in(q, true).is_some() {
                return Ok((left, q));
            }
            let op = match self.text_at(q) {
                Some(s) => s,
                None => return Err(self.error(q)),
            };
            let prec = self.precedence(&op);
            if (prec as u128) < min {
                return Ok((left, q));
            }
            let (right, r) = match self.parse_binary(q + 1, prec as u128 + 1) {
                Ok(x) => x,
                Err(e) => return Err(e),
            };
            left = Expr::Binary { left: Box::new(left), op, right: Box::new(right) };
            q = r;
        }
        Ok((left, q))
    }

    fn parse_prefix(&self, p: usize) -> (r: Result<(Expr, usize), ParseError>)
        requires
            p <= self@.tokens.len(),
        ensures
            parsed_model(r) == prefix(self@, p as int),
            moved_on(r, p as int, self@.tokens.len() as int),
        decreases self@.tokens.len() - p, 2nat,
    {
        match self.op_in(p, false) {
            Some(op) => match self.parse_prefix(p + 1) {
                Ok((e, q)) => Ok((Expr::Unary { oper: Box::new(e), op }, q)),
                Err(x) => Err(x),
            },
            None => self.parse_postfix(p),
        }
    }

    fn parse_postfix(&self, p: usize) -> (r: Result<(Expr, usize), ParseError>)
        requires
            p <= self@.tokens.len(),
        ensures
            parsed_model(r) == postfix(self@, p as int),
            moved_on(r, p as int, self@.tokens.len() as int),
        decreases self@.tokens.len() - p, 1nat,
    {
        let ghost m = self@;
        let (mut e, mut q) = match self.parse_primary(p) {
            Ok(x) => x,
            Err(x) => return Err(x),
        };
        loop
            invariant
                m == self@,
                m.tokens.len() == self.tokens.len(),
                p < q <= m.tokens.len(),
                postfix(m, p as int) == postfix_rest(m, e.model(), q as int),
            decreases m.tokens.len() - q,
        {
            if self.is_kind(q, TokenType::BinaryOperator) {
                match self.op_in(q, true) {
                    Some(op) => {
                        e = Expr::Unary { oper: Box::new(e), op };
                        q = q + 1;
                    },
                    None => return Ok((e, q)),
                }
            } else if self.is_kind(q, TokenType::While) {
                if !self.is_kind(q + 1, TokenType::LeftCurly) {
                    return Err(self.error(q + 1));
                }
                let (body, r) = match self.parse_block(q + 2) {
                    Ok(x) => x,
                    Err(x) => return Err(x),
                };
                e = Expr::While {
                    cond: Box::new(e),
                    then: Box::new(body),
                    else_then: Box::new(empty_block_expr()),
                };
                q = r;
            } else {
                return Ok((e, q));
            }
        }
    }

    fn parse_primary(&self, p: usize) -> (r: Result<(Expr, usize), ParseError>)
        requires
            p <= self@.tokens.len(),
        ensures
            parsed_model(r) == primary(self@, p as int),
            moved_on(r, p as int, self@.tokens.len() as int),
        decreases self@.tokens.len() - p, 0nat,
    {
        let kind = match self.kind_of(p) {
            Some(k) => k,
            None => return Err(self.error(p)),
        };
        match kind {
            TokenType::Const => match self.text_at(p) {
                Some(s) => Ok((Expr::Const(s), p + 1)),
                None => Err(self.error(p)),
            },
            TokenType::Variable => match self.text_at(p) {
                Some(s) => Ok((Expr::Variable(s), p + 1)),
                None => Err(self.error(p)),
            },
            TokenType::String => match self.text_at(p) {
                Some(s) => if self.is_kind(p + 1, TokenType::LeftParen) {
                    match self.parse_call_args(p + 2) {
                        Ok((args, q)) => {
                            proof {
                                lemma_func_model(args, s);
                            }
                            Ok((Expr::Func { name: s, args }, q))
                        },
                        Err(x) => Err(x),
                    }
                } else if self.is_kind(p + 1, TokenType::Comma) {
                    match self.parse_array(p + 1, s) {
                        Ok((items, q)) => {
                            proof {
                                assert(items@.map_values(|x: String| x@) =~= strings_model(items@));
                            }
                            Ok((Expr::Array(items), q))
                        },
                        Err(x) => Err(x),
                    }
                } else {
                    Ok((Expr::String(s), p + 1))
                },
                None => Err(self.error(p)),
            },
            TokenType::If => self.parse_if(p + 1),
            TokenType::For => self.parse_for(p + 1),
            TokenType::Try => self.parse_try(p + 1),
            TokenType::Yield => self.parse_yield(p + 1),
            TokenType::Break => Ok((Expr::Break(), p + 1)),
            TokenType::LeftParen => match self.parse_expr(p + 1) {
                Ok((e, q)) => if self.is_kind(q, TokenType::RightParen) {
                    Ok((e, q + 1))
                } else {
                    Err(self.error(q))
                },
                Err(x) => Err(x),
            },
            TokenType::LeftCurly => self.parse_block(p + 1),
            TokenType::Define => self.parse_define(p + 1),
            _ => Err(self.error(p)),
        }
    }

    /// The arguments of a call from `p` on, up to and including the closing `)`.
    fn parse_call_args(&self, p: usize) -> (r: Result<(Vec<Expr>, usize), ParseError>)
        requires
            p <= self@.tokens.len(),
        ensures
            match r {
                Ok((args, q)) => call_args(self@, p as int, seq![]) == Ok::<(Seq<Ast>, int), ParseError>((exprs_model(args@), q as int))
                    && p < q <= self@.tokens.len(),
                Err(x) => call_args(self@, p as int, seq![]) == Err::<(Seq<Ast>, int), ParseError>(x),
            },
        decreases self@.tokens.len() - p, 5nat,
    {
        let ghost m = self@;
        let mut args: Vec<Expr> = Vec::new();
        let mut q = p;
        proof {
            assert(exprs_model(args@) =~= seq![]);
        }
        while q < self.tokens.len()
            invariant
                m == self@,
                p <= q <= m.tokens.len(),
                call_args(m, p as int, seq![]) == call_args(m, q as int, exprs_model(args@)),
            decreases m.tokens.len() - q,
        {
            if self.is_kind(q, TokenType::RightParen) {
                return Ok((args, q + 1));
            }
            if self.is_kind(q, TokenType::Comma) {
                q = q + 1;
            } else {
                let ghost a0 = exprs_model(args@);
                let (e, r) = match self.parse_expr(q) {
                    Ok(x) => x,
                    Err(x) => return Err(x),
                };
                args.push(e);
                proof {
                    assert(exprs_model(args@) =~= a0.push(e.model()));
                }
                q = r;
            }
        }
        Err(self.error(q))
    }

    /// An array literal whose first word `first` stands just before `p`.
    fn parse_array(&self, p: usize, first: String) -> (r: Result<(Vec<String>, usize), ParseError>)
        requires
            1 <= p <= self@.tokens.len(),
        ensures
            match r {
                Ok((items, q)) => array_items(self@, p as int, seq![first@]) == Ok::<(Seq<Seq<char>>, int), ParseError>((strings_model(items@), q as int))
                    && p <= q <= self@.tokens.len(),
                Err(x) => array_items(self@, p as int, seq![first@]) == Err::<(Seq<Seq<char>>, int), ParseError>(x),
            },
    {
        let ghost m = self@;
        let mut items: Vec<String> = Vec::new();
        push_string(&mut items, first);
        proof {
            assert(strings_model(items@) =~= seq![first@]);
        }
        let mut q = p;
        while q < self.tokens.len()
            invariant
                m == self@,
                p <= q <= m.tokens.len(),
                array_items(m, p as int, seq![first@]) == array_items(m, q as int, strings_model(items@)),
            decreases m.tokens.len() - q,
        {
            if !self.is_kind(q, TokenType::Comma) {
                return Ok((items, q));
            }
            if !self.is_kind(q + 1, TokenType::String) {
                return Err(self.error(q + 1));
            }
            match self.text_at(q + 1) {
                Some(s) => push_string(&mut items, s),
                None => return Err(self.error(q + 1)),
            }
            q = q + 2;
        }
        Err(self.error(q))
    }

    fn parse_if(&self, p: usize) -> (r: Result<(Expr, usize), ParseError>)
        requires
            p <= self@.tokens.len(),
        ensures
            parsed_model(r) == if_rest(self@, p as int),
            moved_on(r, p as int, self@.tokens.len() as int),
        decreases self@.tokens.len() - p, 5nat,
    {
        let (cond, q) = match self.parse_expr(p) {
            Ok(x) => x,
            Err(x) => return Err(x),
        };
        if !self.is_kind(q, TokenType::LeftCurly) {
            return Err(self.error(q));
        }
        let (then, r) = match self.parse_block(q + 1) {
            Ok(x) => x,
            Err(x) => return Err(x),
        };
        if self.is_kind(r, TokenType::Else) {
            if !self.is_kind(r + 1, TokenType::LeftCurly) {
                return Err(self.error(r + 1));
            }
            let (else_then, u) = match self.parse_block(r + 2) {
                Ok(x) => x,
                Err(x) => return Err(x),
            };
            Ok((Expr::If { cond: Box::new(cond), then: Box::new(then), else_then: Box::new(else_then) }, u))
        } else {
            Ok((Expr::If { cond: Box::new(cond), then: Box::new(then), else_then: Box::new(empty_block_expr()) }, r))
        }
    }

    fn parse_for(&self, p: usize) -> (r: Result<(Expr, usize), ParseError>)
        requires
            1 <= p <= self@.tokens.len(),
        ensures
            parsed_model(r) == for_rest(self@, p as int),
            moved_on(r, p as int, self@.tokens.len() as int),
        decreases self@.tokens.len() - p, 5nat,
    {
        proof {
            assert(self@.tokens[p - 1] == self.tokens@[p - 1]@);
        }
        let iter = match &self.tokens[p - 1].value {
            Some(TokenValue::Num(n)) => *n,
            Some(TokenValue::Str(s)) => match parse_usize(s) {
                Some(n) => n,
                None => return Err(self.error(p - 1)),
            },
            _ => return Err(self.error(p - 1)),
        };
        if !self.is_kind(p, TokenType::Variable) {
            return Err(self.error(p));
        }
        let var = match self.text_at(p) {
            Some(s) => s,
            None => return Err(self.error(p)),
        };
        if !self.is_kind(p + 1, TokenType::LeftCurly) {
            return Err(self.error(p + 1));
        }
        let (body, q) = match self.parse_block(p + 2) {
            Ok(x) => x,
            Err(x) => return Err(x),
        };
        Ok((Expr::For { iter, var, then: Box::new(body), else_then: Box::new(empty_block_expr()) }, q))
    }

    fn parse_try(&self, p: usize) -> (r: Result<(Expr, usize), ParseError>)
        requires
            p <= self@.tokens.len(),
        ensures
            parsed_model(r) == try_rest(self@, p as int),
            moved_on(r, p as int, self@.tokens.len() as int),
        decreases self@.tokens.len() - p, 5nat,
    {
        let (attempt, q) = match self.parse_expr(p) {
            Ok(x) => x,
            Err(x) => return Err(x),
        };
        if !self.is_kind(q, TokenType::Catch) {
            return Err(self.error(q));
        }
        let (catch, r) = match self.parse_expr(q + 1) {
            Ok(x) => x,
            Err(x) => return Err(x),
        };
        Ok((Expr::Try { attempt: Box::new(attempt), catch: Box::new(catch) }, r))
    }

    fn parse_yield(&self, p: usize) -> (r: Result<(Expr, usize), ParseError>)
        requires
            p <= self@.tokens.len(),
        ensures
            parsed_model(r) == map_parsed(expr(self@, p as int), |e: Ast| Ast::Yield(Box::new(e))),
            moved_on(r, p as int, self@.tokens.len() as int),
        decreases self@.tokens.len() - p, 5nat,
    {
        match self.parse_expr(p) {
            Ok((e, q)) => Ok((Expr::Yield(Box::new(e)), q)),
            Err(x) => Err(x),
        }
    }

    fn parse_define(&self, p: usize) -> (r: Result<(Expr, usize), ParseError>)
        requires
            p <= self@.tokens.len(),
        ensures
            parsed_model(r) == define_rest(self@, p as int),
            moved_on(r, p as int, self@.tokens.len() as int),
        decreases self@.tokens.len() - p, 5nat,
    {
        if !(self.is_kind(p, TokenType::Variable) || self.is_kind(p, TokenType::Const)) {
            return Err(self.error(p));
        }
        let var = match self.text_at(p) {
            Some(s) => s,
            None => return Err(self.error(p)),
        };
        if !self.is_kind(p + 1, TokenType::Assign) {
            return Err(self.error(p + 1));
        }
        let (val, q) = match self.parse_expr(p + 2) {
            Ok(x) => x,
            Err(x) => return Err(x),
        };
        if !self.is_kind(q, TokenType::EndOfAssign) {
            return Err(self.error(q));
        }
        Ok((Expr::Define { var, val: Box::new(val) }, q + 1))
    }

    fn parse_block(&self, p: usize) -> (r: Result<(Expr, usize), ParseError>)
        requires
            p <= self@.tokens.len(),
        ensures
            parsed_model(r) == block(self@, p as int),
            moved_on(r, p as int, self@.tokens.len() as int),
        decreases self@.tokens.len() - p, 6nat,
    {
        let ghost m = self@;
        if self.is_kind(p, TokenType::RightCurly) {
            return Ok((empty_block_expr(), p + 1));
        }
        if p < self.tokens.len() && !self.is_kind(p, TokenType::Newline) {
            let (e, q) = match self.parse_expr(p) {
                Ok(x) => x,
                Err(x) => return Err(x),
            };
            if !self.is_kind(q, TokenType::RightCurly) {
                return Err(self.error(q));
            }
            let mut v: Vec<Expr> = Vec::new();
            v.push(e);
            proof {
                assert(exprs_model(v@) =~= seq![e.model()]);
            }
            proof {
                lemma_block_model(v);
            }
            return Ok((Expr::Block(v), q + 1));
        }
        if !self.is_kind(p, TokenType::Newline) {
            return Err(self.error(p));
        }
        if !self.is_kind(p + 1, TokenType::Indent) {
            return Err(self.error(p + 1));
        }
        let mut exprs: Vec<Expr> = Vec::new();
        let mut q = p + 2;
        proof {
            assert(exprs_model(exprs@) =~= seq![]);
        }
        while q < self.tokens.len()
            invariant
                m == self@,
                p + 2 <= q <= m.tokens.len(),
                block(m, p as int) == block_items(m, q as int, exprs_model(exprs@)),
            decreases m.tokens.len() - q,
        {
            if self.is_kind(q, TokenType::Dedent) {
                let c = if self.is_kind(q + 1, TokenType::Newline) {
                    q + 2
                } else {
                    q + 1
                };
                if !self.is_kind(c, TokenType::RightCurly) {
                    return Err(self.error(c));
                }
                proof {
                    lemma_block_model(exprs);
                }
                return Ok((Expr::Block(exprs), c + 1));
            }
            if self.is_kind(q, TokenType::Newline) {
                q = q + 1;
            } else {
                let ghost a0 = exprs_model(exprs@);
                let (e, r) = match self.parse_expr(q) {
                    Ok(x) => x,
                    Err(x) => return Err(x),
                };
                exprs.push(e);
                proof {
                    assert(exprs_model(exprs@) =~= a0.push(e.model()));
                }
                q = r;
            }
        }
        Err(self.error(q))
    }
}

// ---------------------------------------------------------------------------
// Laws of the grammar

/// The token at `p` is a variable or constant named `x`.
pub open spec fn operand_at(m: ParserModel, p: int, x: Ast) -> bool {
    0 <= p < m.tokens.len() && (m.tokens[p].kind == TokenType::Variable || m.tokens[p].kind
        == TokenType::Const) && text_of(m.tokens[p]) is Some && x == (if m.tokens[p].kind
        == TokenType::Variable {
        Ast::Variable(text_of(m.tokens[p])->0)
    } else {
        Ast::Const(text_of(m.tokens[p])->0)
    })
}

/// The token at `p` is the binary operator `op`: an operator token spelled `op` that
/// is not a postfix operator.
pub open spec fn binary_op_at(m: ParserModel, p: int, op: Seq<char>) -> bool {
    kind_is(m, p, TokenType::BinaryOperator) && text_of(m.tokens[p]) == Some(op)
        && !m.postfix.contains(op)
}

/// Nothing at `p` continues an expression: the input ends there, or the token is
/// neither an operator nor a `while`.
pub open spec fn expression_ends_at(m: ParserModel, p: int) -> bool {
    !kind_is(m, p, TokenType::BinaryOperator) && !kind_is(m, p, TokenType::While)
}

proof fn lemma_operand(m: ParserModel, p: int, x: Ast, min: int)
    requires
        operand_at(m, p, x),
        expression_ends_at(m, p + 1) || kind_is(m, p + 1, TokenType::BinaryOperator),
        !is_postfix_op(m, p + 1),
    ensures
        prefix(m, p) == Ok::<(Ast, int), ParseError>((x, p + 1)),
        binary(m, p, min) == binary_rest(m, x, p + 1, min),
{
    assert(op_symbol(m.tokens[p]) is None);
    assert(primary(m, p) == Ok::<(Ast, int), ParseError>((x, p + 1)));
    assert(postfix_rest(m, x, p + 1) == Ok::<(Ast, int), ParseError>((x, p + 1)));
    assert(postfix(m, p) == Ok::<(Ast, int), ParseError>((x, p + 1)));
}

/// An operator that binds tighter groups first: with `prec(a) > prec(b)`, the input
/// `x b y a z` parses as `x b (y a z)`.
pub proof fn lemma_precedence_groups(
    m: ParserModel,
    p: int,
    x: Ast,
    b: Seq<char>,
    y: Ast,
    a: Seq<char>,
    z: Ast,
)
    requires
        operand_at(m, p, x),
        binary_op_at(m, p + 1, b),
        operand_at(m, p + 2, y),
        binary_op_at(m, p + 3, a),
        operand_at(m, p + 4, z),
        expression_ends_at(m, p + 5),
        precedence_of(m, a) > precedence_of(m, b),
    ensures
        expr(m, p) == Ok::<(Ast, int), ParseError>(
            (
                Ast::Binary {
                    left: Box::new(x),
                    op: b,
                    right: Box::new(Ast::Binary { left: Box::new(y), op: a, right: Box::new(z) }),
                },
                p + 5,
            ),
        ),
        kind_is(m, p + 5, TokenType::EOF) ==> program(m, p, seq![]) == Ok::<(Ast, int), ParseError>(
            (
                Ast::Block(
                    seq![
                        Ast::Binary {
                            left: Box::new(x),
                            op: b,
                            right: Box::new(
                                Ast::Binary { left: Box::new(y), op: a, right: Box::new(z) },
                            ),
                        },
                    ],
                ),
                p + 5,
            ),
        ),
{
    let pa = precedence_of(m, a) as int;
    let pb = precedence_of(m, b) as int;
    let inner = Ast::Binary { left: Box::new(y), op: a, right: Box::new(z) };
    let outer = Ast::Binary { left: Box::new(x), op: b, right: Box::new(inner) };
    lemma_operand(m, p + 4, z, pa + 1);
    assert(binary_rest(m, z, p + 5, pa + 1) == Ok::<(Ast, int), ParseError>((z, p + 5)));
    assert(binary(m, p + 4, pa + 1) == Ok::<(Ast, int), ParseError>((z, p + 5)));
    assert(binary_rest(m, inner, p + 5, pb + 1) == Ok::<(Ast, int), ParseError>((inner, p + 5)));
    lemma_operand(m, p + 2, y, pb + 1);
    assert(binary_rest(m, y, p + 3, pb + 1) == Ok::<(Ast, int), ParseError>((inner, p + 5)));
    assert(binary(m, p + 2, pb + 1) == Ok::<(Ast, int), ParseError>((inner, p + 5)));
    assert(binary_rest(m, outer, p + 5, 0) == Ok::<(Ast, int), ParseError>((outer, p + 5)));
    lemma_operand(m, p, x, 0);
    assert(binary_rest(m, x, p + 1, 0) == Ok::<(Ast, int), ParseError>((outer, p + 5)));
    lemma_program_one(m, p, outer, p + 5);
}

/// A program made of one expression followed by `EOF` parses as a block of that
/// expression.
proof fn lemma_program_one(m: ParserModel, p: int, e: Ast, q: int)
    requires
        0 <= p < q,
        m.tokens[p].kind == TokenType::Variable || m.tokens[p].kind == TokenType::Const,
        expr(m, p) == Ok::<(Ast, int), ParseError>((e, q)),
    ensures
        kind_is(m, q, TokenType::EOF) ==> program(m, p, seq![]) == Ok::<(Ast, int), ParseError>(
            (Ast::Block(seq![e]), q),
        ),
{
    if kind_is(m, q, TokenType::EOF) {
        assert(seq![].push(e) =~= seq![e]);
        assert(program(m, q, seq![].push(e)) == Ok::<(Ast, int), ParseError>((Ast::Block(seq![e]), q)));
    }
}

/// Operators of equal precedence group to the left: `x b y a z` parses as
/// `(x b y) a z`.
pub proof fn lemma_left_associative(
    m: ParserModel,
    p: int,
    x: Ast,
    b: Seq<char>,
    y: Ast,
    a: Seq<char>,
    z: Ast,
)
    requires
        operand_at(m, p, x),
        binary_op_at(m, p + 1, b),
        operand_at(m, p + 2, y),
        binary_op_at(m, p + 3, a),
        operand_at(m, p + 4, z),
        expression_ends_at(m, p + 5),
        precedence_of(m, a) == precedence_of(m, b),
    ensures
        expr(m, p) == Ok::<(Ast, int), ParseError>(
            (
                Ast::Binary {
                    left: Box::new(Ast::Binary { left: Box::new(x), op: b, right: Box::new(y) }),
                    op: a,
                    right: Box::new(z),
                },
                p + 5,
            ),
        ),
        kind_is(m, p + 5, TokenType::EOF) ==> program(m, p, seq![]) == Ok::<(Ast, int), ParseError>(
            (
                Ast::Block(
                    seq![
                        Ast::Binary {
                            left: Box::new(
                                Ast::Binary { left: Box::new(x), op: b, right: Box::new(y) },
                            ),
                            op: a,
                            right: Box::new(z),
                        },
                    ],
                ),
                p + 5,
            ),
        ),
{
    let pr = precedence_of(m, a) as int;
    let inner = Ast::Binary { left: Box::new(x), op: b, right: Box::new(y) };
    let outer = Ast::Binary { left: Box::new(inner), op: a, right: Box::new(z) };
    lemma_operand(m, p + 2, y, pr + 1);
    assert(binary_rest(m, y, p + 3, pr + 1) == Ok::<(Ast, int), ParseError>((y, p + 3)));
    assert(binary(m, p + 2, pr + 1) == Ok::<(Ast, int), ParseError>((y, p + 3)));
    lemma_operand(m, p + 4, z, pr + 1);
    assert(binary_rest(m, z, p + 5, pr + 1) == Ok::<(Ast, int), ParseError>((z, p + 5)));
    assert(binary(m, p + 4, pr + 1) == Ok::<(Ast, int), ParseError>((z, p + 5)));
    assert(binary_rest(m, outer, p + 5, 0) == Ok::<(Ast, int), ParseError>((outer, p + 5)));
    assert(binary_rest(m, inner, p + 3, 0) == Ok::<(Ast, int), ParseError>((outer, p + 5)));
    lemma_operand(m, p, x, 0);
    assert(binary_rest(m, x, p + 1, 0) == Ok::<(Ast, int), ParseError>((outer, p + 5)));
    lemma_program_one(m, p, outer, p + 5);
}

/// Braces wrap either one inline expression, closed on the same line, or a newline
/// followed by an indented block of lines.
pub proof fn lemma_block_forms(m: ParserModel, p: int)
    ensures
        (0 <= p < m.tokens.len() && m.tokens[p].kind != TokenType::RightCurly && m.tokens[p].kind
            != TokenType::Newline) ==> match expr(m, p) {
            Ok((e, q)) => kind_is(m, q, TokenType::RightCurly) ==> block(m, p) == Ok::<
                (Ast, int),
                ParseError,
            >((Ast::Block(seq![e]), q + 1)),
            Err(x) => block(m, p) == Err::<(Ast, int), ParseError>(x),
        },
        (kind_is(m, p, TokenType::Newline) && kind_is(m, p + 1, TokenType::Indent)) ==> block(m, p)
            == block_items(m, p + 2, seq![]),
        kind_is(m, p, TokenType::RightCurly) ==> block(m, p) == Ok::<(Ast, int), ParseError>(
            (empty_block(), p + 1),
        ),
{
}

} // verus!
