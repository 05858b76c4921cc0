use vstd::prelude::*;

use crate::lexer::{chars_of, Token, TokenModel, TokenType, TokenValue, ValueModel, tokens_model};

verus! {

/// Where a user-defined operator may stand.
#[derive(Debug, Clone, Copy, PartialEq, Eq, Structural)]
pub enum OperatorKind {
    Prefix,
    Postfix,
    Binary,
}

/// A user-defined operator.
#[derive(Debug, PartialEq, Eq)]
pub struct OperatorDef {
    pub op: String,
    pub func: Option<String>,
    pub precedence: usize,
    pub kind: OperatorKind,
}

/// Mathematical model of an operator definition.
pub struct OperatorDefModel {
    pub op: Seq<char>,
    pub func: Option<Seq<char>>,
    pub precedence: nat,
    pub kind: OperatorKind,
}

pub open spec fn opt_text(s: Option<String>) -> Option<Seq<char>> {
    match s {
        Some(x) => Some(x@),
        None => None,
    }
}

impl View for OperatorDef {
    type V = OperatorDefModel;

    open spec fn view(&self) -> OperatorDefModel {
        OperatorDefModel {
            op: self.op@,
            func: opt_text(self.func),
            precedence: self.precedence as nat,
            kind: self.kind,
        }
    }
}

/// The models of a sequence of operator definitions.
pub open spec fn defs_model(v: Seq<OperatorDef>) -> Seq<OperatorDefModel> {
    v.map_values(|d: OperatorDef| d@)
}

// ---------------------------------------------------------------------------
// Precedence map

/// Operator symbols and their precedences; a later entry for a symbol overrides
/// earlier ones.
pub struct PrecedenceMap {
    entries: Vec<(String, usize)>,
}

/// The map that a sequence of entries denotes, later entries winning.
pub open spec fn entries_map(e: Seq<(String, usize)>) -> Map<Seq<char>, nat>
    decreases e.len(),
{
    if e.len() == 0 {
        Map::empty()
    } else {
        entries_map(e.drop_last()).insert(e.last().0@, e.last().1 as nat)
    }
}

impl View for PrecedenceMap {
    type V = Map<Seq<char>, nat>;

    closed spec fn view(&self) -> Map<Seq<char>, nat> {
        entries_map(self.entries@)
    }
}

proof fn lemma_entries_suffix(e: Seq<(String, usize)>, k: int, key: Seq<char>)
    requires
        0 <= k <= e.len(),
        forall|m: int| k <= m < e.len() ==> (#[trigger] e[m]).0@ != key,
    ensures
        entries_map(e).contains_key(key) == entries_map(e.take(k)).contains_key(key),
        entries_map(e).contains_key(key) ==> entries_map(e)[key] == entries_map(e.take(k))[key],
    decreases e.len(),
{
    if e.len() > k {
        assert(e.drop_last().take(k) =~= e.take(k));
        lemma_entries_suffix(e.drop_last(), k, key);
    } else {
        assert(e.take(k) =~= e);
    }
}

impl PrecedenceMap {
    /// An empty map.
    pub fn new() -> (r: Self)
        ensures
            r@ == Map::<Seq<char>, nat>::empty(),
    {
        PrecedenceMap { entries: Vec::new() }
    }

    /// Sets the precedence of `op`, replacing any earlier one.
    pub fn insert(&mut self, op: String, precedence: usize)
        ensures
            final(self)@ == old(self)@.insert(op@, precedence as nat),
    {
        let ghost e0 = self.entries@;
        self.entries.push((op, precedence));
        proof {
            assert(self.entries@.drop_last() =~= e0);
        }
    }

    /// The precedence of `op`, if it has one.
    pub fn get(&self, op: &str) -> (r: Option<usize>)
        ensures
            r is Some <==> self@.contains_key(op@),
            r matches Some(v) ==> self@[op@] == v as nat,
    {
        let key = String::from_str(op);
        let e = &self.entries;
        let mut k = e.len();
        while k > 0
            invariant
                k <= e.len(),
                key@ == op@,
                e@ == self.entries@,
                forall|m: int| k <= m < e.len() ==> (#[trigger] e@[m]).0@ != key@,
            decreases k,
        {
            if e[k - 1].0 == key {
                proof {
                    lemma_entries_suffix(e@, k as int, key@);
                    assert(e@.take(k as int).drop_last() =~= e@.take(k - 1));
                    assert(e@.take(k as int).last() == e@[k - 1]);
                    assert(e@[k - 1].0@ == key@);
                    assert(entries_map(e@.take(k as int)) == entries_map(e@.take(k - 1)).insert(
                        key@,
                        e@[k - 1].1 as nat,
                    ));
                }
                return Some(e[k - 1].1);
            }
            k = k - 1;
        }
        proof {
            lemma_entries_suffix(e@, 0, key@);
        }
        None
    }
}

/// The built-in operators and their precedences.
pub open spec fn builtin_precedence() -> Map<Seq<char>, nat> {
    Map::empty().insert("^^"@, 4nat).insert("^"@, 3nat).insert("*"@, 2nat).insert("/"@, 2nat).insert(
        "+"@,
        1nat,
    ).insert("-"@, 1nat).insert("<"@, 0nat).insert(">"@, 0nat).insert("="@, 0nat).insert(
        "≥"@,
        0nat,
    ).insert("≤"@, 0nat)
}

/// A map holding the built-in operators.
pub fn default_precedence_map() -> (r: PrecedenceMap)
    ensures
        r@ == builtin_precedence(),
{
    let mut m = PrecedenceMap::new();
    m.insert(String::from_str("^^"), 4);
    m.insert(String::from_str("^"), 3);
    m.insert(String::from_str("*"), 2);
    m.insert(String::from_str("/"), 2);
    m.insert(String::from_str("+"), 1);
    m.insert(String::from_str("-"), 1);
    m.insert(String::from_str("<"), 0);
    m.insert(String::from_str(">"), 0);
    m.insert(String::from_str("="), 0);
    m.insert(String::from_str("≥"), 0);
    m.insert(String::from_str("≤"), 0);
    m
}

// ---------------------------------------------------------------------------
// Operator definitions

/// The string payload of a token, if it has one.
pub open spec fn text_of(t: TokenModel) -> Option<Seq<char>> {
    match t.value {
        Some(ValueModel::Str(s)) => Some(s),
        _ => None,
    }
}

/// The token at `i` exists and has kind `k`.
pub open spec fn kind_is(ts: Seq<TokenModel>, i: int, k: TokenType) -> bool {
    0 <= i < ts.len() && ts[i].kind == k
}

/// The string payload of the token at `i`, if there is such a token and payload.
pub open spec fn text_at(ts: Seq<TokenModel>, i: int) -> Option<Seq<char>> {
    if 0 <= i < ts.len() {
        text_of(ts[i])
    } else {
        None
    }
}

pub open spec fn is_digit(c: char) -> bool {
    '0' <= c && c <= '9'
}

/// The value of a string of decimal digits.
pub open spec fn digits_value(s: Seq<char>) -> nat
    decreases s.len(),
{
    if s.len() == 0 {
        0
    } else {
        digits_value(s.drop_last()) * 10 + (s.last() as nat - '0' as nat) as nat
    }
}

/// `s` without its leading `+`, if it has one.
pub open spec fn unsigned_part(s: Seq<char>) -> Seq<char> {
    if s.len() > 0 && s[0] == '+' {
        s.drop_first()
    } else {
        s
    }
}

pub open spec fn all_digits(d: Seq<char>) -> bool {
    forall|k: int| 0 <= k < d.len() ==> is_digit(#[trigger] d[k])
}

/// A non-negative machine integer written in decimal, with an optional leading `+`.
pub open spec fn parse_decimal(s: Seq<char>) -> Option<nat> {
    let d = unsigned_part(s);
    if d.len() > 0 && all_digits(d) && digits_value(d) <= usize::MAX {
        Some(digits_value(d))
    } else {
        None
    }
}

/// ASCII case folding of one character.
pub open spec fn ascii_fold(c: char) -> u32 {
    if 'A' <= c && c <= 'Z' {
        (c as u32 + 32) as u32
    } else {
        c as u32
    }
}

/// `s` equals `w` up to ASCII case.
pub open spec fn same_ignoring_case(s: Seq<char>, w: Seq<char>) -> bool {
    s.len() == w.len() && forall|k: int| 0 <= k < s.len() ==> ascii_fold(#[trigger] s[k])
        == ascii_fold(w[k])
}

/// The operator kind a metadata word names; anything unknown is `Binary`.
pub open spec fn kind_named(s: Seq<char>) -> OperatorKind {
    if same_ignoring_case(s, "prefix"@) {
        OperatorKind::Prefix
    } else if same_ignoring_case(s, "postfix"@) {
        OperatorKind::Postfix
    } else if same_ignoring_case(s, "unary"@) {
        OperatorKind::Postfix
    } else {
        OperatorKind::Binary
    }
}

/// A backing-function name, without the double quotes that may surround it.
pub open spec fn backing_name(s: Seq<char>) -> Seq<char> {
    if s.len() >= 2 && s[0] == '"' && s.last() == '"' {
        s.subrange(1, s.len() - 1)
    } else {
        s
    }
}

/// The precedence a metadata token gives: its number, or its text read as a decimal,
/// or 0.
pub open spec fn precedence_value(ts: Seq<TokenModel>, i: int) -> nat {
    if 0 <= i < ts.len() {
        match ts[i].value {
            Some(ValueModel::Num(n)) => n,
            Some(ValueModel::Str(s)) => match parse_decimal(s) {
                Some(n) => n,
                None => 0,
            },
            _ => 0,
        }
    } else {
        0
    }
}

/// Offset `c`, moved past a token of kind `k` if one stands there.
pub open spec fn skip_kind(ts: Seq<TokenModel>, c: int, k: TokenType) -> int {
    if kind_is(ts, c, k) {
        c + 1
    } else {
        c
    }
}

/// The metadata block whose `{` stands at `i`: backing function, precedence, kind, and
/// the offset after the block.
pub open spec fn metadata(ts: Seq<TokenModel>, i: int) -> (Option<Seq<char>>, nat, OperatorKind, int) {
    let func = match text_at(ts, i + 1) {
        Some(s) => Some(backing_name(s)),
        None => None,
    };
    let c = skip_kind(ts, i + 2, TokenType::Comma);
    let precedence = precedence_value(ts, c);
    let d = skip_kind(ts, c + 1, TokenType::Comma);
    let kind = match text_at(ts, d) {
        Some(s) => kind_named(s),
        None => OperatorKind::Binary,
    };
    (func, precedence, kind, skip_kind(ts, d + 1, TokenType::RightCurly))
}

/// First offset at or after `i` holding a token of kind `k`, or `ts.len()`.
pub open spec fn find_kind(ts: Seq<TokenModel>, i: int, k: TokenType) -> int
    decreases ts.len() - i,
{
    if i >= ts.len() {
        ts.len() as int
    } else if i >= 0 && ts[i].kind == k {
        i
    } else {
        find_kind(ts, i + 1, k)
    }
}

/// The operator definition that starts at `i`, if one does.
pub open spec fn op_def_at(ts: Seq<TokenModel>, i: int) -> Option<OperatorDefModel> {
    if !(0 <= i && i + 2 < ts.len()) {
        None
    } else if ts[i].kind != TokenType::Define || ts[i + 1].kind != TokenType::BinaryOperator
        || ts[i + 2].kind != TokenType::Assign {
        None
    } else {
        let m = if kind_is(ts, i + 3, TokenType::LeftCurly) {
            metadata(ts, i + 3)
        } else {
            (None, 0nat, OperatorKind::Binary, i + 3)
        };
        if find_kind(ts, m.3, TokenType::EndOfAssign) < ts.len() && text_of(ts[i + 1]) is Some {
            Some(
                OperatorDefModel {
                    op: text_of(ts[i + 1])->0,
                    func: m.0,
                    precedence: m.1,
                    kind: m.2,
                },
            )
        } else {
            None
        }
    }
}

proof fn lemma_find_kind(ts: Seq<TokenModel>, i: int, k: TokenType)
    requires
        0 <= i <= ts.len(),
    ensures
        i <= find_kind(ts, i, k) <= ts.len(),
        find_kind(ts, i, k) < ts.len() ==> ts[find_kind(ts, i, k)].kind == k,
    decreases ts.len() - i,
{
    if i < ts.len() && ts[i].kind != k {
        lemma_find_kind(ts, i + 1, k);
    }
}

/// The offset just after the first `EndOfAssign` at or after `i`, or `ts.len()`.
pub open spec fn end_after(ts: Seq<TokenModel>, i: int) -> int {
    let e = find_kind(ts, i, TokenType::EndOfAssign);
    if e < ts.len() {
        e + 1
    } else {
        ts.len() as int
    }
}

/// The first pass from offset `i` on: the tokens kept, and the definitions taken out.
pub open spec fn pass_from(ts: Seq<TokenModel>, i: int) -> (Seq<TokenModel>, Seq<OperatorDefModel>)
    decreases ts.len() - i,
{
    if i < 0 || i >= ts.len() {
        (seq![], seq![])
    } else {
        match op_def_at(ts, i) {
            Some(d) => {
                let j = end_after(ts, i + 1);
                if i < j <= ts.len() {
                    let r = pass_from(ts, j);
                    (r.0, seq![d] + r.1)
                } else {
                    (seq![], seq![d])
                }
            },
            None => {
                let r = pass_from(ts, i + 1);
                (seq![ts[i]] + r.0, r.1)
            },
        }
    }
}

/// `m` with the precedence of each definition set in turn.
pub open spec fn with_defs(m: Map<Seq<char>, nat>, defs: Seq<OperatorDefModel>) -> Map<Seq<char>, nat>
    decreases defs.len(),
{
    if defs.len() == 0 {
        m
    } else {
        with_defs(m, defs.drop_last()).insert(defs.last().op, defs.last().precedence)
    }
}

// ---------------------------------------------------------------------------
// Executable first pass

pub(crate) fn token_text(t: &Token) -> (r: Option<String>)
    ensures
        opt_text(r) == text_of(t@),
{
    match &t.value {
        Some(TokenValue::Str(s)) => Some(s.clone()),
        _ => None,
    }
}

fn text_at_pos(ts: &Vec<Token>, i: u128) -> (r: Option<String>)
    ensures
        opt_text(r) == text_at(tokens_model(ts@), i as int),
{
    if i < ts.len() as u128 {
        proof {
            assert(tokens_model(ts@)[i as int] == ts@[i as int]@);
        }
        token_text(&ts[i as usize])
    } else {
        None
    }
}

fn kind_at_pos(ts: &Vec<Token>, i: u128, k: TokenType) -> (r: bool)
    ensures
        r == kind_is(tokens_model(ts@), i as int, k),
{
    if i < ts.len() as u128 {
        proof {
            assert(tokens_model(ts@)[i as int] == ts@[i as int]@);
        }
        ts[i as usize]._type == k
    } else {
        false
    }
}

fn skip_kind_pos(ts: &Vec<Token>, c: u128, k: TokenType) -> (r: u128)
    requires
        c <= ts.len() + 8,
    ensures
        r == skip_kind(tokens_model(ts@), c as int, k),
        r <= c + 1,
{
    if kind_at_pos(ts, c, k) {
        c + 1
    } else {
        c
    }
}

proof fn lemma_digits_monotone(d: Seq<char>, k: int)
    requires
        0 <= k <= d.len(),
        forall|m: int| 0 <= m < d.len() ==> is_digit(#[trigger] d[m]),
    ensures
        digits_value(d.take(k)) <= digits_value(d),
    decreases d.len(),
{
    if k < d.len() {
        assert(d.drop_last().take(k) =~= d.take(k));
        lemma_digits_monotone(d.drop_last(), k);
    } else {
        assert(d.take(k) =~= d);
    }
}

/// Reads a machine integer written in decimal, with an optional leading `+`.
pub fn parse_usize(s: &String) -> (r: Option<usize>)
    ensures
        r matches Some(v) ==> parse_decimal(s@) == Some(v as nat),
        r is None ==> parse_decimal(s@) is None,
{
    let c = chars_of(s.as_str());
    let start: usize = if c.len() > 0 && c[0] == '+' {
        1
    } else {
        0
    };
    let ghost d = c@.subrange(start as int, c.len() as int);
    proof {
        if c.len() > 0 && c[0] == '+' {
            assert(d =~= s@.drop_first());
        } else {
            assert(d =~= s@);
        }
    }
    if start >= c.len() {
        return None;
    }
    let mut v: usize = 0;
    let mut k = start;
    while k < c.len()
        invariant
            start <= k <= c.len(),
            d == c@.subrange(start as int, c.len() as int),
            c@ == s@,
            d == unsigned_part(s@),
            v == digits_value(d.take(k - start)),
            forall|m: int| 0 <= m < k - start ==> is_digit(#[trigger] d[m]),
        decreases c.len() - k,
    {
        let ch = c[k];
        if !('0' <= ch && ch <= '9') {
            proof {
                assert(d[k - start] == ch);
                assert(!is_digit(d[k - start]));
            }
            return None;
        }
        let digit = (ch as u32 - '0' as u32) as usize;
        proof {
            assert(d.take(k + 1 - start).drop_last() =~= d.take(k - start));
            assert(d.take(k + 1 - start).last() == ch);
            assert(digits_value(d.take(k + 1 - start)) == v * 10 + digit);
        }
        let next = match v.checked_mul(10) {
            Some(t) => t.checked_add(digit),
            None => None,
        };
        match next {
            Some(n) => {
                v = n;
            },
            None => {
                proof {
                    if all_digits(d) {
                        lemma_digits_monotone(d, k + 1 - start);
                    }
                }
                return None;
            },
        }
        k = k + 1;
    }
    proof {
        assert(d.take(k - start) =~= d);
    }
    Some(v)
}

fn fold_char(c: char) -> (r: u32)
    ensures
        r == ascii_fold(c),
{
    if 'A' <= c && c <= 'Z' {
        c as u32 + 32
    } else {
        c as u32
    }
}

/// Whether `s` equals `w` up to ASCII case.
fn eq_ignoring_case(s: &Vec<char>, w: &str) -> (r: bool)
    ensures
        r == same_ignoring_case(s@, w@),
{
    let wc = chars_of(w);
    if s.len() != wc.len() {
        return false;
    }
    let mut k: usize = 0;
    while k < s.len()
        invariant
            k <= s.len() == wc.len(),
            wc@ == w@,
            forall|m: int| 0 <= m < k ==> ascii_fold(#[trigger] s@[m]) == ascii_fold(wc@[m]),
        decreases s.len() - k,
    {
        if fold_char(s[k]) != fold_char(wc[k]) {
            proof {
                assert(ascii_fold(s@[k as int]) != ascii_fold(w@[k as int]));
            }
            return false;
        }
        k = k + 1;
    }
    true
}

/// The operator kind a metadata word names.
fn kind_from_name(s: &String) -> (r: OperatorKind)
    ensures
        r == kind_named(s@),
{
    let c = chars_of(s.as_str());
    if eq_ignoring_case(&c, "prefix") {
        OperatorKind::Prefix
    } else if eq_ignoring_case(&c, "postfix") {
        OperatorKind::Postfix
    } else if eq_ignoring_case(&c, "unary") {
        OperatorKind::Postfix
    } else {
        OperatorKind::Binary
    }
}

/// A backing-function name without surrounding double quotes.
fn strip_quotes(s: String) -> (r: String)
    ensures
        r@ == backing_name(s@),
{
    let c = chars_of(s.as_str());
    if c.len() >= 2 && c[0] == '"' && c[c.len() - 1] == '"' {
        let mut r = String::new();
        let mut k: usize = 1;
        while k < c.len() - 1
            invariant
                1 <= k <= c.len() - 1,
                c@ == s@,
                r@ == c@.subrange(1, k as int),
            decreases c.len() - k,
        {
            r.push(c[k]);
            proof {
                assert(r@ =~= c@.subrange(1, k + 1));
            }
            k = k + 1;
        }
        r
    } else {
        s
    }
}

fn precedence_at(ts: &Vec<Token>, i: u128) -> (r: usize)
    ensures
        r as nat == precedence_value(tokens_model(ts@), i as int),
{
    if i < ts.len() as u128 {
        proof {
            assert(tokens_model(ts@)[i as int] == ts@[i as int]@);
        }
        match &ts[i as usize].value {
            Some(TokenValue::Num(n)) => *n,
            Some(TokenValue::Str(s)) => match parse_usize(s) {
                Some(n) => n,
                None => 0,
            },
            _ => 0,
        }
    } else {
        0
    }
}

/// Reads the metadata block whose `{` stands at `i`.
fn read_metadata(ts: &Vec<Token>, i: u128) -> (r: (Option<String>, usize, OperatorKind, u128))
    requires
        i < ts.len(),
    ensures
        ({
            let m = metadata(tokens_model(ts@), i as int);
            opt_text(r.0) == m.0 && r.1 as nat == m.1 && r.2 == m.2 && r.3 as int == m.3
        }),
        r.3 <= i + 7,
{
    let func = match text_at_pos(ts, i + 1) {
        Some(s) => Some(strip_quotes(s)),
        None => None,
    };
    let c = skip_kind_pos(ts, i + 2, TokenType::Comma);
    let precedence = precedence_at(ts, c);
    let d = skip_kind_pos(ts, c + 1, TokenType::Comma);
    let kind = match text_at_pos(ts, d) {
        Some(s) => kind_from_name(&s),
        None => OperatorKind::Binary,
    };
    let e = skip_kind_pos(ts, d + 1, TokenType::RightCurly);
    (func, precedence, kind, e)
}

/// First offset at or after `i` holding a token of kind `k`, or `ts.len()`.
fn find_kind_from(ts: &Vec<Token>, i: u128, k: TokenType) -> (r: usize)
    ensures
        r as int == find_kind(tokens_model(ts@), i as int, k),
        r <= ts.len(),
{
    if i >= ts.len() as u128 {
        return ts.len();
    }
    let mut j = i as usize;
    while j < ts.len()
        invariant
            i <= j <= ts.len(),
            find_kind(tokens_model(ts@), i as int, k) == find_kind(tokens_model(ts@), j as int, k),
        decreases ts.len() - j,
    {
        proof {
            assert(tokens_model(ts@)[j as int] == ts@[j as int]@);
        }
        if ts[j]._type == k {
            return j;
        }
        j = j + 1;
    }
    j
}

/// The operator definition that starts at `i`, if one does.
fn maybe_parse_op_def(ts: &Vec<Token>, i: usize) -> (r: Option<OperatorDef>)
    ensures
        r matches Some(d) ==> op_def_at(tokens_model(ts@), i as int) == Some(d@),
        r is None ==> op_def_at(tokens_model(ts@), i as int) is None,
{
    let ghost tm = tokens_model(ts@);
    if !(i < ts.len() && ts.len() - i > 2) {
        return None;
    }
    proof {
        assert(tm[i as int] == ts@[i as int]@);
        assert(tm[i + 1] == ts@[i + 1]@);
        assert(tm[i + 2] == ts@[i + 2]@);
    }
    if ts[i]._type != TokenType::Define || ts[i + 1]._type != TokenType::BinaryOperator
        || ts[i + 2]._type != TokenType::Assign {
        return None;
    }
    let start = i as u128 + 3;
    let (func, precedence, kind, cursor) = if kind_at_pos(ts, start, TokenType::LeftCurly) {
        read_metadata(ts, start)
    } else {
        (None, 0, OperatorKind::Binary, start)
    };
    let e = find_kind_from(ts, cursor, TokenType::EndOfAssign);
    if e < ts.len() {
        match token_text(&ts[i + 1]) {
            Some(op) => Some(OperatorDef { op, func, precedence, kind }),
            None => None,
        }
    } else {
        None
    }
}

/// The offset just after the first `EndOfAssign` at or after `i`, or `ts.len()`.
fn skip_until_end_of_assign(ts: &Vec<Token>, i: usize) -> (r: usize)
    ensures
        r as int == end_after(tokens_model(ts@), i as int),
        r <= ts.len(),
{
    let e = find_kind_from(ts, i as u128, TokenType::EndOfAssign);
    if e < ts.len() {
        e + 1
    } else {
        ts.len()
    }
}

/// Takes the operator definitions out of a token sequence. Returns the remaining
/// tokens, the built-in precedences updated by each definition in turn, and the
/// definitions in source order.
pub fn run(tokens: Vec<Token>) -> (r: (Vec<Token>, PrecedenceMap, Vec<OperatorDef>))
    ensures
        tokens_model(r.0@) == pass_from(tokens_model(tokens@), 0).0,
        defs_model(r.2@) == pass_from(tokens_model(tokens@), 0).1,
        r.1@ == with_defs(builtin_precedence(), pass_from(tokens_model(tokens@), 0).1),
{
    let ghost tm = tokens_model(tokens@);
    let mut filtered: Vec<Token> = Vec::new();
    let mut precedence_map = default_precedence_map();
    let mut defs: Vec<OperatorDef> = Vec::new();
    let mut i: usize = 0;
    proof {
        assert(tm.len() == tokens.len());
        assert(tokens_model(filtered@) + pass_from(tm, 0).0 =~= pass_from(tm, 0).0);
        assert(defs_model(defs@) + pass_from(tm, 0).1 =~= pass_from(tm, 0).1);
    }
    while i < tokens.len()
        invariant
            tm == tokens_model(tokens@),
            i <= tokens.len(),
            pass_from(tm, 0).0 == tokens_model(filtered@) + pass_from(tm, i as int).0,
            pass_from(tm, 0).1 == defs_model(defs@) + pass_from(tm, i as int).1,
            precedence_map@ == with_defs(builtin_precedence(), defs_model(defs@)),
        decreases tokens.len() - i,
    {
        let ghost f0 = tokens_model(filtered@);
        let ghost d0 = defs_model(defs@);
        match maybe_parse_op_def(&tokens, i) {
            Some(def) => {
                let j = skip_until_end_of_assign(&tokens, i + 1);
                proof {
                    lemma_find_kind(tm, i + 1, TokenType::EndOfAssign);
                }
                precedence_map.insert(def.op.clone(), def.precedence);
                let ghost dm = def@;
                defs.push(def);
                proof {
                    assert(defs_model(defs@) =~= d0.push(dm));
                    assert(defs_model(defs@).drop_last() =~= d0);
                    assert(pass_from(tm, i as int).1 == seq![dm] + pass_from(tm, j as int).1);
                    assert(d0 + (seq![dm] + pass_from(tm, j as int).1) =~= defs_model(defs@)
                        + pass_from(tm, j as int).1);
                }
                i = j;
            },
            None => {
                let t = tokens[i].clone();
                proof {
                    assert(tm[i as int] == tokens@[i as int]@);
                }
                filtered.push(t);
                proof {
                    assert(tokens_model(filtered@) =~= f0.push(tm[i as int]));
                    assert(f0 + (seq![tm[i as int]] + pass_from(tm, i + 1).0) =~= tokens_model(
                        filtered@,
                    ) + pass_from(tm, i + 1).0);
                }
                i = i + 1;
            },
        }
    }
    proof {
        assert(tokens_model(filtered@) + pass_from(tm, i as int).0 =~= tokens_model(filtered@));
        assert(defs_model(defs@) + pass_from(tm, i as int).1 =~= defs_model(defs@));
    }
    (filtered, precedence_map, defs)
}

// ---------------------------------------------------------------------------
// Laws of the first pass

/// The definition at index `k` is the last one for its symbol.
pub open spec fn last_for_symbol(defs: Seq<OperatorDefModel>, k: int) -> bool {
    0 <= k < defs.len() && forall|j: int| k < j < defs.len() ==> (#[trigger] defs[j]).op != defs[k].op
}

proof fn lemma_with_defs_untouched(m: Map<Seq<char>, nat>, defs: Seq<OperatorDefModel>, s: Seq<char>)
    requires
        forall|j: int| 0 <= j < defs.len() ==> (#[trigger] defs[j]).op != s,
    ensures
        with_defs(m, defs).contains_key(s) == m.contains_key(s),
        m.contains_key(s) ==> with_defs(m, defs)[s] == m[s],
    decreases defs.len(),
{
    if defs.len() > 0 {
        lemma_with_defs_untouched(m, defs.drop_last(), s);
    }
}

proof fn lemma_with_defs_last(m: Map<Seq<char>, nat>, defs: Seq<OperatorDefModel>, k: int)
    requires
        last_for_symbol(defs, k),
    ensures
        with_defs(m, defs).contains_key(defs[k].op),
        with_defs(m, defs)[defs[k].op] == defs[k].precedence,
    decreases defs.len(),
{
    if k < defs.len() - 1 {
        let d = defs.drop_last();
        assert(last_for_symbol(d, k)) by {
            assert forall|j: int| k < j < d.len() implies (#[trigger] d[j]).op != d[k].op by {
                assert(d[j] == defs[j]);
            }
        }
        lemma_with_defs_last(m, d, k);
    }
}

/// The built-in precedences, entry by entry.
pub proof fn lemma_builtin_table()
    ensures
        builtin_precedence()["^^"@] == 4,
        builtin_precedence()["^"@] == 3,
        builtin_precedence()["*"@] == 2,
        builtin_precedence()["/"@] == 2,
        builtin_precedence()["+"@] == 1,
        builtin_precedence()["-"@] == 1,
        builtin_precedence()["<"@] == 0,
        builtin_precedence()[">"@] == 0,
        builtin_precedence()["="@] == 0,
        builtin_precedence()["≥"@] == 0,
        builtin_precedence()["≤"@] == 0,
{
    reveal_strlit("^^");
    reveal_strlit("^");
    reveal_strlit("*");
    reveal_strlit("/");
    reveal_strlit("+");
    reveal_strlit("-");
    reveal_strlit("<");
    reveal_strlit(">");
    reveal_strlit("=");
    reveal_strlit("≥");
    reveal_strlit("≤");
    let keys = seq!["^"@, "*"@, "/"@, "+"@, "-"@, "<"@, ">"@, "="@, "≥"@, "≤"@];
    let firsts = seq!['^', '*', '/', '+', '-', '<', '>', '=', '≥', '≤'];
    assert forall|i: int| 0 <= i < keys.len() implies (#[trigger] keys[i]).len() == 1 && keys[i][0]
        == firsts[i] by {
        assert(keys[0][0] == '^');
        assert(keys[1][0] == '*');
        assert(keys[2][0] == '/');
        assert(keys[3][0] == '+');
        assert(keys[4][0] == '-');
        assert(keys[5][0] == '<');
        assert(keys[6][0] == '>');
        assert(keys[7][0] == '=');
        assert(keys[8][0] == '≥');
        assert(keys[9][0] == '≤');
    }
    assert forall|i: int, j: int| 0 <= i < j < keys.len() implies keys[i] != keys[j] by {
        assert(keys[i][0] != keys[j][0]);
    }
    assert("^^"@.len() == 2);
}

/// After the first pass on any tokens, every built-in operator keeps its built-in
/// precedence unless the input defines that symbol anew.
pub proof fn lemma_builtins_kept(ts: Seq<TokenModel>, s: Seq<char>)
    requires
        builtin_precedence().contains_key(s),
        forall|j: int| 0 <= j < pass_from(ts, 0).1.len() ==> (#[trigger] pass_from(ts, 0).1[j]).op != s,
    ensures
        with_defs(builtin_precedence(), pass_from(ts, 0).1).contains_key(s),
        with_defs(builtin_precedence(), pass_from(ts, 0).1)[s] == builtin_precedence()[s],
{
    lemma_with_defs_untouched(builtin_precedence(), pass_from(ts, 0).1, s);
}

/// After the first pass, the precedence map holds an entry for the symbol of every
/// definition taken out, equal to the precedence of the last definition of that symbol.
pub proof fn lemma_definitions_registered(ts: Seq<TokenModel>, k: int)
    requires
        0 <= k < pass_from(ts, 0).1.len(),
    ensures
        with_defs(builtin_precedence(), pass_from(ts, 0).1).contains_key(pass_from(ts, 0).1[k].op),
        exists|j: int|
            k <= j < pass_from(ts, 0).1.len() && #[trigger] last_for_symbol(pass_from(ts, 0).1, j)
                && pass_from(ts, 0).1[j].op == pass_from(ts, 0).1[k].op
                && with_defs(builtin_precedence(), pass_from(ts, 0).1)[pass_from(ts, 0).1[k].op]
                == pass_from(ts, 0).1[j].precedence,
{
    let defs = pass_from(ts, 0).1;
    let j = lemma_last_occurrence(defs, k);
    lemma_with_defs_last(builtin_precedence(), defs, j);
}

proof fn lemma_last_occurrence(defs: Seq<OperatorDefModel>, k: int) -> (j: int)
    requires
        0 <= k < defs.len(),
    ensures
        k <= j < defs.len(),
        last_for_symbol(defs, j),
        defs[j].op == defs[k].op,
    decreases defs.len() - k,
{
    if exists|i: int| k < i < defs.len() && (#[trigger] defs[i]).op == defs[k].op {
        let i = choose|i: int| k < i < defs.len() && (#[trigger] defs[i]).op == defs[k].op;
        lemma_last_occurrence(defs, i)
    } else {
        k
    }
}

proof fn lemma_find_kind_shift(ts: Seq<TokenModel>, i: int, q: int, k: TokenType)
    requires
        0 <= i <= ts.len(),
        0 <= q,
    ensures
        find_kind(ts, i + q, k) == i + find_kind(ts.skip(i), q, k),
    decreases ts.len() - i - q,
{
    if i + q < ts.len() && ts[i + q].kind != k {
        lemma_find_kind_shift(ts, i, q + 1, k);
    }
}

proof fn lemma_find_kind_none(ts: Seq<TokenModel>, x: int, y: int, k: TokenType)
    requires
        0 <= x <= y < ts.len(),
        find_kind(ts, x, k) == ts.len(),
    ensures
        ts[y].kind != k,
    decreases y - x,
{
    if x < y {
        lemma_find_kind_none(ts, x + 1, y, k);
    }
}

/// Whether a definition starts at `i` depends on the tokens from `i` on alone.
proof fn lemma_op_def_shift(ts: Seq<TokenModel>, i: int)
    requires
        0 <= i <= ts.len(),
    ensures
        op_def_at(ts, i) == op_def_at(ts.skip(i), 0),
{
    let u = ts.skip(i);
    if 0 <= i && i + 2 < ts.len() {
        assert(u[0] == ts[i] && u[1] == ts[i + 1] && u[2] == ts[i + 2]);
        if kind_is(ts, i + 3, TokenType::LeftCurly) {
            assert forall|q: int| 3 <= q <= 10 implies (#[trigger] kind_is(ts, i + q, TokenType::Comma)
                == kind_is(u, q, TokenType::Comma)) && kind_is(ts, i + q, TokenType::RightCurly)
                == kind_is(u, q, TokenType::RightCurly) && text_at(ts, i + q) == text_at(u, q)
                && precedence_value(ts, i + q) == precedence_value(u, q) by {
                if i + q < ts.len() {
                    assert(u[q] == ts[i + q]);
                }
            }
            let m = metadata(ts, i + 3);
            let mu = metadata(u, 3);
            assert(m.3 == i + mu.3);
            lemma_find_kind_shift(ts, i, mu.3, TokenType::EndOfAssign);
        } else {
            lemma_find_kind_shift(ts, i, 3, TokenType::EndOfAssign);
        }
    }
}

/// Where no definition starts from `k` on, the pass keeps every token from `k` on.
proof fn lemma_pass_keeps_all(ts: Seq<TokenModel>, k: int)
    requires
        0 <= k <= ts.len(),
        forall|r: int| k <= r < ts.len() ==> (#[trigger] op_def_at(ts, r)) is None,
    ensures
        pass_from(ts, k).0 == ts.skip(k),
    decreases ts.len() - k,
{
    if k < ts.len() {
        lemma_pass_keeps_all(ts, k + 1);
        assert(seq![ts[k]] + ts.skip(k + 1) =~= ts.skip(k));
    } else {
        assert(ts.skip(k) =~= seq![]);
    }
}

/// The metadata block ends at or after the offset it starts from.
proof fn lemma_metadata_moves(ts: Seq<TokenModel>, i: int)
    ensures
        i + 4 <= metadata(ts, i).3 <= i + 7,
{
}

/// When the start of a definition stands at `i` but no definition is recognized there,
/// none is recognized anywhere after `i` either.
proof fn lemma_no_later_definition(ts: Seq<TokenModel>, i: int, r: int)
    requires
        0 <= i,
        i + 2 < ts.len(),
        ts[i].kind == TokenType::Define,
        ts[i + 1].kind == TokenType::BinaryOperator,
        ts[i + 2].kind == TokenType::Assign,
        text_of(ts[i + 1]) is Some,
        op_def_at(ts, i) is None,
        i < r < ts.len(),
    ensures
        op_def_at(ts, r) is None,
{
    let c = if kind_is(ts, i + 3, TokenType::LeftCurly) {
        metadata(ts, i + 3).3
    } else {
        i + 3
    };
    lemma_metadata_moves(ts, i + 3);
    if c <= ts.len() {
        lemma_find_kind(ts, c, TokenType::EndOfAssign);
    }
    if op_def_at(ts, r) is Some {
        let cr = if kind_is(ts, r + 3, TokenType::LeftCurly) {
            metadata(ts, r + 3).3
        } else {
            r + 3
        };
        lemma_metadata_moves(ts, r + 3);
        let f = find_kind(ts, cr, TokenType::EndOfAssign);
        lemma_find_kind(ts, cr, TokenType::EndOfAssign);
        assert(find_kind(ts, c, TokenType::EndOfAssign) == ts.len());
        if c <= f {
            lemma_find_kind_none(ts, c, f, TokenType::EndOfAssign);
        }
        assert(f < c);
    }
}

/// A definition can survive the first pass only where one starts one or two tokens
/// after a `Define` token.
pub open spec fn definitions_apart(ts: Seq<TokenModel>) -> bool {
    forall|i: int| 0 <= i < ts.len() && ts[i].kind == TokenType::Define ==> (#[trigger] op_def_at(
        ts,
        i + 1,
    )) is None && op_def_at(ts, i + 2) is None
}

/// The first pass leaves no operator definition in its output, provided no definition
/// starts one or two tokens after a `Define` token (where one does, the `Define` before
/// it can join the tokens after it into a new definition).
pub proof fn lemma_no_definition_left(ts: Seq<TokenModel>, p: int)
    requires
        definitions_apart(ts),
        0 <= p,
    ensures
        op_def_at(pass_from(ts, 0).0, p) is None,
{
    lemma_none_left_from(ts, 0, p);
}

proof fn lemma_none_left_from(ts: Seq<TokenModel>, i: int, p: int)
    requires
        definitions_apart(ts),
        0 <= i,
        0 <= p,
    ensures
        op_def_at(pass_from(ts, i).0, p) is None,
    decreases ts.len() - i, p,
{
    let out = pass_from(ts, i).0;
    if i >= ts.len() {
        return;
    }
    if op_def_at(ts, i) is Some {
        let j = end_after(ts, i + 1);
        lemma_find_kind(ts, i + 1, TokenType::EndOfAssign);
        lemma_none_left_from(ts, j, p);
        return;
    }
    let rest = pass_from(ts, i + 1).0;
    assert(out == seq![ts[i]] + rest);
    if p > out.len() {
        return;
    }
    if p >= 1 {
        lemma_none_left_from(ts, i + 1, p - 1);
        lemma_op_def_shift(out, p);
        lemma_op_def_shift(rest, p - 1);
        assert(out.skip(p) =~= rest.skip(p - 1));
        return;
    }
    if ts[i].kind != TokenType::Define {
        return;
    }
    // a kept `Define` at `i`: the next two tokens are kept as well
    if i + 2 < ts.len() && ts[i + 1].kind == TokenType::BinaryOperator && ts[i + 2].kind
        == TokenType::Assign && text_of(ts[i + 1]) is Some {
        assert forall|r: int| i <= r < ts.len() implies (#[trigger] op_def_at(ts, r)) is None by {
            if r > i {
                lemma_no_later_definition(ts, i, r);
            }
        }
        lemma_pass_keeps_all(ts, i);
        lemma_op_def_shift(ts, i);
        assert(out == ts.skip(i));
    } else {
        assert(op_def_at(ts, i + 1) is None && op_def_at(ts, i + 2) is None);
        if i + 1 < ts.len() {
            let r2 = pass_from(ts, i + 2).0;
            assert(rest == seq![ts[i + 1]] + r2);
            if i + 2 < ts.len() {
                assert(r2 == seq![ts[i + 2]] + pass_from(ts, i + 3).0);
                assert(out[1] == ts[i + 1] && out[2] == ts[i + 2]);
            } else {
                assert(r2 =~= seq![]);
                assert(out.len() == 2);
            }
        } else {
            assert(rest =~= seq![]);
        }
    }
}

} // verus!
