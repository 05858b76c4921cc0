use vstd::prelude::*;

verus! {

/// The closed set of token kinds.
#[derive(Debug, Clone, Copy, PartialEq, Eq, Structural)]
pub enum TokenType {
    Define, Assign, EndOfAssign,
    If, Else, ElseIf,
    For, While, Break,
    Import, ImportAll,
    BinaryOperator,
    LeftParen, RightParen,
    Variable, Const, String, Comma,
    Indent, Dedent, Newline, LeftCurly, RightCurly,
    EOF, Continue, Yield, Try, Catch,
    Comment, BlockCommentStart, BlockCommentEnd,
}

/// The payload a token may carry.
#[derive(Debug, PartialEq, Eq)]
pub enum TokenValue {
    Char(char),
    Str(String),
    Num(usize),
}

/// A token: its kind and an optional payload.
#[derive(Debug, PartialEq, Eq)]
pub struct Token {
    pub _type: TokenType,
    pub value: Option<TokenValue>,
}

/// Mathematical model of a token payload.
pub enum ValueModel {
    Char(char),
    Str(Seq<char>),
    Num(nat),
}

/// Mathematical model of a token.
pub struct TokenModel {
    pub kind: TokenType,
    pub value: Option<ValueModel>,
}

impl View for TokenValue {
    type V = ValueModel;

    open spec fn view(&self) -> ValueModel {
        match self {
            TokenValue::Char(c) => ValueModel::Char(*c),
            TokenValue::Str(s) => ValueModel::Str(s@),
            TokenValue::Num(n) => ValueModel::Num(*n as nat),
        }
    }
}

pub open spec fn value_model(v: Option<TokenValue>) -> Option<ValueModel> {
    match v {
        Some(x) => Some(x@),
        None => None,
    }
}

impl View for Token {
    type V = TokenModel;

    open spec fn view(&self) -> TokenModel {
        TokenModel { kind: self._type, value: value_model(self.value) }
    }
}

/// The models of a sequence of tokens.
pub open spec fn tokens_model(v: Seq<Token>) -> Seq<TokenModel> {
    v.map_values(|t: Token| t@)
}

impl Clone for TokenValue {
    fn clone(&self) -> (r: Self)
        ensures
            r@ == self@,
    {
        match self {
            TokenValue::Char(c) => TokenValue::Char(*c),
            TokenValue::Str(s) => TokenValue::Str(s.clone()),
            TokenValue::Num(n) => TokenValue::Num(*n),
        }
    }
}

impl Clone for Token {
    fn clone(&self) -> (r: Self)
        ensures
            r@ == self@,
    {
        let value = match &self.value {
            Some(v) => Some(v.clone()),
            None => None,
        };
        Token { _type: self._type, value }
    }
}

impl Token {
    pub fn new(_type: TokenType, value: Option<TokenValue>) -> (r: Self)
        ensures
            r._type == _type,
            r.value == value,
    {
        Token { _type, value }
    }
}

/// Relies on String::push: the character is appended at the end.
pub assume_specification[ std::string::String::push ](s: &mut std::string::String, ch: char)
    ensures
        final(s)@ == old(s)@.push(ch),
;

// ---------------------------------------------------------------------------
// Character classes

/// Characters that make up operator lexemes.
pub open spec fn is_op_char(c: char) -> bool {
    c == '^' || c == '*' || c == '/' || c == '+' || c == '-' || c == '<' || c == '>' || c == '='
        || c == '≥' || c == '≤'
}

/// `[A-Za-z0-9_]`.
pub open spec fn is_ident_char(c: char) -> bool {
    ('a' <= c && c <= 'z') || ('A' <= c && c <= 'Z') || ('0' <= c && c <= '9') || c == '_'
}

/// The Unicode `White_Space` property.
pub open spec fn is_white(c: char) -> bool {
    ('\u{9}' <= c && c <= '\u{d}') || c == ' ' || c == '\u{85}' || c == '\u{a0}'
        || c == '\u{1680}' || ('\u{2000}' <= c && c <= '\u{200a}') || c == '\u{2028}'
        || c == '\u{2029}' || c == '\u{202f}' || c == '\u{205f}' || c == '\u{3000}'
}

/// Characters that end a generic word.
pub open spec fn is_word_stop(c: char) -> bool {
    is_white(c) || c == '(' || c == ')' || c == '{' || c == '}' || c == ',' || c == '+' || c == '-'
        || c == '*' || c == '/' || c == '$' || c == '£'
}

/// The classes of characters the scanner takes runs of.
#[derive(Clone, Copy, PartialEq, Eq, Structural)]
pub enum CharClass {
    Operator,
    Ident,
    Indentation,
    Word,
    NotNewline,
    LetterS,
    Blank,
}

pub open spec fn in_class(c: char, k: CharClass) -> bool {
    match k {
        CharClass::Operator => is_op_char(c),
        CharClass::Ident => is_ident_char(c),
        CharClass::Indentation => c == ' ' || c == '\t' || c == '\r',
        CharClass::Word => !is_word_stop(c),
        CharClass::NotNewline => c != '\n',
        CharClass::LetterS => c == 's',
        CharClass::Blank => c == ' ' || c == '\t',
    }
}

/// Length of the maximal run of characters of class `k` starting at `i`.
pub open spec fn run(s: Seq<char>, i: int, k: CharClass) -> nat
    decreases s.len() - i,
{
    if 0 <= i < s.len() && in_class(s[i], k) {
        1 + run(s, i + 1, k)
    } else {
        0
    }
}

/// Width of one indentation character: space 1, tab 4, carriage return 0.
pub open spec fn indent_weight(c: char) -> nat {
    if c == ' ' {
        1
    } else if c == '\t' {
        4
    } else {
        0
    }
}

/// Total indentation width of `s[i..j]`.
pub open spec fn indent_width(s: Seq<char>, i: int, j: int) -> nat
    decreases j - i,
{
    if j <= i {
        0
    } else {
        indent_width(s, i, j - 1) + indent_weight(s[j - 1])
    }
}

// ---------------------------------------------------------------------------
// Keyword table

/// The keyword phrases, longest first.
pub open spec fn keywords() -> Seq<(Seq<char>, TokenType)> {
    seq![
        ("I would love to own a plot of land in the 1800s called"@, TokenType::Define),
        ("sir, would there happen to be any extension work?"@, TokenType::Try),
        ("jump off the bandwagon"@, TokenType::Break),
        ("get back to work boy"@, TokenType::Continue),
        ("and lease it to"@, TokenType::Assign),
        ("sweet but stout"@, TokenType::ElseIf),
        ("yay, homework!"@, TokenType::Catch),
        ("europe ->"@, TokenType::Comment),
        ("American"@, TokenType::ImportAll),
        ("asia ->"@, TokenType::BlockCommentStart),
        ("<- asia"@, TokenType::BlockCommentEnd),
        ("owners"@, TokenType::EndOfAssign),
        ("scammy"@, TokenType::Import),
        ("lolsie"@, TokenType::For),
        ("anywho"@, TokenType::Yield),
        ("sweet"@, TokenType::If),
        ("stout"@, TokenType::Else),
        ("yarp'"@, TokenType::While),
    ]
}

/// The terminator of a block comment.
pub open spec fn block_comment_end() -> Seq<char> {
    "<- asia"@
}

/// `w` occurs in `s` at offset `i`.
pub open spec fn occurs_at(s: Seq<char>, i: int, w: Seq<char>) -> bool {
    0 <= i && i + w.len() <= s.len() && s.subrange(i, i + w.len()) == w
}

/// Index of the first keyword from table entry `k` on that occurs at `i`.
pub open spec fn keyword_from(s: Seq<char>, i: int, k: int) -> Option<int>
    decreases keywords().len() - k,
{
    if k < 0 || k >= keywords().len() {
        None
    } else if occurs_at(s, i, keywords()[k].0) {
        Some(k)
    } else {
        keyword_from(s, i, k + 1)
    }
}

/// Index of the keyword recognized at `i`, searching the table longest first.
pub open spec fn keyword_at(s: Seq<char>, i: int) -> Option<int> {
    keyword_from(s, i, 0)
}

/// First offset at or after `i` where `w` occurs, or `s.len()` when there is none.
pub open spec fn find_from(s: Seq<char>, i: int, w: Seq<char>) -> int
    decreases s.len() - i,
{
    if i >= s.len() {
        s.len() as int
    } else if occurs_at(s, i, w) {
        i
    } else {
        find_from(s, i + 1, w)
    }
}

// ---------------------------------------------------------------------------
// Scanner model

pub open spec fn str_token(kind: TokenType, s: Seq<char>) -> TokenModel {
    TokenModel { kind, value: Some(ValueModel::Str(s)) }
}

pub open spec fn char_token(kind: TokenType, c: char) -> TokenModel {
    TokenModel { kind, value: Some(ValueModel::Char(c)) }
}

pub open spec fn dedent_token() -> TokenModel {
    str_token(TokenType::Dedent, "DEDENT"@)
}

pub open spec fn eof_token() -> TokenModel {
    str_token(TokenType::EOF, "EOF"@)
}

/// Number of levels popped off `stack` for a line of width `w`.
pub open spec fn pops(w: nat, stack: Seq<nat>) -> nat
    decreases stack.len(),
{
    if stack.len() > 0 && w < stack.last() {
        1 + pops(w, stack.drop_last())
    } else {
        0
    }
}

/// Tokens emitted, and the new stack, for a line of indentation width `w`.
pub open spec fn indent_step(w: nat, stack: Seq<nat>) -> (Seq<TokenModel>, Seq<nat>) {
    if stack.len() > 0 && w > stack.last() {
        (seq![str_token(TokenType::Indent, "INDENT"@)], stack.push(w))
    } else {
        let n = pops(w, stack);
        (Seq::new(n, |k: int| dedent_token()), stack.subrange(0, stack.len() - n))
    }
}

/// The single-character punctuation token for `c`, if `c` is punctuation.
pub open spec fn punct_kind(c: char) -> Option<TokenType> {
    if c == '(' {
        Some(TokenType::LeftParen)
    } else if c == ')' {
        Some(TokenType::RightParen)
    } else if c == '{' {
        Some(TokenType::LeftCurly)
    } else if c == '}' {
        Some(TokenType::RightCurly)
    } else if c == ',' {
        Some(TokenType::Comma)
    } else {
        None
    }
}

/// Tokens and next offset for the keyword with table index `k` found at `i`.
/// A line comment holds the rest of its line after the blanks that follow the phrase;
/// a block comment holds everything up to its terminator (or to the end of the input),
/// and is followed by a `BlockCommentEnd` token; `for` counts the `s` characters after
/// its phrase; every other keyword carries its phrase.
pub open spec fn keyword_step(s: Seq<char>, i: int, k: int) -> (Seq<TokenModel>, int) {
    let w = keywords()[k].0;
    let kind = keywords()[k].1;
    let a = i + w.len();
    if kind == TokenType::Comment {
        let b = a + run(s, a, CharClass::Blank);
        let e = b + run(s, b, CharClass::NotNewline);
        (seq![str_token(kind, s.subrange(b, e))], e)
    } else if kind == TokenType::BlockCommentStart {
        let e = find_from(s, a, block_comment_end());
        let next = if e < s.len() { e + block_comment_end().len() } else { s.len() as int };
        (
            seq![
                str_token(kind, s.subrange(a, e)),
                TokenModel { kind: TokenType::BlockCommentEnd, value: None },
            ],
            next,
        )
    } else if kind == TokenType::For {
        let n = run(s, a, CharClass::LetterS);
        (seq![TokenModel { kind, value: Some(ValueModel::Num(n)) }], a + n)
    } else {
        (seq![str_token(kind, w)], a)
    }
}

/// One step of the scanner at offset `i` (with `i < s.len()`): the tokens it emits,
/// the offset it continues from and the new indentation stack. A newline measures the
/// indentation of the next line against the stack; blanks are skipped; punctuation,
/// operator runs, `$` constants and `£`/`€` variables come next; then keywords; any
/// other character starts a word that runs up to a blank or a delimiter.
pub open spec fn step(s: Seq<char>, i: int, stack: Seq<nat>) -> (Seq<TokenModel>, int, Seq<nat>) {
    let c = s[i];
    if c == '\n' {
        let j = i + 1 + run(s, i + 1, CharClass::Indentation);
        let st = indent_step(indent_width(s, i + 1, j), stack);
        (seq![str_token(TokenType::Newline, "\\n"@)] + st.0, j, st.1)
    } else if c == ' ' || c == '\t' || c == '\r' {
        (seq![], i + 1, stack)
    } else if punct_kind(c) is Some {
        (seq![char_token(punct_kind(c)->0, c)], i + 1, stack)
    } else if is_op_char(c) {
        let j = i + run(s, i, CharClass::Operator);
        (seq![str_token(TokenType::BinaryOperator, s.subrange(i, j))], j, stack)
    } else if c == '$' || c == '£' || c == '€' {
        let kind = if c == '$' { TokenType::Const } else { TokenType::Variable };
        let j = i + 1 + run(s, i + 1, CharClass::Ident);
        (seq![str_token(kind, s.subrange(i + 1, j))], j, stack)
    } else if keyword_at(s, i) is Some {
        let r = keyword_step(s, i, keyword_at(s, i)->0);
        (r.0, r.1, stack)
    } else {
        let j = i + 1 + run(s, i + 1, CharClass::Word);
        (seq![str_token(TokenType::String, s.subrange(i, j))], j, stack)
    }
}

/// The tokens of `s` from offset `i` on, with indentation stack `stack`.
pub open spec fn scan(s: Seq<char>, i: int, stack: Seq<nat>) -> Seq<TokenModel>
    decreases s.len() - i,
{
    if i < 0 || i >= s.len() {
        seq![eof_token()]
    } else {
        let r = step(s, i, stack);
        if i < r.1 <= s.len() {
            r.0 + scan(s, r.1, r.2)
        } else {
            r.0
        }
    }
}

/// The indentation stack left when scanning `s` from offset `i` ends.
pub open spec fn final_stack(s: Seq<char>, i: int, stack: Seq<nat>) -> Seq<nat>
    decreases s.len() - i,
{
    if i < 0 || i >= s.len() {
        stack
    } else {
        let r = step(s, i, stack);
        if i < r.1 <= s.len() {
            final_stack(s, r.1, r.2)
        } else {
            stack
        }
    }
}

/// The tokens of a whole source.
pub open spec fn lex(s: Seq<char>) -> Seq<TokenModel> {
    scan(s, 0, seq![0nat])
}

// ---------------------------------------------------------------------------
// Scanner

/// The model of an indentation stack.
pub open spec fn stack_model(v: Seq<u128>) -> Seq<nat> {
    v.map_values(|x: u128| x as nat)
}

pub(crate) fn chars_of(s: &str) -> (r: Vec<char>)
    ensures
        r@ == s@,
{
    let mut out: Vec<char> = Vec::new();
    for c in it: s.chars()
        invariant
            out@ == it.seq().subrange(0, it.index() as int),
    {
        out.push(c);
    }
    proof {
        assert(out@ =~= s@);
    }
    out
}

fn class_has(c: char, k: CharClass) -> (r: bool)
    ensures
        r == in_class(c, k),
{
    match k {
        CharClass::Operator => c == '^' || c == '*' || c == '/' || c == '+' || c == '-' || c == '<'
            || c == '>' || c == '=' || c == '≥' || c == '≤',
        CharClass::Ident => ('a' <= c && c <= 'z') || ('A' <= c && c <= 'Z') || ('0' <= c && c
            <= '9') || c == '_',
        CharClass::Indentation => c == ' ' || c == '\t' || c == '\r',
        CharClass::Word => {
            let white = ('\u{9}' <= c && c <= '\u{d}') || c == ' ' || c == '\u{85}' || c
                == '\u{a0}' || c == '\u{1680}' || ('\u{2000}' <= c && c <= '\u{200a}') || c
                == '\u{2028}' || c == '\u{2029}' || c == '\u{202f}' || c == '\u{205f}' || c
                == '\u{3000}';
            !(white || c == '(' || c == ')' || c == '{' || c == '}' || c == ',' || c == '+' || c
                == '-' || c == '*' || c == '/' || c == '$' || c == '£')
        },
        CharClass::NotNewline => c != '\n',
        CharClass::LetterS => c == 's',
        CharClass::Blank => c == ' ' || c == '\t',
    }
}

/// End of the maximal run of class `k` that starts at `i`.
fn run_end(s: &Vec<char>, i: usize, k: CharClass) -> (j: usize)
    requires
        i <= s.len(),
    ensures
        j == i + run(s@, i as int, k),
        j <= s.len(),
{
    let mut j = i;
    while j < s.len() && class_has(s[j], k)
        invariant
            i <= j <= s.len(),
            i + run(s@, i as int, k) == j + run(s@, j as int, k),
        decreases s.len() - j,
    {
        j = j + 1;
    }
    j
}

/// The characters `s[a..b]` as a string.
fn substring(s: &Vec<char>, a: usize, b: usize) -> (r: String)
    requires
        a <= b <= s.len(),
    ensures
        r@ == s@.subrange(a as int, b as int),
{
    let mut r = String::new();
    let mut k = a;
    while k < b
        invariant
            a <= k <= b <= s.len(),
            r@ == s@.subrange(a as int, k as int),
        decreases b - k,
    {
        r.push(s[k]);
        proof {
            assert(r@ =~= s@.subrange(a as int, k + 1));
        }
        k = k + 1;
    }
    r
}

fn str_value(s: String) -> (r: Option<TokenValue>)
    ensures
        value_model(r) == Some(ValueModel::Str(s@)),
{
    Some(TokenValue::Str(s))
}

/// The keyword table, as characters.
fn keyword_table() -> (r: Vec<(Vec<char>, TokenType)>)
    ensures
        r.len() == keywords().len(),
        forall|k: int| 0 <= k < r.len() ==> (#[trigger] r[k]).0@ == keywords()[k].0 && r[k].1
            == keywords()[k].1,
{
    let mut r: Vec<(Vec<char>, TokenType)> = Vec::new();
    r.push((chars_of("I would love to own a plot of land in the 1800s called"), TokenType::Define));
    r.push((chars_of("sir, would there happen to be any extension work?"), TokenType::Try));
    r.push((chars_of("jump off the bandwagon"), TokenType::Break));
    r.push((chars_of("get back to work boy"), TokenType::Continue));
    r.push((chars_of("and lease it to"), TokenType::Assign));
    r.push((chars_of("sweet but stout"), TokenType::ElseIf));
    r.push((chars_of("yay, homework!"), TokenType::Catch));
    r.push((chars_of("europe ->"), TokenType::Comment));
    r.push((chars_of("American"), TokenType::ImportAll));
    r.push((chars_of("asia ->"), TokenType::BlockCommentStart));
    r.push((chars_of("<- asia"), TokenType::BlockCommentEnd));
    r.push((chars_of("owners"), TokenType::EndOfAssign));
    r.push((chars_of("scammy"), TokenType::Import));
    r.push((chars_of("lolsie"), TokenType::For));
    r.push((chars_of("anywho"), TokenType::Yield));
    r.push((chars_of("sweet"), TokenType::If));
    r.push((chars_of("stout"), TokenType::Else));
    r.push((chars_of("yarp'"), TokenType::While));
    r
}

/// Whether `w` occurs in `s` at offset `i`.
fn occurs(s: &Vec<char>, i: usize, w: &Vec<char>) -> (r: bool)
    requires
        i <= s.len(),
    ensures
        r == occurs_at(s@, i as int, w@),
{
    if w.len() > s.len() - i {
        return false;
    }
    let mut k: usize = 0;
    while k < w.len()
        invariant
            k <= w.len(),
            i + w.len() <= s.len(),
            forall|m: int| 0 <= m < k ==> s@[i + m] == w@[m],
        decreases w.len() - k,
    {
        if s[i + k] != w[k] {
            proof {
                assert(s@.subrange(i as int, i + w.len())[k as int] != w@[k as int]);
            }
            return false;
        }
        k = k + 1;
    }
    proof {
        assert(s@.subrange(i as int, i + w.len()) =~= w@);
    }
    true
}

/// The table index of the keyword recognized at `i`.
fn find_keyword(table: &Vec<(Vec<char>, TokenType)>, s: &Vec<char>, i: usize) -> (r: Option<usize>)
    requires
        i <= s.len(),
        table.len() == keywords().len(),
        forall|k: int| 0 <= k < table.len() ==> (#[trigger] table[k]).0@ == keywords()[k].0,
    ensures
        r matches Some(k) ==> keyword_at(s@, i as int) == Some(k as int),
        r is None ==> keyword_at(s@, i as int) is None,
{
    let mut k: usize = 0;
    while k < table.len()
        invariant
            k <= table.len() == keywords().len(),
            i <= s.len(),
            forall|m: int| 0 <= m < table.len() ==> (#[trigger] table[m]).0@ == keywords()[m].0,
            keyword_at(s@, i as int) == keyword_from(s@, i as int, k as int),
        decreases table.len() - k,
    {
        if occurs(s, i, &table[k].0) {
            return Some(k);
        }
        k = k + 1;
    }
    None
}

/// First offset at or after `a` where `w` occurs, or `s.len()`.
fn find_text(s: &Vec<char>, a: usize, w: &Vec<char>) -> (r: usize)
    requires
        a <= s.len(),
    ensures
        r == find_from(s@, a as int, w@),
        a <= r <= s.len(),
{
    let mut j = a;
    while j < s.len()
        invariant
            a <= j <= s.len(),
            find_from(s@, a as int, w@) == find_from(s@, j as int, w@),
        decreases s.len() - j,
    {
        if occurs(s, j, w) {
            return j;
        }
        j = j + 1;
    }
    j
}

/// Indentation width of `s[a..b]`.
fn measure_indent(s: &Vec<char>, a: usize, b: usize) -> (r: u128)
    requires
        a <= b <= s.len(),
    ensures
        r == indent_width(s@, a as int, b as int),
{
    let mut w: u128 = 0;
    let mut k = a;
    while k < b
        invariant
            a <= k <= b <= s.len(),
            w == indent_width(s@, a as int, k as int),
            w <= 4 * (k - a),
        decreases b - k,
    {
        let c = s[k];
        if c == ' ' {
            w = w + 1;
        } else if c == '\t' {
            w = w + 4;
        }
        k = k + 1;
    }
    w
}

/// Appends one token.
fn emit(out: &mut Vec<Token>, t: Token)
    ensures
        tokens_model(final(out)@) == tokens_model(old(out)@).push(t@),
{
    out.push(t);
    proof {
        assert(tokens_model(out@) =~= tokens_model(old(out)@).push(t@));
    }
}

/// Updates the indentation stack for a line of width `w`, emitting Indent or Dedent tokens.
fn indent_update(stack: &mut Vec<u128>, w: u128, out: &mut Vec<Token>)
    requires
        old(stack).len() >= 1,
        old(stack)[0] == 0,
    ensures
        final(stack).len() >= 1,
        final(stack)[0] == 0,
        tokens_model(final(out)@) == tokens_model(old(out)@) + indent_step(
            w as nat,
            stack_model(old(stack)@),
        ).0,
        stack_model(final(stack)@) == indent_step(w as nat, stack_model(old(stack)@)).1,
{
    let ghost st0 = stack_model(stack@);
    let ghost out0 = tokens_model(out@);
    let top = stack[stack.len() - 1];
    if w > top {
        stack.push(w);
        emit(out, Token::new(TokenType::Indent, str_value(String::from_str("INDENT"))));
        proof {
            assert(stack_model(stack@) =~= st0.push(w as nat));
            assert(tokens_model(out@) =~= out0 + indent_step(w as nat, st0).0);
        }
        return;
    }
    let ghost n = pops(w as nat, st0);
    assert(st0.len() == stack.len());
    let mut k: usize = 0;
    while w < stack[stack.len() - 1]
        invariant
            stack.len() >= 1,
            stack[0] == 0,
            k <= st0.len() <= usize::MAX,
            stack.len() == st0.len() - k,
            stack_model(stack@) == st0.subrange(0, st0.len() - k),
            n == k + pops(w as nat, stack_model(stack@)),
            tokens_model(out@) == out0 + Seq::new(k as nat, |m: int| dedent_token()),
        decreases stack.len(),
    {
        let ghost before = stack_model(stack@);
        proof {
            assert(stack.len() >= 2);
            assert(before.last() == stack[stack.len() - 1] as nat);
            assert(before.drop_last() =~= st0.subrange(0, st0.len() - k - 1));
        }
        stack.pop();
        proof {
            assert(stack_model(stack@) =~= before.drop_last());
        }
        emit(out, Token::new(TokenType::Dedent, str_value(String::from_str("DEDENT"))));
        proof {
            assert(tokens_model(out@) =~= out0 + Seq::new((k + 1) as nat, |m: int| dedent_token()));
            assert(k + 1 <= st0.len());
        }
        k = k + 1;
    }
    proof {
        let cur = stack_model(stack@);
        assert(cur.last() == stack[stack.len() - 1] as nat);
        assert(pops(w as nat, cur) == 0);
    }
}

/// The lengths of the keyword phrases, in table order.
pub open spec fn keyword_lengths() -> Seq<nat> {
    seq![54nat, 49, 22, 20, 15, 15, 14, 9, 8, 7, 7, 6, 6, 6, 6, 5, 5, 5]
}

proof fn lemma_keyword_lengths()
    ensures
        keywords().len() == keyword_lengths().len(),
        forall|k: int| 0 <= k < keywords().len() ==> #[trigger] keywords()[k].0.len() == keyword_lengths()[k],
        block_comment_end().len() == 7,
{
    reveal_strlit("I would love to own a plot of land in the 1800s called");
    reveal_strlit("sir, would there happen to be any extension work?");
    reveal_strlit("jump off the bandwagon");
    reveal_strlit("get back to work boy");
    reveal_strlit("and lease it to");
    reveal_strlit("sweet but stout");
    reveal_strlit("yay, homework!");
    reveal_strlit("europe ->");
    reveal_strlit("American");
    reveal_strlit("asia ->");
    reveal_strlit("<- asia");
    reveal_strlit("owners");
    reveal_strlit("scammy");
    reveal_strlit("lolsie");
    reveal_strlit("anywho");
    reveal_strlit("sweet");
    reveal_strlit("stout");
    reveal_strlit("yarp'");
}

proof fn lemma_find_from(s: Seq<char>, i: int, w: Seq<char>)
    requires
        0 <= i,
    ensures
        i <= find_from(s, i, w) || i >= s.len(),
        find_from(s, i, w) <= s.len(),
        find_from(s, i, w) < s.len() ==> occurs_at(s, find_from(s, i, w), w),
    decreases s.len() - i,
{
    if i < s.len() && !occurs_at(s, i, w) {
        lemma_find_from(s, i + 1, w);
    }
}

fn punct_of(c: char) -> (r: Option<TokenType>)
    ensures
        r == punct_kind(c),
{
    if c == '(' {
        Some(TokenType::LeftParen)
    } else if c == ')' {
        Some(TokenType::RightParen)
    } else if c == '{' {
        Some(TokenType::LeftCurly)
    } else if c == '}' {
        Some(TokenType::RightCurly)
    } else if c == ',' {
        Some(TokenType::Comma)
    } else {
        None
    }
}

/// Emits the tokens for the keyword with table index `k` found at `i`.
fn keyword_emit(
    s: &Vec<char>,
    i: usize,
    table: &Vec<(Vec<char>, TokenType)>,
    k: usize,
    out: &mut Vec<Token>,
) -> (j: usize)
    requires
        i < s.len(),
        table.len() == keywords().len(),
        forall|m: int| 0 <= m < table.len() ==> (#[trigger] table[m]).0@ == keywords()[m].0 && table[m].1
            == keywords()[m].1,
        keyword_at(s@, i as int) == Some(k as int),
    ensures
        tokens_model(final(out)@) == tokens_model(old(out)@) + keyword_step(s@, i as int, k as int).0,
        j == keyword_step(s@, i as int, k as int).1,
        i < j <= s.len(),
{
    proof {
        lemma_keyword_lengths();
        lemma_keyword_from(s@, i as int, 0);
    }
    let ghost out0 = tokens_model(out@);
    let w = &table[k].0;
    let kind = table[k].1;
    let a = i + w.len();
    match kind {
        TokenType::Comment => {
            let b = run_end(s, a, CharClass::Blank);
            let e = run_end(s, b, CharClass::NotNewline);
            emit(out, Token::new(kind, str_value(substring(s, b, e))));
            proof {
                assert(tokens_model(out@) =~= out0 + keyword_step(s@, i as int, k as int).0);
            }
            e
        },
        TokenType::BlockCommentStart => {
            let term = chars_of("<- asia");
            let e = find_text(s, a, &term);
            proof {
                lemma_find_from(s@, a as int, term@);
            }
            emit(out, Token::new(kind, str_value(substring(s, a, e))));
            emit(out, Token::new(TokenType::BlockCommentEnd, None));
            proof {
                assert(tokens_model(out@) =~= out0 + keyword_step(s@, i as int, k as int).0);
            }
            if e < s.len() {
                e + term.len()
            } else {
                s.len()
            }
        },
        TokenType::For => {
            let e = run_end(s, a, CharClass::LetterS);
            emit(out, Token::new(kind, Some(TokenValue::Num(e - a))));
            proof {
                assert(tokens_model(out@) =~= out0 + keyword_step(s@, i as int, k as int).0);
            }
            e
        },
        _ => {
            emit(out, Token::new(kind, str_value(substring(w, 0, w.len()))));
            proof {
                assert(w@.subrange(0, w@.len() as int) =~= w@);
                assert(tokens_model(out@) =~= out0 + keyword_step(s@, i as int, k as int).0);
            }
            a
        },
    }
}

proof fn lemma_keyword_from(s: Seq<char>, i: int, k: int)
    requires
        0 <= k,
    ensures
        keyword_from(s, i, k) matches Some(m) ==> k <= m < keywords().len() && occurs_at(
            s,
            i,
            keywords()[m].0,
        ) && forall|p: int| k <= p < m ==> !occurs_at(s, i, #[trigger] keywords()[p].0),
    decreases keywords().len() - k,
{
    if k < keywords().len() && !occurs_at(s, i, keywords()[k].0) {
        lemma_keyword_from(s, i, k + 1);
    }
}

/// One scanner step at offset `i`: emits the tokens of `step` and returns the offset
/// it continues from.
fn scan_step(
    s: &Vec<char>,
    i: usize,
    table: &Vec<(Vec<char>, TokenType)>,
    stack: &mut Vec<u128>,
    out: &mut Vec<Token>,
) -> (j: usize)
    requires
        i < s.len(),
        table.len() == keywords().len(),
        forall|m: int| 0 <= m < table.len() ==> (#[trigger] table[m]).0@ == keywords()[m].0 && table[m].1
            == keywords()[m].1,
        old(stack).len() >= 1,
        old(stack)[0] == 0,
    ensures
        final(stack).len() >= 1,
        final(stack)[0] == 0,
        i < j <= s.len(),
        tokens_model(final(out)@) == tokens_model(old(out)@) + step(
            s@,
            i as int,
            stack_model(old(stack)@),
        ).0,
        j == step(s@, i as int, stack_model(old(stack)@)).1,
        stack_model(final(stack)@) == step(s@, i as int, stack_model(old(stack)@)).2,
{
    let ghost out0 = tokens_model(out@);
    let ghost st0 = stack_model(stack@);
    let c = s[i];
    if c == '\n' {
        emit(out, Token::new(TokenType::Newline, str_value(String::from_str("\\n"))));
        let ghost out1 = tokens_model(out@);
        let j = run_end(s, i + 1, CharClass::Indentation);
        let w = measure_indent(s, i + 1, j);
        indent_update(stack, w, out);
        proof {
            assert(tokens_model(out@) =~= out0 + step(s@, i as int, st0).0);
        }
        return j;
    }
    if c == ' ' || c == '\t' || c == '\r' {
        proof {
            assert(tokens_model(out@) =~= out0 + step(s@, i as int, st0).0);
        }
        return i + 1;
    }
    if let Some(kind) = punct_of(c) {
        emit(out, Token::new(kind, Some(TokenValue::Char(c))));
        proof {
            assert(tokens_model(out@) =~= out0 + step(s@, i as int, st0).0);
        }
        return i + 1;
    }
    if class_has(c, CharClass::Operator) {
        let j = run_end(s, i, CharClass::Operator);
        emit(out, Token::new(TokenType::BinaryOperator, str_value(substring(s, i, j))));
        proof {
            assert(tokens_model(out@) =~= out0 + step(s@, i as int, st0).0);
        }
        return j;
    }
    if c == '$' || c == '£' || c == '€' {
        let kind = if c == '$' {
            TokenType::Const
        } else {
            TokenType::Variable
        };
        let j = run_end(s, i + 1, CharClass::Ident);
        emit(out, Token::new(kind, str_value(substring(s, i + 1, j))));
        proof {
            assert(tokens_model(out@) =~= out0 + step(s@, i as int, st0).0);
        }
        return j;
    }
    match find_keyword(table, s, i) {
        Some(k) => keyword_emit(s, i, table, k, out),
        None => {
            let j = run_end(s, i + 1, CharClass::Word);
            emit(out, Token::new(TokenType::String, str_value(substring(s, i, j))));
            proof {
                assert(tokens_model(out@) =~= out0 + step(s@, i as int, st0).0);
            }
            j
        },
    }
}

/// Turns source text into tokens, ending with a single `EOF` token.
pub fn tokenize(src: &String) -> (r: Vec<Token>)
    ensures
        tokens_model(r@) == lex(src@),
        r.len() > 0,
        r[r.len() - 1]._type == TokenType::EOF,
        forall|k: int| 0 <= k < r.len() - 1 ==> #[trigger] r[k]._type != TokenType::EOF,
{
    let s = chars_of(src.as_str());
    let table = keyword_table();
    let mut out: Vec<Token> = Vec::new();
    let mut stack: Vec<u128> = Vec::new();
    stack.push(0);
    proof {
        assert(stack_model(stack@) =~= seq![0nat]);
        assert(tokens_model(out@) =~= seq![]);
        assert(lex(s@) =~= tokens_model(out@) + scan(s@, 0, stack_model(stack@)));
    }
    let mut i: usize = 0;
    while i < s.len()
        invariant
            s@ == src@,
            table.len() == keywords().len(),
            forall|m: int| 0 <= m < table.len() ==> (#[trigger] table[m]).0@ == keywords()[m].0
                && table[m].1 == keywords()[m].1,
            i <= s.len(),
            stack.len() >= 1,
            stack[0] == 0,
            lex(s@) == tokens_model(out@) + scan(s@, i as int, stack_model(stack@)),
        decreases s.len() - i,
    {
        let ghost out0 = tokens_model(out@);
        let ghost st0 = stack_model(stack@);
        let j = scan_step(&s, i, &table, &mut stack, &mut out);
        proof {
            let r = step(s@, i as int, st0);
            assert(scan(s@, i as int, st0) == r.0 + scan(s@, j as int, r.2));
            assert(out0 + (r.0 + scan(s@, j as int, r.2)) =~= (out0 + r.0) + scan(
                s@,
                j as int,
                r.2,
            ));
        }
        i = j;
    }
    let ghost out0 = tokens_model(out@);
    emit(&mut out, Token::new(TokenType::EOF, str_value(String::from_str("EOF"))));
    proof {
        assert(lex(s@) =~= tokens_model(out@));
        lemma_scan_ends_with_eof(s@, 0, seq![0nat]);
        assert(tokens_model(out@).len() == out.len());
        assert(tokens_model(out@)[out.len() - 1] == out[out.len() - 1]@);
        assert forall|k: int| 0 <= k < out.len() - 1 implies #[trigger] out[k]._type
            != TokenType::EOF by {
            let all = scan(s@, 0, seq![0nat]);
            assert(all == tokens_model(out@));
            assert(0 <= k < all.len() - 1);
            assert(all[k].kind != TokenType::EOF);
            assert(tokens_model(out@)[k] == out[k]@);
        }
    }
    out
}

/// A token that some step of the scanner emits is never `EOF`.
proof fn lemma_step_no_eof(s: Seq<char>, i: int, st: Seq<nat>)
    requires
        0 <= i < s.len(),
    ensures
        forall|k: int| 0 <= k < step(s, i, st).0.len() ==> #[trigger] step(s, i, st).0[k].kind
            != TokenType::EOF,
{
    lemma_keyword_kinds();
    lemma_keyword_from(s, i, 0);
    let r = step(s, i, st);
    if s[i] == '\n' {
        let j = i + 1 + run(s, i + 1, CharClass::Indentation);
        let w = indent_width(s, i + 1, j);
        assert forall|k: int| 0 <= k < r.0.len() implies #[trigger] r.0[k].kind != TokenType::EOF by {
            if k > 0 {
                assert(r.0[k] == indent_step(w, st).0[k - 1]);
            }
        }
    }
}

/// What the keyword table maps phrases to.
pub open spec fn keyword_kinds() -> Seq<TokenType> {
    seq![
        TokenType::Define, TokenType::Try, TokenType::Break, TokenType::Continue,
        TokenType::Assign, TokenType::ElseIf, TokenType::Catch, TokenType::Comment,
        TokenType::ImportAll, TokenType::BlockCommentStart, TokenType::BlockCommentEnd,
        TokenType::EndOfAssign, TokenType::Import, TokenType::For, TokenType::Yield,
        TokenType::If, TokenType::Else, TokenType::While,
    ]
}

proof fn lemma_keyword_kinds()
    ensures
        forall|k: int| 0 <= k < keywords().len() ==> #[trigger] keywords()[k].1 == keyword_kinds()[k],
        forall|k: int| 0 <= k < keywords().len() ==> {
            let kind = #[trigger] keywords()[k].1;
            kind != TokenType::EOF && kind != TokenType::Indent && kind != TokenType::Dedent
        },
{
    assert(keywords().len() == 18);
    assert forall|k: int| 0 <= k < keywords().len() implies #[trigger] keywords()[k].1
        == keyword_kinds()[k] by {
        let kw = keywords();
        assert(kw[0].1 == keyword_kinds()[0]);
        assert(kw[1].1 == keyword_kinds()[1]);
        assert(kw[2].1 == keyword_kinds()[2]);
        assert(kw[3].1 == keyword_kinds()[3]);
        assert(kw[4].1 == keyword_kinds()[4]);
        assert(kw[5].1 == keyword_kinds()[5]);
        assert(kw[6].1 == keyword_kinds()[6]);
        assert(kw[7].1 == keyword_kinds()[7]);
        assert(kw[8].1 == keyword_kinds()[8]);
        assert(kw[9].1 == keyword_kinds()[9]);
        assert(kw[10].1 == keyword_kinds()[10]);
        assert(kw[11].1 == keyword_kinds()[11]);
        assert(kw[12].1 == keyword_kinds()[12]);
        assert(kw[13].1 == keyword_kinds()[13]);
        assert(kw[14].1 == keyword_kinds()[14]);
        assert(kw[15].1 == keyword_kinds()[15]);
        assert(kw[16].1 == keyword_kinds()[16]);
        assert(kw[17].1 == keyword_kinds()[17]);
    }
}

/// Scanning from any offset yields a non-empty sequence whose only `EOF` is its last token.
proof fn lemma_scan_ends_with_eof(s: Seq<char>, i: int, st: Seq<nat>)
    ensures
        scan(s, i, st).len() > 0,
        scan(s, i, st).last() == eof_token(),
        forall|k: int| 0 <= k < scan(s, i, st).len() - 1 ==> #[trigger] scan(s, i, st)[k].kind
            != TokenType::EOF,
    decreases s.len() - i,
{
    if 0 <= i < s.len() {
        let r = step(s, i, st);
        if i < r.1 <= s.len() {
            lemma_scan_ends_with_eof(s, r.1, r.2);
            lemma_step_no_eof(s, i, st);
            let all = scan(s, i, st);
            assert(all == r.0 + scan(s, r.1, r.2));
            assert forall|k: int| 0 <= k < all.len() - 1 implies #[trigger] all[k].kind
                != TokenType::EOF by {
                if k < r.0.len() {
                    assert(all[k] == r.0[k]);
                } else {
                    assert(all[k] == scan(s, r.1, r.2)[k - r.0.len()]);
                }
            }
        } else {
            // every step makes progress, so this branch is never taken
            lemma_step_progress(s, i, st);
        }
    }
}

/// Every step of the scanner moves forward and stays within the source.
proof fn lemma_step_progress(s: Seq<char>, i: int, st: Seq<nat>)
    requires
        0 <= i < s.len(),
    ensures
        i < step(s, i, st).1 <= s.len(),
{
    lemma_run_bound(s, i, CharClass::Operator);
    lemma_run_bound(s, i + 1, CharClass::Indentation);
    lemma_run_bound(s, i + 1, CharClass::Ident);
    lemma_run_bound(s, i + 1, CharClass::Word);
    if keyword_at(s, i) is Some {
        let k = keyword_at(s, i)->0;
        lemma_keyword_from(s, i, 0);
        lemma_keyword_lengths();
        let a = i + keywords()[k].0.len();
        lemma_run_bound(s, a, CharClass::Blank);
        lemma_run_bound(s, a + run(s, a, CharClass::Blank), CharClass::NotNewline);
        lemma_run_bound(s, a, CharClass::LetterS);
        lemma_find_from(s, a, block_comment_end());
    }
}

proof fn lemma_run_bound(s: Seq<char>, i: int, k: CharClass)
    requires
        0 <= i <= s.len(),
    ensures
        i + run(s, i, k) <= s.len(),
    decreases s.len() - i,
{
    if i < s.len() && in_class(s[i], k) {
        lemma_run_bound(s, i + 1, k);
    }
}

// ---------------------------------------------------------------------------
// Laws of the scanner

proof fn lemma_keyword_lengths_descend()
    ensures
        forall|a: int, b: int| 0 <= a <= b < keywords().len() ==> #[trigger] keywords()[b].0.len()
            <= #[trigger] keywords()[a].0.len(),
{
    lemma_keyword_lengths();
    let l = keyword_lengths();
    assert forall|a: int| 0 <= a < 17 implies l[a + 1] <= #[trigger] l[a] by {
        assert(l[0] >= l[1] && l[1] >= l[2] && l[2] >= l[3] && l[3] >= l[4] && l[4] >= l[5]);
        assert(l[5] >= l[6] && l[6] >= l[7] && l[7] >= l[8] && l[8] >= l[9] && l[9] >= l[10]);
        assert(l[10] >= l[11] && l[11] >= l[12] && l[12] >= l[13] && l[13] >= l[14]);
        assert(l[14] >= l[15] && l[15] >= l[16] && l[16] >= l[17]);
    }
    assert forall|a: int, b: int| 0 <= a <= b < keywords().len() implies #[trigger] keywords()[b].0.len()
        <= #[trigger] keywords()[a].0.len() by {
        lemma_descend_from(l, a, b);
    }
}

proof fn lemma_descend_from(l: Seq<nat>, a: int, b: int)
    requires
        0 <= a <= b < l.len(),
        forall|c: int| 0 <= c < l.len() - 1 ==> l[c + 1] <= #[trigger] l[c],
    ensures
        l[b] <= l[a],
    decreases b - a,
{
    if a < b {
        lemma_descend_from(l, a + 1, b);
    }
}

/// Keywords match longest first: the phrase recognized at an offset is at least as
/// long as every other phrase of the table that occurs there.
pub proof fn lemma_longest_match(s: Seq<char>, i: int, m: int)
    requires
        keyword_at(s, i) is Some,
        0 <= m < keywords().len(),
        occurs_at(s, i, keywords()[m].0),
    ensures
        keywords()[m].0.len() <= keywords()[keyword_at(s, i)->0].0.len(),
{
    lemma_keyword_from(s, i, 0);
    lemma_keyword_lengths_descend();
}

/// A `for` keyword counts the `s` characters that follow it: where "lolsie" stands at
/// `i`, the scanner emits one `For` token whose number is the length of the run of `s`
/// after the phrase.
pub proof fn lemma_for_count(s: Seq<char>, i: int, st: Seq<nat>)
    requires
        occurs_at(s, i, "lolsie"@),
    ensures
        step(s, i, st).0 == seq![
            TokenModel {
                kind: TokenType::For,
                value: Some(ValueModel::Num(run(s, i + 6, CharClass::LetterS))),
            },
        ],
        step(s, i, st).1 == i + 6 + run(s, i + 6, CharClass::LetterS),
{
    reveal_strlit("lolsie");
    lemma_keyword_lengths();
    lemma_keyword_kinds();
    let kw = keywords();
    assert(s[i] == 'l') by {
        assert(s.subrange(i, i + 6)[0] == "lolsie"@[0]);
    }
    assert(kw[13].0 == "lolsie"@);
    reveal_strlit("I would love to own a plot of land in the 1800s called");
    reveal_strlit("sir, would there happen to be any extension work?");
    reveal_strlit("jump off the bandwagon");
    reveal_strlit("get back to work boy");
    reveal_strlit("and lease it to");
    reveal_strlit("sweet but stout");
    reveal_strlit("yay, homework!");
    reveal_strlit("europe ->");
    reveal_strlit("American");
    reveal_strlit("asia ->");
    reveal_strlit("<- asia");
    reveal_strlit("owners");
    reveal_strlit("scammy");
    assert forall|m: int| 0 <= m < 13 implies !occurs_at(s, i, #[trigger] kw[m].0) by {
        if occurs_at(s, i, kw[m].0) {
            assert(s.subrange(i, i + kw[m].0.len())[0] == kw[m].0[0]);
        }
        assert(kw[0].0[0] == 'I');
        assert(kw[1].0[0] == 's');
        assert(kw[2].0[0] == 'j');
        assert(kw[3].0[0] == 'g');
        assert(kw[4].0[0] == 'a');
        assert(kw[5].0[0] == 's');
        assert(kw[6].0[0] == 'y');
        assert(kw[7].0[0] == 'e');
        assert(kw[8].0[0] == 'A');
        assert(kw[9].0[0] == 'a');
        assert(kw[10].0[0] == '<');
        assert(kw[11].0[0] == 'o');
        assert(kw[12].0[0] == 's');
    }
    assert(keyword_from(s, i, 13) == Some(13int));
    assert forall|m: int| 0 <= m <= 13 implies #[trigger] keyword_from(s, i, m) == Some(13int) by {
        lemma_keyword_from_skips(s, i, m, 13);
    }
    assert(keyword_at(s, i) == Some(13int));
}

proof fn lemma_keyword_from_skips(s: Seq<char>, i: int, m: int, k: int)
    requires
        0 <= m <= k < keywords().len(),
        forall|j: int| 0 <= j < k ==> !occurs_at(s, i, #[trigger] keywords()[j].0),
        keyword_from(s, i, k) == Some(k),
    ensures
        keyword_from(s, i, m) == Some(k),
    decreases k - m,
{
    if m < k {
        lemma_keyword_from_skips(s, i, m + 1, k);
    }
}

/// How many tokens of kind `k` stand in `ts`.
pub open spec fn count_kind(ts: Seq<TokenModel>, k: TokenType) -> nat
    decreases ts.len(),
{
    if ts.len() == 0 {
        0
    } else {
        count_kind(ts.drop_last(), k) + (if ts.last().kind == k {
            1nat
        } else {
            0nat
        })
    }
}

proof fn lemma_count_add(a: Seq<TokenModel>, b: Seq<TokenModel>, k: TokenType)
    ensures
        count_kind(a + b, k) == count_kind(a, k) + count_kind(b, k),
    decreases b.len(),
{
    if b.len() > 0 {
        assert((a + b).drop_last() =~= a + b.drop_last());
        lemma_count_add(a, b.drop_last(), k);
    } else {
        assert(a + b =~= a);
    }
}

proof fn lemma_count_take(a: Seq<TokenModel>, n: int, k: TokenType)
    requires
        0 <= n <= a.len(),
    ensures
        count_kind(a.take(n), k) <= count_kind(a, k),
{
    assert(a =~= a.take(n) + a.skip(n));
    lemma_count_add(a.take(n), a.skip(n), k);
}

proof fn lemma_count_absent(a: Seq<TokenModel>, k: TokenType)
    requires
        forall|j: int| 0 <= j < a.len() ==> (#[trigger] a[j]).kind != k,
    ensures
        count_kind(a, k) == 0,
    decreases a.len(),
{
    if a.len() > 0 {
        lemma_count_absent(a.drop_last(), k);
    }
}

proof fn lemma_count_dedents(n: nat)
    ensures
        count_kind(Seq::new(n, |j: int| dedent_token()), TokenType::Dedent) == n,
        count_kind(Seq::new(n, |j: int| dedent_token()), TokenType::Indent) == 0,
    decreases n,
{
    if n > 0 {
        assert(Seq::new(n, |j: int| dedent_token()).drop_last() =~= Seq::new(
            (n - 1) as nat,
            |j: int| dedent_token(),
        ));
        lemma_count_dedents((n - 1) as nat);
    }
}

proof fn lemma_pops_bound(w: nat, stack: Seq<nat>)
    requires
        stack.len() >= 1,
        stack[0] == 0,
    ensures
        pops(w, stack) <= stack.len() - 1,
    decreases stack.len(),
{
    if stack.len() > 1 && w < stack.last() {
        lemma_pops_bound(w, stack.drop_last());
    }
}

/// One step keeps the base of the stack, and changes the stack height by the number of
/// Indent tokens it emits less the number of Dedent tokens; no prefix of what it emits
/// closes more levels than were open.
proof fn lemma_step_balance(s: Seq<char>, i: int, st: Seq<nat>)
    requires
        0 <= i < s.len(),
        st.len() >= 1,
        st[0] == 0,
    ensures
        step(s, i, st).2.len() >= 1,
        step(s, i, st).2[0] == 0,
        count_kind(step(s, i, st).0, TokenType::Indent) + st.len() == count_kind(
            step(s, i, st).0,
            TokenType::Dedent,
        ) + step(s, i, st).2.len(),
        forall|n: int| 0 <= n <= step(s, i, st).0.len() ==> count_kind(
            #[trigger] step(s, i, st).0.take(n),
            TokenType::Dedent,
        ) <= count_kind(step(s, i, st).0.take(n), TokenType::Indent) + st.len() - 1,
{
    let r = step(s, i, st);
    lemma_keyword_kinds();
    lemma_keyword_from(s, i, 0);
    if s[i] == '\n' {
        let j = i + 1 + run(s, i + 1, CharClass::Indentation);
        let w = indent_width(s, i + 1, j);
        let ind = indent_step(w, st);
        let nl = seq![str_token(TokenType::Newline, "\\n"@)];
        lemma_count_add(nl, ind.0, TokenType::Indent);
        lemma_count_add(nl, ind.0, TokenType::Dedent);
        lemma_count_absent(nl, TokenType::Indent);
        lemma_count_absent(nl, TokenType::Dedent);
        if w > st.last() {
            assert(count_kind(ind.0, TokenType::Indent) == 1) by {
                lemma_count_absent(ind.0.drop_last(), TokenType::Indent);
            }
            lemma_count_absent(ind.0, TokenType::Dedent);
            assert forall|n: int| 0 <= n <= r.0.len() implies count_kind(
                #[trigger] r.0.take(n),
                TokenType::Dedent,
            ) <= count_kind(r.0.take(n), TokenType::Indent) + st.len() - 1 by {
                lemma_count_absent(r.0.take(n), TokenType::Dedent);
            }
        } else {
            let n = pops(w, st);
            lemma_pops_bound(w, st);
            lemma_count_dedents(n);
            assert forall|m: int| 0 <= m <= r.0.len() implies count_kind(
                #[trigger] r.0.take(m),
                TokenType::Dedent,
            ) <= count_kind(r.0.take(m), TokenType::Indent) + st.len() - 1 by {
                lemma_count_take(r.0, m, TokenType::Dedent);
            }
        }
    } else {
        assert forall|j: int| 0 <= j < r.0.len() implies (#[trigger] r.0[j]).kind
            != TokenType::Indent && r.0[j].kind != TokenType::Dedent by {}
        lemma_count_absent(r.0, TokenType::Indent);
        lemma_count_absent(r.0, TokenType::Dedent);
        assert forall|n: int| 0 <= n <= r.0.len() implies count_kind(
            #[trigger] r.0.take(n),
            TokenType::Dedent,
        ) <= count_kind(r.0.take(n), TokenType::Indent) + st.len() - 1 by {
            lemma_count_absent(r.0.take(n), TokenType::Dedent);
        }
    }
}

proof fn lemma_scan_balance(s: Seq<char>, i: int, st: Seq<nat>)
    requires
        st.len() >= 1,
        st[0] == 0,
    ensures
        final_stack(s, i, st).len() >= 1,
        count_kind(scan(s, i, st), TokenType::Indent) + st.len() == count_kind(
            scan(s, i, st),
            TokenType::Dedent,
        ) + final_stack(s, i, st).len(),
        forall|n: int| 0 <= n <= scan(s, i, st).len() ==> count_kind(
            #[trigger] scan(s, i, st).take(n),
            TokenType::Dedent,
        ) <= count_kind(scan(s, i, st).take(n), TokenType::Indent) + st.len() - 1,
    decreases s.len() - i,
{
    let all = scan(s, i, st);
    if i < 0 || i >= s.len() {
        lemma_count_absent(all, TokenType::Indent);
        lemma_count_absent(all, TokenType::Dedent);
        assert forall|n: int| 0 <= n <= all.len() implies count_kind(
            #[trigger] all.take(n),
            TokenType::Dedent,
        ) <= count_kind(all.take(n), TokenType::Indent) + st.len() - 1 by {
            lemma_count_take(all, n, TokenType::Dedent);
        }
    } else {
        lemma_step_progress(s, i, st);
        lemma_step_balance(s, i, st);
        let r = step(s, i, st);
        let rest = scan(s, r.1, r.2);
        lemma_scan_balance(s, r.1, r.2);
        assert(all == r.0 + rest);
        lemma_count_add(r.0, rest, TokenType::Indent);
        lemma_count_add(r.0, rest, TokenType::Dedent);
        assert forall|n: int| 0 <= n <= all.len() implies count_kind(
            #[trigger] all.take(n),
            TokenType::Dedent,
        ) <= count_kind(all.take(n), TokenType::Indent) + st.len() - 1 by {
            if n <= r.0.len() {
                assert(all.take(n) =~= r.0.take(n));
            } else {
                let m = n - r.0.len();
                assert(all.take(n) =~= r.0 + rest.take(m));
                lemma_count_add(r.0, rest.take(m), TokenType::Indent);
                lemma_count_add(r.0, rest.take(m), TokenType::Dedent);
                assert(r.0.take(r.0.len() as int) =~= r.0);
            }
        }
    }
}

/// Indent and Dedent tokens balance: no prefix of the scanner's output holds more
/// Dedent than Indent tokens, and the Indent tokens left over at the end are exactly the
/// indentation levels still open, so one closing Dedent for each would even them out.
pub proof fn lemma_indent_balance(s: Seq<char>)
    ensures
        forall|n: int| 0 <= n <= lex(s).len() ==> count_kind(#[trigger] lex(s).take(n), TokenType::Dedent)
            <= count_kind(lex(s).take(n), TokenType::Indent),
        final_stack(s, 0, seq![0nat]).len() >= 1,
        count_kind(lex(s), TokenType::Indent) == count_kind(lex(s), TokenType::Dedent) + (
        final_stack(s, 0, seq![0nat]).len() - 1),
{
    lemma_scan_balance(s, 0, seq![0nat]);
}

// ---------------------------------------------------------------------------
// Descriptions

/// The name of a token kind.
pub open spec fn kind_name(k: TokenType) -> Seq<char> {
    match k {
        TokenType::Define => "Define"@,
        TokenType::Assign => "Assign"@,
        TokenType::EndOfAssign => "EndOfAssign"@,
        TokenType::If => "If"@,
        TokenType::Else => "Else"@,
        TokenType::ElseIf => "ElseIf"@,
        TokenType::For => "For"@,
        TokenType::While => "While"@,
        TokenType::Break => "Break"@,
        TokenType::Import => "Import"@,
        TokenType::ImportAll => "ImportAll"@,
        TokenType::BinaryOperator => "BinaryOperator"@,
        TokenType::LeftParen => "LeftParen"@,
        TokenType::RightParen => "RightParen"@,
        TokenType::Variable => "Variable"@,
        TokenType::Const => "Const"@,
        TokenType::String => "String"@,
        TokenType::Comma => "Comma"@,
        TokenType::Indent => "Indent"@,
        TokenType::Dedent => "Dedent"@,
        TokenType::Newline => "Newline"@,
        TokenType::LeftCurly => "LeftCurly"@,
        TokenType::RightCurly => "RightCurly"@,
        TokenType::EOF => "EOF"@,
        TokenType::Continue => "Continue"@,
        TokenType::Yield => "Yield"@,
        TokenType::Try => "Try"@,
        TokenType::Catch => "Catch"@,
        TokenType::Comment => "Comment"@,
        TokenType::BlockCommentStart => "BlockCommentStart"@,
        TokenType::BlockCommentEnd => "BlockCommentEnd"@,
    }
}

/// The decimal digits of `n`.
pub open spec fn decimal(n: nat) -> Seq<char>
    decreases n,
{
    if n < 10 {
        seq![('0' as u32 + n) as char]
    } else {
        decimal(n / 10).push(('0' as u32 + n % 10) as char)
    }
}

impl TokenType {
    /// The name of this kind.
    pub fn name(&self) -> (r: &'static str)
        ensures
            r@ == kind_name(*self),
    {
        match self {
            TokenType::Define => "Define",
            TokenType::Assign => "Assign",
            TokenType::EndOfAssign => "EndOfAssign",
            TokenType::If => "If",
            TokenType::Else => "Else",
            TokenType::ElseIf => "ElseIf",
            TokenType::For => "For",
            TokenType::While => "While",
            TokenType::Break => "Break",
            TokenType::Import => "Import",
            TokenType::ImportAll => "ImportAll",
            TokenType::BinaryOperator => "BinaryOperator",
            TokenType::LeftParen => "LeftParen",
            TokenType::RightParen => "RightParen",
            TokenType::Variable => "Variable",
            TokenType::Const => "Const",
            TokenType::String => "String",
            TokenType::Comma => "Comma",
            TokenType::Indent => "Indent",
            TokenType::Dedent => "Dedent",
            TokenType::Newline => "Newline",
            TokenType::LeftCurly => "LeftCurly",
            TokenType::RightCurly => "RightCurly",
            TokenType::EOF => "EOF",
            TokenType::Continue => "Continue",
            TokenType::Yield => "Yield",
            TokenType::Try => "Try",
            TokenType::Catch => "Catch",
            TokenType::Comment => "Comment",
            TokenType::BlockCommentStart => "BlockCommentStart",
            TokenType::BlockCommentEnd => "BlockCommentEnd",
        }
    }
}

/// The decimal digits of `n`, as a string.
fn decimal_string(n: usize) -> (r: String)
    ensures
        r@ == decimal(n as nat),
    decreases n,
{
    let mut r = if n < 10 {
        String::new()
    } else {
        decimal_string(n / 10)
    };
    let d = n % 10;
    let ch = if d == 0 {
        '0'
    } else if d == 1 {
        '1'
    } else if d == 2 {
        '2'
    } else if d == 3 {
        '3'
    } else if d == 4 {
        '4'
    } else if d == 5 {
        '5'
    } else if d == 6 {
        '6'
    } else if d == 7 {
        '7'
    } else if d == 8 {
        '8'
    } else {
        '9'
    };
    r.push(ch);
    proof {
        assert(ch == ('0' as u32 + n % 10) as char);
        if n < 10 {
            assert(r@ =~= seq![ch]);
        }
    }
    r
}

/// What a payload shows as text: the character, the string, or the number in decimal.
pub open spec fn value_text(v: ValueModel) -> Seq<char> {
    match v {
        ValueModel::Char(c) => seq![c],
        ValueModel::Str(s) => s,
        ValueModel::Num(n) => decimal(n),
    }
}

impl TokenValue {
    /// This payload as text.
    pub fn text(&self) -> (r: String)
        ensures
            r@ == value_text(self@),
    {
        match self {
            TokenValue::Char(c) => {
                let mut r = String::new();
                r.push(*c);
                proof {
                    assert(r@ =~= seq![*c]);
                }
                r
            },
            TokenValue::Str(s) => s.clone(),
            TokenValue::Num(n) => decimal_string(*n),
        }
    }
}

impl Token {
    /// A one-line description: `Type: <kind>, Value: <payload or None>`.
    pub fn describe(&self) -> (r: String)
        ensures
            r@ == "Type: "@ + kind_name(self._type) + ", Value: "@ + match self.value {
                Some(v) => value_text(v@),
                None => "None"@,
            },
    {
        let mut r = String::from_str("Type: ");
        r.append(self._type.name());
        r.append(", Value: ");
        match &self.value {
            Some(v) => {
                let t = v.text();
                r.append(t.as_str());
            },
            None => r.append("None"),
        }
        r
    }
}

} // verus!
