//! The lexer: source text to a sequence of tokens with their positions,
//! indentation turned into `Indent` / `Dedent` tokens.

use vstd::prelude::*;
use crate::chars::{alphabetic, alphanumeric, chars_of, digit_value, is_digit, is_white, spec_is_alphabetic, spec_is_alphanumeric, starts_with, strip_all, trim, vec_contains, vec_slice, vec_starts_with, vec_strip_all, vec_trim};
use crate::error::VenturiError;
use crate::text::{char_debug, concat, i64_to_decimal, push_char, signed_decimal, spec_char_debug, spec_str_debug, str_debug, str_eq, string_from_chars};

verus! {

/// A lexical token. A float literal keeps the digits it was written with.
#[derive(Clone, Debug)]
pub enum Token {
    Shebang(String),
    VanDecl(String),
    MetaComment(String),
    Comment,
    KwInput,
    KwOutput,
    KwFunc,
    KwTry,
    KwCatch,
    KwReturn,
    KwUse,
    KwChassis,
    KwPit,
    KwAs,
    KwLog,
    Ident(String),
    TypeName(String),
    IntLit(i64),
    FloatLit(String),
    StringLit(String),
    BoolLit(bool),
    Colon,
    Equals,
    Comma,
    Dot,
    Arrow,
    LParen,
    RParen,
    LBracket,
    RBracket,
    Plus,
    Minus,
    Star,
    Slash,
    Indent,
    Dedent,
    Newline,
    At,
    ResultOk,
    ResultErr,
    Eof,
}

/// The mathematical value of a token: its text as a sequence of characters.
pub enum Tok {
    Shebang(Seq<char>),
    VanDecl(Seq<char>),
    MetaComment(Seq<char>),
    Comment,
    KwInput,
    KwOutput,
    KwFunc,
    KwTry,
    KwCatch,
    KwReturn,
    KwUse,
    KwChassis,
    KwPit,
    KwAs,
    KwLog,
    Ident(Seq<char>),
    TypeName(Seq<char>),
    IntLit(i64),
    FloatLit(Seq<char>),
    StringLit(Seq<char>),
    BoolLit(bool),
    Colon,
    Equals,
    Comma,
    Dot,
    Arrow,
    LParen,
    RParen,
    LBracket,
    RBracket,
    Plus,
    Minus,
    Star,
    Slash,
    Indent,
    Dedent,
    Newline,
    At,
    ResultOk,
    ResultErr,
    Eof,
}

impl View for Token {
    type V = Tok;

    open spec fn view(&self) -> Tok {
        match self {
            Token::Shebang(s) => Tok::Shebang(s@),
            Token::VanDecl(s) => Tok::VanDecl(s@),
            Token::MetaComment(s) => Tok::MetaComment(s@),
            Token::Comment => Tok::Comment,
            Token::KwInput => Tok::KwInput,
            Token::KwOutput => Tok::KwOutput,
            Token::KwFunc => Tok::KwFunc,
            Token::KwTry => Tok::KwTry,
            Token::KwCatch => Tok::KwCatch,
            Token::KwReturn => Tok::KwReturn,
            Token::KwUse => Tok::KwUse,
            Token::KwChassis => Tok::KwChassis,
            Token::KwPit => Tok::KwPit,
            Token::KwAs => Tok::KwAs,
            Token::KwLog => Tok::KwLog,
            Token::Ident(s) => Tok::Ident(s@),
            Token::TypeName(s) => Tok::TypeName(s@),
            Token::IntLit(n) => Tok::IntLit(*n),
            Token::FloatLit(s) => Tok::FloatLit(s@),
            Token::StringLit(s) => Tok::StringLit(s@),
            Token::BoolLit(b) => Tok::BoolLit(*b),
            Token::Colon => Tok::Colon,
            Token::Equals => Tok::Equals,
            Token::Comma => Tok::Comma,
            Token::Dot => Tok::Dot,
            Token::Arrow => Tok::Arrow,
            Token::LParen => Tok::LParen,
            Token::RParen => Tok::RParen,
            Token::LBracket => Tok::LBracket,
            Token::RBracket => Tok::RBracket,
            Token::Plus => Tok::Plus,
            Token::Minus => Tok::Minus,
            Token::Star => Tok::Star,
            Token::Slash => Tok::Slash,
            Token::Indent => Tok::Indent,
            Token::Dedent => Tok::Dedent,
            Token::Newline => Tok::Newline,
            Token::At => Tok::At,
            Token::ResultOk => Tok::ResultOk,
            Token::ResultErr => Tok::ResultErr,
            Token::Eof => Tok::Eof,
        }
    }
}

/// A token with the line and column where it starts (both from 1).
#[derive(Clone, Debug)]
pub struct SpannedToken {
    pub token: Token,
    pub line: usize,
    pub col: usize,
}

/// The mathematical value of a positioned token.
pub struct STok {
    pub token: Tok,
    pub line: usize,
    pub col: usize,
}

impl View for SpannedToken {
    type V = STok;

    open spec fn view(&self) -> STok {
        STok { token: self.token@, line: self.line, col: self.col }
    }
}

/// The values of a sequence of positioned tokens.
pub open spec fn toks(v: Seq<SpannedToken>) -> Seq<STok> {
    v.map_values(|t: SpannedToken| t@)
}

/// A lexical error: the line it is reported at and its message.
pub struct LexErr {
    pub line: usize,
    pub msg: Seq<char>,
}

/// The state of the lexer between two tokens.
pub struct LexState {
    pub pos: usize,
    pub line: usize,
    pub col: usize,
    pub stack: Seq<usize>,
    pub pending: Seq<STok>,
    pub at_line_start: bool,
}

/// The state a new lexer starts in.
pub open spec fn initial_state() -> LexState {
    LexState { pos: 0, line: 1, col: 1, stack: seq![0usize], pending: seq![], at_line_start: true }
}

/// What a lexer state may hold for a given input.
pub open spec fn wf(s: Seq<char>, st: LexState) -> bool {
    &&& s.len() < usize::MAX
    &&& st.pos <= s.len()
    &&& 1 <= st.line <= st.pos + 1
    &&& 1 <= st.col <= st.pos + 1
    &&& st.stack.len() >= 1
    &&& st.stack[0] == 0
}

pub open spec fn char_at(s: Seq<char>, i: int) -> Option<char> {
    if 0 <= i < s.len() { Some(s[i]) } else { None }
}

/// One character consumed: the position moves on, and the line and column
/// follow it (a `\n` starts a new line at column 1).
pub open spec fn adv1(s: Seq<char>, st: LexState) -> LexState {
    if st.pos < s.len() {
        if s[st.pos as int] == '\n' {
            LexState { pos: (st.pos + 1) as usize, line: (st.line + 1) as usize, col: 1, ..st }
        } else {
            LexState { pos: (st.pos + 1) as usize, col: (st.col + 1) as usize, ..st }
        }
    } else {
        st
    }
}

/// The state after consuming the characters up to index `to`.
pub open spec fn moved(s: Seq<char>, st: LexState, to: nat) -> LexState
    decreases to,
{
    if to <= st.pos {
        st
    } else {
        adv1(s, moved(s, st, (to - 1) as nat))
    }
}

/// The first index from `i` on that does not hold a space.
pub open spec fn space_end(s: Seq<char>, i: nat) -> nat
    decreases s.len() - i,
{
    if i < s.len() && s[i as int] == ' ' { space_end(s, i + 1) } else { i }
}

/// The first index from `i` on that holds neither a space nor a tab.
pub open spec fn hws_end(s: Seq<char>, i: nat) -> nat
    decreases s.len() - i,
{
    if i < s.len() && (s[i as int] == ' ' || s[i as int] == '\t') { hws_end(s, i + 1) } else { i }
}

pub open spec fn is_nl(c: char) -> bool {
    c == '\n' || c == '\r'
}

/// The first index from `i` on that holds a line break, or the end.
pub open spec fn line_end(s: Seq<char>, i: nat) -> nat
    decreases s.len() - i,
{
    if i < s.len() && !is_nl(s[i as int]) { line_end(s, i + 1) } else { i }
}

/// The result of scanning the body of a quoted string.
pub enum StrScan {
    Done(Seq<char>, nat),
    Fail(Seq<char>),
}

/// What a backslash followed by `c` stands for inside a string literal.
pub open spec fn unescape(c: char) -> Seq<char> {
    if c == 'n' { seq!['\n'] }
    else if c == 't' { seq!['\t'] }
    else if c == 'r' { seq!['\r'] }
    else if c == '\\' { seq!['\\'] }
    else if c == '"' { seq!['"'] }
    else if c == '\'' { seq!['\''] }
    else { seq!['\\', c] }
}

/// The string body that starts at index `i` and ends at the quote `q`: its
/// unescaped text and the index after the closing quote, or the failure.
pub open spec fn scan_str(s: Seq<char>, i: nat, q: char) -> StrScan
    decreases s.len() - i,
{
    if i >= s.len() {
        StrScan::Fail("Unterminated string literal"@)
    } else if s[i as int] == '\\' {
        if i + 1 >= s.len() {
            StrScan::Fail("Unterminated escape sequence"@)
        } else {
            match scan_str(s, i + 2, q) {
                StrScan::Done(t, e) => StrScan::Done(unescape(s[i + 1int]) + t, e),
                StrScan::Fail(m) => StrScan::Fail(m),
            }
        }
    } else if s[i as int] == q {
        StrScan::Done(seq![], i + 1)
    } else {
        match scan_str(s, i + 1, q) {
            StrScan::Done(t, e) => StrScan::Done(seq![s[i as int]] + t, e),
            StrScan::Fail(m) => StrScan::Fail(m),
        }
    }
}

/// The end of a number literal that starts at `i`: digits, and dots that
/// are followed by a digit.
pub open spec fn num_end(s: Seq<char>, i: nat) -> nat
    decreases s.len() - i,
{
    if i < s.len() && is_digit(s[i as int]) {
        num_end(s, i + 1)
    } else if i + 1 < s.len() && s[i as int] == '.' && is_digit(s[i + 1int]) {
        num_end(s, i + 1)
    } else {
        i
    }
}

/// The value of a string of decimal digits.
pub open spec fn digits_value(d: Seq<char>) -> nat
    decreases d.len(),
{
    if d.len() == 0 { 0 } else { digits_value(d.drop_last()) * 10 + digit_value(d.last()) }
}

/// How many dots `t` holds.
pub open spec fn dot_count(t: Seq<char>) -> nat
    decreases t.len(),
{
    if t.len() == 0 { 0 } else { dot_count(t.drop_last()) + if t.last() == '.' { 1nat } else { 0nat } }
}

/// The token for the text of a number literal, or the error message. A
/// literal with a dot is a float, which `f64` parsing accepts when it has
/// exactly one dot; one without is an `i64`.
pub open spec fn number_tok(t: Seq<char>) -> Result<Tok, Seq<char>> {
    if t.contains('.') {
        if dot_count(t) == 1 { Ok(Tok::FloatLit(t)) } else { Err("Invalid float literal: "@ + t) }
    } else if digits_value(t) <= i64::MAX {
        Ok(Tok::IntLit(digits_value(t) as i64))
    } else {
        Err("Invalid integer literal: "@ + t)
    }
}

/// A character that may continue an identifier.
pub open spec fn ident_char(c: char) -> bool {
    spec_is_alphanumeric(c) || c == '_' || c == '.' || c == '/' || c == '-'
}

/// The end of an identifier whose characters from `i` on are being
/// scanned; a `-` right before a `>` ends it. (The first character of an
/// identifier is a letter or `_`, which always continues one, since every
/// alphabetic character is alphanumeric.)
pub open spec fn ident_end(s: Seq<char>, i: nat) -> nat
    decreases s.len() - i,
{
    if i < s.len() && ident_char(s[i as int]) && !(s[i as int] == '-' && i + 1 < s.len() && s[i + 1int] == '>') {
        ident_end(s, i + 1)
    } else {
        i
    }
}

/// The token an identifier's text stands for: a keyword, a type name, a
/// boolean, one of the result constructors, or a plain identifier.
pub open spec fn classify_ident(id: Seq<char>) -> Tok {
    if id == "Result.Ok"@ { Tok::ResultOk }
    else if id == "Result.Err"@ { Tok::ResultErr }
    else if id == "input"@ { Tok::KwInput }
    else if id == "output"@ { Tok::KwOutput }
    else if id == "func"@ { Tok::KwFunc }
    else if id == "try"@ { Tok::KwTry }
    else if id == "catch"@ { Tok::KwCatch }
    else if id == "return"@ { Tok::KwReturn }
    else if id == "use"@ { Tok::KwUse }
    else if id == "chassis"@ { Tok::KwChassis }
    else if id == "pit"@ { Tok::KwPit }
    else if id == "as"@ { Tok::KwAs }
    else if id == "log"@ { Tok::KwLog }
    else if id == "true"@ { Tok::BoolLit(true) }
    else if id == "false"@ { Tok::BoolLit(false) }
    else if id == "Int"@ { Tok::TypeName("Int"@) }
    else if id == "Float"@ { Tok::TypeName("Float"@) }
    else if id == "Bool"@ { Tok::TypeName("Bool"@) }
    else if id == "String"@ { Tok::TypeName("String"@) }
    else if id == "DataFrame"@ { Tok::TypeName("DataFrame"@) }
    else { Tok::Ident(id) }
}

pub open spec fn pat_van_sp() -> Seq<char> { seq![' ', 'V', 'A', 'N', ':'] }
pub open spec fn pat_van() -> Seq<char> { seq!['V', 'A', 'N', ':'] }
pub open spec fn pat_meta_sp() -> Seq<char> { seq![' ', 'M', 'E', 'T', 'A', ':'] }
pub open spec fn pat_meta() -> Seq<char> { seq!['M', 'E', 'T', 'A', ':'] }

/// The token for the trimmed text of a comment: a VAN declaration, a
/// `META:` comment, a `key: value` comment, or a plain comment.
pub open spec fn classify_comment(c: Seq<char>) -> Tok {
    if starts_with(c, pat_van_sp()) || starts_with(c, pat_van()) {
        Tok::VanDecl(trim(strip_all(strip_all(c, pat_van_sp()), pat_van())))
    } else if starts_with(c, pat_meta_sp()) || starts_with(c, pat_meta()) {
        Tok::MetaComment(strip_all(c, seq![' ']))
    } else if starts_with(c, seq![' ']) && trim(c).contains(':') && !starts_with(trim(c), seq!['#']) {
        Tok::MetaComment(trim(c))
    } else {
        Tok::Comment
    }
}

/// The single-character punctuation tokens.
pub open spec fn punct(c: char) -> Option<Tok> {
    if c == '@' { Some(Tok::At) }
    else if c == ':' { Some(Tok::Colon) }
    else if c == '=' { Some(Tok::Equals) }
    else if c == ',' { Some(Tok::Comma) }
    else if c == '.' { Some(Tok::Dot) }
    else if c == '+' { Some(Tok::Plus) }
    else if c == '*' { Some(Tok::Star) }
    else if c == '/' { Some(Tok::Slash) }
    else if c == '(' { Some(Tok::LParen) }
    else if c == ')' { Some(Tok::RParen) }
    else if c == '[' { Some(Tok::LBracket) }
    else if c == ']' { Some(Tok::RBracket) }
    else { None }
}

/// The token a comment starting at `st.pos` gives, and the state after it.
/// A `#!` whose `#` is the second character of the input is a shebang.
pub open spec fn comment_token(s: Seq<char>, st: LexState) -> (STok, LexState) {
    let p1: nat = (st.pos + 1) as nat;
    if p1 == 2 && p1 < s.len() && s[p1 as int] == '!' {
        let e = line_end(s, p1 + 1);
        (STok { token: Tok::Shebang(trim(s.subrange(p1 + 1int, e as int))), line: st.line, col: st.col },
            moved(s, st, e))
    } else {
        let e = line_end(s, p1);
        (STok { token: classify_comment(trim(s.subrange(p1 as int, e as int))), line: st.line, col: st.col },
            moved(s, st, e))
    }
}

/// A run of identical tokens, as the dedents that closing several
/// indentation levels at once give.
pub open spec fn repeat(t: STok, n: nat) -> Seq<STok> {
    Seq::new(n, |i: int| t)
}

/// The token that starts after the horizontal white space at `st.pos`.
pub open spec fn body_token(s: Seq<char>, st0: LexState) -> Result<(STok, LexState), LexErr> {
    let st = moved(s, st0, hws_end(s, st0.pos as nat));
    let p = st.pos as int;
    let line = st.line;
    let col = st.col;
    if p >= s.len() {
        if st.stack.len() > 1 {
            let d = STok { token: Tok::Dedent, line, col };
            Ok((d, LexState { stack: st.stack.subrange(0, 1), pending: repeat(d, (st.stack.len() - 2) as nat), ..st }))
        } else {
            Ok((STok { token: Tok::Eof, line, col }, st))
        }
    } else {
        let c = s[p];
        if c == '\n' || c == '\r' {
            let e1 = if c == '\r' { p + 1 } else { p };
            let e2 = if e1 < s.len() && s[e1] == '\n' { e1 + 1 } else { e1 };
            Ok((STok { token: Tok::Newline, line, col }, LexState { at_line_start: true, ..moved(s, st, e2 as nat) }))
        } else if c == '#' {
            Ok(comment_token(s, st))
        } else if c == '"' || c == '\'' {
            match scan_str(s, (p + 1) as nat, c) {
                StrScan::Done(t, e) => Ok((STok { token: Tok::StringLit(t), line, col }, moved(s, st, e))),
                StrScan::Fail(m) => Err(LexErr { line, msg: m }),
            }
        } else if is_digit(c) {
            let e = num_end(s, p as nat);
            match number_tok(s.subrange(p, e as int)) {
                Ok(t) => Ok((STok { token: t, line, col }, moved(s, st, e))),
                Err(m) => Err(LexErr { line, msg: m }),
            }
        } else if spec_is_alphabetic(c) || c == '_' {
            let e = ident_end(s, (p + 1) as nat);
            Ok((STok { token: classify_ident(s.subrange(p, e as int)), line, col }, moved(s, st, e)))
        } else if c == '-' {
            if p + 1 < s.len() && s[p + 1] == '>' {
                Ok((STok { token: Tok::Arrow, line, col }, moved(s, st, (p + 2) as nat)))
            } else {
                Ok((STok { token: Tok::Minus, line, col }, moved(s, st, (p + 1) as nat)))
            }
        } else {
            match punct(c) {
                Some(t) => Ok((STok { token: t, line, col }, moved(s, st, (p + 1) as nat))),
                None => Err(LexErr { line, msg: "Unexpected character: "@ + spec_char_debug(c) }),
            }
        }
    }
}

/// The indentation stack with every level deeper than `k` closed.
pub open spec fn pop_above(stk: Seq<usize>, k: nat) -> Seq<usize>
    decreases stk.len(),
{
    if stk.len() > 0 && stk.last() > k { pop_above(stk.drop_last(), k) } else { stk }
}

/// The next token and the state after it. At the start of a line the
/// indentation is compared with the innermost open level first: deeper
/// opens a level (`Indent`), shallower closes every deeper level (one
/// `Dedent` each, the rest held back as pending). Blank and comment lines
/// leave the levels alone.
pub open spec fn spec_next_token(s: Seq<char>, st: LexState) -> Result<(STok, LexState), LexErr> {
    if st.at_line_start {
        let st0 = LexState { at_line_start: false, ..st };
        let e = space_end(s, st0.pos as nat);
        let k = (e - st0.pos) as nat;
        let st1 = moved(s, st0, e);
        if e >= s.len() || s[e as int] == '\n' || s[e as int] == '\r' || s[e as int] == '#' {
            body_token(s, st1)
        } else {
            let cur: nat = if st1.stack.len() > 0 { st1.stack.last() as nat } else { 0 };
            if k > cur {
                Ok((STok { token: Tok::Indent, line: st1.line, col: st1.col },
                    LexState { stack: st1.stack.push(k as usize), ..st1 }))
            } else if k < cur {
                let rest = pop_above(st1.stack, k);
                let n = (st1.stack.len() - rest.len()) as nat;
                let d = STok { token: Tok::Dedent, line: st1.line, col: st1.col };
                if n > 0 {
                    Ok((d, LexState { stack: rest, pending: repeat(d, (n - 1) as nat), ..st1 }))
                } else {
                    body_token(s, st1)
                }
            } else {
                body_token(s, st1)
            }
        }
    } else {
        body_token(s, st)
    }
}


/// The lexer: the input and where it stands in it.
pub struct Lexer {
    input: Vec<char>,
    pos: usize,
    line: usize,
    col: usize,
    indent_stack: Vec<usize>,
    pending: Vec<SpannedToken>,
    at_line_start: bool,
}

/// The whole token sequence from a state on: pending tokens first, then one
/// token at a time until `Eof`, or the first error.
pub open spec fn spec_tokenize(s: Seq<char>, st: LexState) -> Result<Seq<STok>, LexErr>
    decreases (s.len() - st.pos) as nat, st.stack.len(), st.pending.len()
    when wf(s, st)
    via tokenize_decreases
{
    if st.pending.len() > 0 {
        let t = st.pending[0];
        if t.token is Eof {
            Ok(seq![t])
        } else {
            match spec_tokenize(s, LexState { pending: st.pending.drop_first(), ..st }) {
                Ok(r) => Ok(seq![t] + r),
                Err(e) => Err(e),
            }
        }
    } else {
        match spec_next_token(s, st) {
            Err(e) => Err(e),
            Ok((t, st2)) => if t.token is Eof {
                Ok(seq![t])
            } else {
                match spec_tokenize(s, st2) {
                    Ok(r) => Ok(seq![t] + r),
                    Err(e) => Err(e),
                }
            },
        }
    }
}

/// `acc` put in front of a token sequence, errors passed through.
pub open spec fn prefixed(acc: Seq<STok>, r: Result<Seq<STok>, LexErr>) -> Result<Seq<STok>, LexErr> {
    match r {
        Ok(x) => Ok(acc + x),
        Err(e) => Err(e),
    }
}

/// The executable result of a tokenization agrees with its value.
pub open spec fn lex_result_matches(r: Result<Vec<SpannedToken>, VenturiError>, sp: Result<Seq<STok>, LexErr>) -> bool {
    match sp {
        Ok(ts) => r matches Ok(v) && toks(v@) == ts,
        Err(e) => r matches Err(VenturiError::Parse { line, msg }) && line == e.line && msg@ == e.msg,
    }
}

/// The executable result of one lexing step agrees with its value.
pub open spec fn step_matches(r: Result<SpannedToken, VenturiError>, sp: Result<(STok, LexState), LexErr>, after: LexState) -> bool {
    match sp {
        Ok((t, st)) => r matches Ok(tok) && tok@ == t && after == st,
        Err(e) => r matches Err(VenturiError::Parse { line, msg }) && line == e.line && msg@ == e.msg,
    }
}

proof fn lemma_moved(s: Seq<char>, st: LexState, to: nat)
    requires
        wf(s, st),
        st.pos <= to <= s.len(),
    ensures
        moved(s, st, to).pos == to,
        wf(s, moved(s, st, to)),
        moved(s, st, to).stack == st.stack,
        moved(s, st, to).pending == st.pending,
        moved(s, st, to).at_line_start == st.at_line_start,
    decreases to,
{
    if to > st.pos {
        lemma_moved(s, st, (to - 1) as nat);
    }
}

proof fn lemma_space_end(s: Seq<char>, i: nat)
    requires i <= s.len(),
    ensures i <= space_end(s, i) <= s.len(),
    decreases s.len() - i,
{
    if i < s.len() && s[i as int] == ' ' { lemma_space_end(s, i + 1); }
}

proof fn lemma_hws_end(s: Seq<char>, i: nat)
    requires i <= s.len(),
    ensures i <= hws_end(s, i) <= s.len(),
    decreases s.len() - i,
{
    if i < s.len() && (s[i as int] == ' ' || s[i as int] == '\t') { lemma_hws_end(s, i + 1); }
}

proof fn lemma_line_end(s: Seq<char>, i: nat)
    requires i <= s.len(),
    ensures i <= line_end(s, i) <= s.len(),
    decreases s.len() - i,
{
    if i < s.len() && !is_nl(s[i as int]) { lemma_line_end(s, i + 1); }
}

proof fn lemma_num_end(s: Seq<char>, i: nat)
    requires i <= s.len(),
    ensures i <= num_end(s, i) <= s.len(),
    decreases s.len() - i,
{
    if i < s.len() && is_digit(s[i as int]) {
        lemma_num_end(s, i + 1);
    } else if i + 1 < s.len() && s[i as int] == '.' && is_digit(s[i + 1int]) {
        lemma_num_end(s, i + 1);
    }
}

proof fn lemma_ident_end(s: Seq<char>, i: nat)
    requires i <= s.len(),
    ensures i <= ident_end(s, i) <= s.len(),
    decreases s.len() - i,
{
    if i < s.len() && ident_char(s[i as int]) && !(s[i as int] == '-' && i + 1 < s.len() && s[i + 1int] == '>') {
        lemma_ident_end(s, i + 1);
    }
}

proof fn lemma_scan_str(s: Seq<char>, i: nat, q: char)
    ensures
        scan_str(s, i, q) matches StrScan::Done(t, e) ==> i < e <= s.len(),
    decreases s.len() - i,
{
    if i < s.len() {
        if s[i as int] == '\\' {
            if i + 1 < s.len() { lemma_scan_str(s, i + 2, q); }
        } else if s[i as int] != q {
            lemma_scan_str(s, i + 1, q);
        }
    }
}

proof fn lemma_pop_above(stk: Seq<usize>, k: nat)
    ensures
        pop_above(stk, k).len() <= stk.len(),
        pop_above(stk, k) == stk.subrange(0, pop_above(stk, k).len() as int),
        stk.len() > 0 && stk[0] == 0 ==> pop_above(stk, k).len() >= 1,
    decreases stk.len(),
{
    if stk.len() > 0 && stk.last() > k {
        lemma_pop_above(stk.drop_last(), k);
        let r = pop_above(stk.drop_last(), k);
        assert(stk.drop_last().subrange(0, r.len() as int) =~= stk.subrange(0, r.len() as int));
        if stk.len() > 0 && stk[0] == 0 && stk.len() == 1 {
            assert(stk.last() == 0);
        }
    } else {
        assert(stk.subrange(0, stk.len() as int) =~= stk);
    }
}

/// A token of the body makes progress: the state stays well formed and
/// either consumes input or closes indentation levels; only `Eof` stays put.
proof fn lemma_body_progress(s: Seq<char>, st0: LexState)
    requires
        wf(s, st0),
    ensures
        body_token(s, st0) matches Ok((t, st2)) ==> {
            &&& wf(s, st2)
            &&& st2.pos >= st0.pos
            &&& (t.token !is Eof ==> st2.pos > st0.pos || st2.stack.len() < st0.stack.len())
        },
{
    lemma_hws_end(s, st0.pos as nat);
    let st = moved(s, st0, hws_end(s, st0.pos as nat));
    lemma_moved(s, st0, hws_end(s, st0.pos as nat));
    let p = st.pos as int;
    if p >= s.len() {
        if st.stack.len() > 1 {
            let d = STok { token: Tok::Dedent, line: st.line, col: st.col };
            let st2 = LexState { stack: st.stack.subrange(0, 1), pending: repeat(d, (st.stack.len() - 2) as nat), ..st };
            assert(wf(s, st2));
        }
    } else {
        let c = s[p];
        if c == '\n' || c == '\r' {
            let e1 = if c == '\r' { p + 1 } else { p };
            let e2 = if e1 < s.len() && s[e1] == '\n' { e1 + 1 } else { e1 };
            lemma_moved(s, st, e2 as nat);
        } else if c == '#' {
            let p1: nat = (st.pos + 1) as nat;
            if p1 == 2 && p1 < s.len() && s[p1 as int] == '!' {
                lemma_line_end(s, p1 + 1);
                lemma_moved(s, st, line_end(s, p1 + 1));
            } else {
                lemma_line_end(s, p1);
                lemma_moved(s, st, line_end(s, p1));
            }
        } else if c == '"' || c == '\'' {
            lemma_scan_str(s, (p + 1) as nat, c);
            if let StrScan::Done(t, e) = scan_str(s, (p + 1) as nat, c) {
                lemma_moved(s, st, e);
            }
        } else if is_digit(c) {
            lemma_num_end(s, (p + 1) as nat);
            assert(num_end(s, p as nat) == num_end(s, (p + 1) as nat));
            lemma_moved(s, st, num_end(s, p as nat));
        } else if spec_is_alphabetic(c) || c == '_' {
            lemma_ident_end(s, (p + 1) as nat);
            lemma_moved(s, st, ident_end(s, (p + 1) as nat));
        } else if c == '-' {
            if p + 1 < s.len() && s[p + 1] == '>' {
                lemma_moved(s, st, (p + 2) as nat);
            } else {
                lemma_moved(s, st, (p + 1) as nat);
            }
        } else {
            lemma_moved(s, st, (p + 1) as nat);
        }
    }
}

proof fn lemma_next_progress(s: Seq<char>, st: LexState)
    requires
        wf(s, st),
    ensures
        spec_next_token(s, st) matches Ok((t, st2)) ==> {
            &&& wf(s, st2)
            &&& st2.pos >= st.pos
            &&& (t.token !is Eof ==> st2.pos > st.pos || st2.stack.len() < st.stack.len())
        },
{
    if st.at_line_start {
        let st0 = LexState { at_line_start: false, ..st };
        let e = space_end(s, st0.pos as nat);
        lemma_space_end(s, st0.pos as nat);
        let k = (e - st0.pos) as nat;
        let st1 = moved(s, st0, e);
        lemma_moved(s, st0, e);
        lemma_body_progress(s, st1);
        if !(e >= s.len() || s[e as int] == '\n' || s[e as int] == '\r' || s[e as int] == '#') {
            let cur: nat = if st1.stack.len() > 0 { st1.stack.last() as nat } else { 0 };
            if k > cur {
                let st2 = LexState { stack: st1.stack.push(k as usize), ..st1 };
                assert(st2.stack[0] == 0);
            } else if k < cur {
                lemma_pop_above(st1.stack, k);
            }
        }
    } else {
        lemma_body_progress(s, st);
    }
}

#[via_fn]
proof fn tokenize_decreases(s: Seq<char>, st: LexState) {
    if st.pending.len() == 0 {
        lemma_next_progress(s, st);
    }
}

proof fn lemma_toks_push(v: Seq<SpannedToken>, x: SpannedToken)
    ensures
        toks(v.push(x)) == toks(v).push(x@),
{
    assert(toks(v.push(x)) =~= toks(v).push(x@));
}

proof fn lemma_toks_drop_first(v: Seq<SpannedToken>)
    requires
        v.len() > 0,
    ensures
        toks(v.remove(0)) == toks(v).drop_first(),
        toks(v)[0] == v[0]@,
{
    assert(toks(v.remove(0)) =~= toks(v).drop_first());
}

proof fn lemma_repeat_push(t: STok, n: nat)
    ensures
        repeat(t, n).push(t) == repeat(t, n + 1),
        n > 0 ==> repeat(t, n).drop_first() == repeat(t, (n - 1) as nat),
{
    assert(repeat(t, n).push(t) =~= repeat(t, n + 1));
    if n > 0 {
        assert(repeat(t, n).drop_first() =~= repeat(t, (n - 1) as nat));
    }
}

proof fn lemma_moved_adv(s: Seq<char>, st: LexState, p: nat)
    requires
        st.pos <= p,
    ensures
        moved(s, st, p + 1) == adv1(s, moved(s, st, p)),
{
}

proof fn lemma_moved_one(s: Seq<char>, st: LexState)
    ensures
        moved(s, st, (st.pos + 1) as nat) == adv1(s, st),
{
    assert(moved(s, st, st.pos as nat) == st);
}

proof fn lemma_moved_trans(s: Seq<char>, st: LexState, a: nat, b: nat)
    requires
        wf(s, st),
        st.pos <= a <= b <= s.len(),
    ensures
        moved(s, moved(s, st, a), b) == moved(s, st, b),
    decreases b,
{
    lemma_moved(s, st, a);
    if b > a {
        lemma_moved_trans(s, st, a, (b - 1) as nat);
    }
}

proof fn lemma_num_end_chars(s: Seq<char>, i: nat)
    requires i <= s.len(),
    ensures
        forall|j: int| i <= j < num_end(s, i) ==> is_digit(#[trigger] s[j]) || s[j] == '.',
    decreases s.len() - i,
{
    if i < s.len() && is_digit(s[i as int]) {
        lemma_num_end_chars(s, i + 1);
    } else if i + 1 < s.len() && s[i as int] == '.' && is_digit(s[i + 1int]) {
        lemma_num_end_chars(s, i + 1);
    }
}

proof fn lemma_digits_step(t: Seq<char>, i: int)
    requires 0 <= i < t.len(),
    ensures digits_value(t.subrange(0, i + 1)) == digits_value(t.subrange(0, i)) * 10 + digit_value(t[i]),
{
    assert(t.subrange(0, i + 1).drop_last() =~= t.subrange(0, i));
}

proof fn lemma_digits_mono(t: Seq<char>, i: int, j: int)
    requires 0 <= i <= j <= t.len(),
    ensures digits_value(t.subrange(0, i)) <= digits_value(t.subrange(0, j)),
    decreases j - i,
{
    if i < j {
        lemma_digits_mono(t, i, j - 1);
        lemma_digits_step(t, j - 1);
    }
}

proof fn lemma_dot_step(t: Seq<char>, i: int)
    requires 0 <= i < t.len(),
    ensures dot_count(t.subrange(0, i + 1)) == dot_count(t.subrange(0, i)) + if t[i] == '.' { 1nat } else { 0nat },
{
    assert(t.subrange(0, i + 1).drop_last() =~= t.subrange(0, i));
}

/// The scan of a string body with `acc` already read in front of it.
pub open spec fn acc_scan(acc: Seq<char>, r: StrScan) -> StrScan {
    match r {
        StrScan::Done(t, e) => StrScan::Done(acc + t, e),
        StrScan::Fail(m) => StrScan::Fail(m),
    }
}

fn number_token(t: &Vec<char>) -> (r: Result<Token, String>)
    requires
        t@.len() >= 1,
        forall|j: int| 0 <= j < t@.len() ==> is_digit(#[trigger] t@[j]) || t@[j] == '.',
    ensures
        match number_tok(t@) {
            Ok(x) => r matches Ok(tok) && tok@ == x,
            Err(m) => r matches Err(msg) && msg@ == m,
        },
{
    if vec_contains(t, '.') {
        let mut dots: usize = 0;
        let mut i: usize = 0;
        assert(t@.subrange(0, 0) =~= Seq::<char>::empty());
        while i < t.len()
            invariant
                i <= t@.len(),
                dots == dot_count(t@.subrange(0, i as int)),
                dots <= i,
            decreases t.len() - i,
        {
            proof { lemma_dot_step(t@, i as int); }
            if t[i] == '.' {
                dots = dots + 1;
            }
            i = i + 1;
        }
        assert(t@.subrange(0, t@.len() as int) =~= t@);
        if dots == 1 {
            Ok(Token::FloatLit(string_from_chars(t.as_slice())))
        } else {
            Err(concat("Invalid float literal: ", string_from_chars(t.as_slice()).as_str()))
        }
    } else {
        let mut acc: i64 = 0;
        let mut i: usize = 0;
        assert(t@.subrange(0, 0) =~= Seq::<char>::empty());
        while i < t.len()
            invariant
                i <= t@.len(),
                !t@.contains('.'),
                forall|j: int| 0 <= j < t@.len() ==> is_digit(#[trigger] t@[j]) || t@[j] == '.',
                acc as int == digits_value(t@.subrange(0, i as int)),
                acc >= 0,
            decreases t.len() - i,
        {
            let c = t[i];
            assert(is_digit(t@[i as int]));
            let d = (c as u32 - '0' as u32) as i64;
            proof { lemma_digits_step(t@, i as int); }
            if acc > (i64::MAX - d) / 10 {
                proof {
                    assert(acc * 10 + d > i64::MAX) by (nonlinear_arith)
                        requires acc > (i64::MAX - d) / 10, 0 <= d <= 9;
                    lemma_digits_mono(t@, i + 1, t@.len() as int);
                    assert(t@.subrange(0, t@.len() as int) =~= t@);
                }
                return Err(concat("Invalid integer literal: ", string_from_chars(t.as_slice()).as_str()));
            }
            assert(acc * 10 + d <= i64::MAX) by (nonlinear_arith)
                requires acc <= (i64::MAX - d) / 10, 0 <= d <= 9, acc >= 0;
            acc = acc * 10 + d;
            i = i + 1;
        }
        assert(t@.subrange(0, t@.len() as int) =~= t@);
        Ok(Token::IntLit(acc))
    }
}

fn classify_ident_exec(ident: &Vec<char>) -> (t: Token)
    ensures
        t@ == classify_ident(ident@),
{
    let s = string_from_chars(ident.as_slice());
    let w = s.as_str();
    if str_eq(w, "Result.Ok") { Token::ResultOk }
    else if str_eq(w, "Result.Err") { Token::ResultErr }
    else if str_eq(w, "input") { Token::KwInput }
    else if str_eq(w, "output") { Token::KwOutput }
    else if str_eq(w, "func") { Token::KwFunc }
    else if str_eq(w, "try") { Token::KwTry }
    else if str_eq(w, "catch") { Token::KwCatch }
    else if str_eq(w, "return") { Token::KwReturn }
    else if str_eq(w, "use") { Token::KwUse }
    else if str_eq(w, "chassis") { Token::KwChassis }
    else if str_eq(w, "pit") { Token::KwPit }
    else if str_eq(w, "as") { Token::KwAs }
    else if str_eq(w, "log") { Token::KwLog }
    else if str_eq(w, "true") { Token::BoolLit(true) }
    else if str_eq(w, "false") { Token::BoolLit(false) }
    else if str_eq(w, "Int") { Token::TypeName(String::from_str("Int")) }
    else if str_eq(w, "Float") { Token::TypeName(String::from_str("Float")) }
    else if str_eq(w, "Bool") { Token::TypeName(String::from_str("Bool")) }
    else if str_eq(w, "String") { Token::TypeName(String::from_str("String")) }
    else if str_eq(w, "DataFrame") { Token::TypeName(String::from_str("DataFrame")) }
    else { Token::Ident(s) }
}

fn classify_comment_exec(c: &Vec<char>) -> (t: Token)
    ensures
        t@ == classify_comment(c@),
{
    let van_sp = vec![' ', 'V', 'A', 'N', ':'];
    let van = vec!['V', 'A', 'N', ':'];
    let meta_sp = vec![' ', 'M', 'E', 'T', 'A', ':'];
    let meta = vec!['M', 'E', 'T', 'A', ':'];
    let space = vec![' '];
    let hash = vec!['#'];
    assert(van_sp@ =~= pat_van_sp());
    assert(van@ =~= pat_van());
    assert(meta_sp@ =~= pat_meta_sp());
    assert(meta@ =~= pat_meta());
    assert(space@ =~= seq![' ']);
    assert(hash@ =~= seq!['#']);
    if vec_starts_with(c, van_sp.as_slice()) || vec_starts_with(c, van.as_slice()) {
        let a = vec_strip_all(c, van_sp.as_slice());
        let b = vec_strip_all(&a, van.as_slice());
        let v = vec_trim(&b);
        Token::VanDecl(string_from_chars(v.as_slice()))
    } else if vec_starts_with(c, meta_sp.as_slice()) || vec_starts_with(c, meta.as_slice()) {
        let a = vec_strip_all(c, space.as_slice());
        Token::MetaComment(string_from_chars(a.as_slice()))
    } else if vec_starts_with(c, space.as_slice()) {
        let t = vec_trim(c);
        if vec_contains(&t, ':') && !vec_starts_with(&t, hash.as_slice()) {
            Token::MetaComment(string_from_chars(t.as_slice()))
        } else {
            Token::Comment
        }
    } else {
        Token::Comment
    }
}

fn punct_token(c: char) -> (r: Option<Token>)
    ensures
        match punct(c) {
            Some(t) => r matches Some(tok) && tok@ == t,
            None => r is None,
        },
{
    match c {
        '@' => Some(Token::At),
        ':' => Some(Token::Colon),
        '=' => Some(Token::Equals),
        ',' => Some(Token::Comma),
        '.' => Some(Token::Dot),
        '+' => Some(Token::Plus),
        '*' => Some(Token::Star),
        '/' => Some(Token::Slash),
        '(' => Some(Token::LParen),
        ')' => Some(Token::RParen),
        '[' => Some(Token::LBracket),
        ']' => Some(Token::RBracket),
        _ => None,
    }
}

impl Lexer {
    /// The text being lexed.
    pub closed spec fn source(&self) -> Seq<char> {
        self.input@
    }

    /// Where the lexer stands.
    pub closed spec fn state(&self) -> LexState {
        LexState {
            pos: self.pos,
            line: self.line,
            col: self.col,
            stack: self.indent_stack@,
            pending: toks(self.pending@),
            at_line_start: self.at_line_start,
        }
    }

    /// A lexer at the start of `source`.
    pub fn new(source: &str) -> (r: Lexer)
        requires
            source@.len() < usize::MAX,
        ensures
            r.source() == source@,
            r.state() == initial_state(),
            wf(r.source(), r.state()),
    {
        let l = Lexer {
            input: chars_of(source),
            pos: 0,
            line: 1,
            col: 1,
            indent_stack: vec![0],
            pending: Vec::new(),
            at_line_start: true,
        };
        assert(toks(l.pending@) =~= seq![]);
        assert(l.indent_stack@ =~= seq![0usize]);
        l
    }

    fn peek(&self) -> (r: Option<char>)
        ensures
            r == char_at(self.input@, self.pos as int),
    {
        if self.pos < self.input.len() { Some(self.input[self.pos]) } else { None }
    }

    fn peek_ahead(&self, offset: usize) -> (r: Option<char>)
        requires
            self.pos + offset <= usize::MAX,
        ensures
            r == char_at(self.input@, self.pos + offset),
    {
        let i = self.pos + offset;
        if i < self.input.len() { Some(self.input[i]) } else { None }
    }

    fn advance(&mut self) -> (r: Option<char>)
        requires
            wf(old(self).source(), old(self).state()),
        ensures
            final(self).source() == old(self).source(),
            final(self).state() == adv1(old(self).source(), old(self).state()),
            wf(final(self).source(), final(self).state()),
            r == char_at(old(self).source(), old(self).state().pos as int),
    {
        if self.pos < self.input.len() {
            let c = self.input[self.pos];
            self.pos = self.pos + 1;
            if c == '\n' {
                self.line = self.line + 1;
                self.col = 1;
            } else {
                self.col = self.col + 1;
            }
            Some(c)
        } else {
            None
        }
    }

    fn skip_spaces(&mut self) -> (count: usize)
        requires
            wf(old(self).source(), old(self).state()),
        ensures
            final(self).source() == old(self).source(),
            final(self).state() == moved(old(self).source(), old(self).state(), space_end(old(self).source(), old(self).state().pos as nat)),
            count == space_end(old(self).source(), old(self).state().pos as nat) - old(self).state().pos,
            wf(final(self).source(), final(self).state()),
    {
        let ghost s = self.source();
        let ghost st0 = self.state();
        let mut count: usize = 0;
        while self.peek() == Some(' ')
            invariant
                self.source() == s,
                wf(s, self.state()),
                st0.pos <= self.pos <= s.len(),
                self.state() == moved(s, st0, self.pos as nat),
                space_end(s, st0.pos as nat) == space_end(s, self.pos as nat),
                count == self.pos - st0.pos,
            decreases s.len() - self.pos,
        {
            self.advance();
            count = count + 1;
        }
        count
    }

    fn skip_hws(&mut self)
        requires
            wf(old(self).source(), old(self).state()),
        ensures
            final(self).source() == old(self).source(),
            final(self).state() == moved(old(self).source(), old(self).state(), hws_end(old(self).source(), old(self).state().pos as nat)),
            wf(final(self).source(), final(self).state()),
    {
        let ghost s = self.source();
        let ghost st0 = self.state();
        while self.peek() == Some(' ') || self.peek() == Some('\t')
            invariant
                self.source() == s,
                wf(s, self.state()),
                st0.pos <= self.pos <= s.len(),
                self.state() == moved(s, st0, self.pos as nat),
                hws_end(s, st0.pos as nat) == hws_end(s, self.pos as nat),
            decreases s.len() - self.pos,
        {
            self.advance();
        }
    }

    /// Consumes the rest of the line, returning it.
    fn rest_of_line(&mut self) -> (r: Vec<char>)
        requires
            wf(old(self).source(), old(self).state()),
        ensures
            final(self).source() == old(self).source(),
            line_end(old(self).source(), old(self).state().pos as nat) <= final(self).source().len(),
            final(self).state() == moved(old(self).source(), old(self).state(), line_end(old(self).source(), old(self).state().pos as nat)),
            r@ == old(self).source().subrange(old(self).state().pos as int, line_end(old(self).source(), old(self).state().pos as nat) as int),
            wf(final(self).source(), final(self).state()),
    {
        let ghost s = self.source();
        let ghost st0 = self.state();
        let mut buf: Vec<char> = Vec::new();
        loop
            invariant
                self.source() == s,
                wf(s, self.state()),
                st0.pos <= self.pos <= s.len(),
                self.state() == moved(s, st0, self.pos as nat),
                line_end(s, st0.pos as nat) == line_end(s, self.pos as nat),
                buf@ == s.subrange(st0.pos as int, self.pos as int),
            ensures
                self.source() == s,
                wf(s, self.state()),
                st0.pos <= self.pos <= s.len(),
                self.state() == moved(s, st0, self.pos as nat),
                line_end(s, st0.pos as nat) == self.pos,
                buf@ == s.subrange(st0.pos as int, self.pos as int),
            decreases s.len() - self.pos,
        {
            match self.peek() {
                Some(c) => {
                    if c == '\n' || c == '\r' {
                        break;
                    }
                    self.advance();
                    buf.push(c);
                    assert(buf@ =~= s.subrange(st0.pos as int, self.pos as int));
                },
                None => break,
            }
        }
        buf
    }

    fn lex_comment(&mut self, line: usize, col: usize) -> (r: SpannedToken)
        requires
            wf(old(self).source(), old(self).state()),
            old(self).state().pos < old(self).source().len(),
            old(self).source()[old(self).state().pos as int] == '#',
            line == old(self).state().line,
            col == old(self).state().col,
        ensures
            final(self).source() == old(self).source(),
            r@ == comment_token(old(self).source(), old(self).state()).0,
            final(self).state() == comment_token(old(self).source(), old(self).state()).1,
            wf(final(self).source(), final(self).state()),
    {
        let ghost s = self.source();
        let ghost st = self.state();
        self.advance();
        proof { lemma_moved(s, st, (st.pos + 1) as nat); lemma_moved_one(s, st); }
        if self.pos == 2 && self.peek() == Some('!') {
            let ghost st1 = self.state();
            self.advance();
            proof {
                lemma_moved_one(s, st1);
                lemma_moved_trans(s, st, (st.pos + 1) as nat, (st.pos + 2) as nat);
                lemma_line_end(s, (st.pos + 2) as nat);
                lemma_moved_trans(s, st, (st.pos + 2) as nat, line_end(s, (st.pos + 2) as nat));
            }
            let rest = self.rest_of_line();
            let t = vec_trim(&rest);
            return SpannedToken { token: Token::Shebang(string_from_chars(t.as_slice())), line, col };
        }
        proof {
            lemma_line_end(s, (st.pos + 1) as nat);
            lemma_moved_trans(s, st, (st.pos + 1) as nat, line_end(s, (st.pos + 1) as nat));
        }
        let content = self.rest_of_line();
        let content = vec_trim(&content);
        SpannedToken { token: classify_comment_exec(&content), line, col }
    }

    fn lex_string(&mut self, line: usize, col: usize) -> (r: Result<SpannedToken, VenturiError>)
        requires
            wf(old(self).source(), old(self).state()),
            old(self).state().pos < old(self).source().len(),
            old(self).source()[old(self).state().pos as int] == '"' || old(self).source()[old(self).state().pos as int] == '\'',
            line == old(self).state().line,
            col == old(self).state().col,
        ensures
            final(self).source() == old(self).source(),
            wf(final(self).source(), final(self).state()),
            match scan_str(old(self).source(), (old(self).state().pos + 1) as nat, old(self).source()[old(self).state().pos as int]) {
                StrScan::Done(t, e) => r matches Ok(tok) && tok@ == (STok { token: Tok::StringLit(t), line, col })
                    && final(self).state() == moved(old(self).source(), old(self).state(), e),
                StrScan::Fail(m) => r matches Err(VenturiError::Parse { line: l, msg }) && l == line && msg@ == m,
            },
    {
        let ghost s = self.source();
        let ghost st = self.state();
        let quote = self.input[self.pos];
        self.advance();
        proof { lemma_moved_one(s, st); }
        let mut buf = String::new();
        assert(buf@ + seq![] =~= seq![]);
        loop
            invariant
                self.source() == s,
                wf(s, self.state()),
                s == old(self).source(),
                st == old(self).state(),
                quote == s[st.pos as int],
                st.pos + 1 <= self.pos <= s.len(),
                self.state() == moved(s, st, self.pos as nat),
                scan_str(s, (st.pos + 1) as nat, quote) == acc_scan(buf@, scan_str(s, self.pos as nat, quote)),
            decreases s.len() - self.pos,
        {
            let ghost p = self.pos;
            let ghost b0 = buf@;
            let ghost sp = self.state();
            let next = self.advance();
            assert(moved(s, st, (p + 1) as nat) == adv1(s, moved(s, st, p as nat)));
            match next {
                None => {
                    return Err(VenturiError::Parse { line, msg: String::from_str("Unterminated string literal") });
                },
                Some(c) => {
                    if c == '\\' {
                        let ghost sp2 = self.state();
                        let esc = self.advance();
                        assert(moved(s, st, (p + 2) as nat) == adv1(s, moved(s, st, (p + 1) as nat)));
                        match esc {
                            None => {
                                return Err(VenturiError::Parse { line, msg: String::from_str("Unterminated escape sequence") });
                            },
                            Some(e) => {
                                if e == 'n' {
                                    push_char(&mut buf, '\n');
                                } else if e == 't' {
                                    push_char(&mut buf, '\t');
                                } else if e == 'r' {
                                    push_char(&mut buf, '\r');
                                } else if e == '\\' {
                                    push_char(&mut buf, '\\');
                                } else if e == '"' {
                                    push_char(&mut buf, '"');
                                } else if e == '\'' {
                                    push_char(&mut buf, '\'');
                                } else {
                                    push_char(&mut buf, '\\');
                                    push_char(&mut buf, e);
                                }
                                assert(buf@ =~= b0 + unescape(e));
                                assert forall|t: Seq<char>| #![auto] (b0 + unescape(e)) + t =~= b0 + (unescape(e) + t) by {}
                            },
                        }
                    } else if c == quote {
                        assert(b0 + seq![] =~= b0);
                        return Ok(SpannedToken { token: Token::StringLit(buf), line, col });
                    } else {
                        push_char(&mut buf, c);
                        assert forall|t: Seq<char>| #![auto] (b0.push(c)) + t =~= b0 + (seq![c] + t) by {}
                    }
                },
            }
        }
    }

    fn lex_number(&mut self, line: usize, col: usize) -> (r: Result<SpannedToken, VenturiError>)
        requires
            wf(old(self).source(), old(self).state()),
            old(self).state().pos < old(self).source().len(),
            is_digit(old(self).source()[old(self).state().pos as int]),
            line == old(self).state().line,
            col == old(self).state().col,
        ensures
            final(self).source() == old(self).source(),
            wf(final(self).source(), final(self).state()),
            match number_tok(old(self).source().subrange(old(self).state().pos as int, num_end(old(self).source(), old(self).state().pos as nat) as int)) {
                Ok(t) => r matches Ok(tok) && tok@ == (STok { token: t, line, col })
                    && final(self).state() == moved(old(self).source(), old(self).state(), num_end(old(self).source(), old(self).state().pos as nat)),
                Err(m) => r matches Err(VenturiError::Parse { line: l, msg }) && l == line && msg@ == m,
            },
    {
        let ghost s = self.source();
        let ghost st = self.state();
        let start = self.pos;
        loop
            invariant
                self.source() == s,
                wf(s, self.state()),
                st.pos <= self.pos <= s.len(),
                start == st.pos,
                self.state() == moved(s, st, self.pos as nat),
                num_end(s, st.pos as nat) == num_end(s, self.pos as nat),
            ensures
                self.source() == s,
                wf(s, self.state()),
                st.pos <= self.pos <= s.len(),
                self.state() == moved(s, st, self.pos as nat),
                num_end(s, st.pos as nat) == self.pos,
            decreases s.len() - self.pos,
        {
            match self.peek() {
                Some(c) => {
                    if '0' <= c && c <= '9' {
                        self.advance();
                    } else if c == '.' && match self.peek_ahead(1) { Some(d) => '0' <= d && d <= '9', None => false } {
                        self.advance();
                    } else {
                        break;
                    }
                },
                None => break,
            }
        }
        proof {
            lemma_num_end(s, (st.pos + 1) as nat);
            assert(num_end(s, st.pos as nat) == num_end(s, (st.pos + 1) as nat));
            lemma_num_end_chars(s, st.pos as nat);
        }
        let text = vec_slice(&self.input, start, self.pos);
        match number_token(&text) {
            Ok(t) => Ok(SpannedToken { token: t, line, col }),
            Err(m) => Err(VenturiError::Parse { line, msg: m }),
        }
    }

    fn lex_ident_or_keyword(&mut self, line: usize, col: usize) -> (r: SpannedToken)
        requires
            wf(old(self).source(), old(self).state()),
            old(self).state().pos < old(self).source().len(),
            line == old(self).state().line,
            col == old(self).state().col,
        ensures
            final(self).source() == old(self).source(),
            wf(final(self).source(), final(self).state()),
            r@ == (STok { token: classify_ident(old(self).source().subrange(old(self).state().pos as int,
                ident_end(old(self).source(), (old(self).state().pos + 1) as nat) as int)), line, col }),
            final(self).state() == moved(old(self).source(), old(self).state(), ident_end(old(self).source(), (old(self).state().pos + 1) as nat)),
    {
        let ghost s = self.source();
        let ghost st = self.state();
        let start = self.pos;
        self.advance();
        proof { lemma_moved_one(s, st); }
        loop
            invariant
                self.source() == s,
                wf(s, self.state()),
                st.pos + 1 <= self.pos <= s.len(),
                start == st.pos,
                self.state() == moved(s, st, self.pos as nat),
                ident_end(s, (st.pos + 1) as nat) == ident_end(s, self.pos as nat),
            ensures
                self.source() == s,
                wf(s, self.state()),
                st.pos + 1 <= self.pos <= s.len(),
                self.state() == moved(s, st, self.pos as nat),
                ident_end(s, (st.pos + 1) as nat) == self.pos,
            decreases s.len() - self.pos,
        {
            match self.peek() {
                Some(c) => {
                    if alphanumeric(c) || c == '_' || c == '.' || c == '/' || c == '-' {
                        if c == '-' && self.peek_ahead(1) == Some('>') {
                            break;
                        }
                        self.advance();
                    } else {
                        break;
                    }
                },
                None => break,
            }
        }
        let ident = vec_slice(&self.input, start, self.pos);
        SpannedToken { token: classify_ident_exec(&ident), line, col }
    }

    fn single(&mut self, t: Token, line: usize, col: usize) -> (r: SpannedToken)
        requires
            wf(old(self).source(), old(self).state()),
            old(self).state().pos < old(self).source().len(),
        ensures
            final(self).source() == old(self).source(),
            wf(final(self).source(), final(self).state()),
            r@ == (STok { token: t@, line, col }),
            final(self).state() == moved(old(self).source(), old(self).state(), (old(self).state().pos + 1) as nat),
    {
        proof { lemma_moved_one(self.source(), self.state()); }
        self.advance();
        SpannedToken { token: t, line, col }
    }

    fn body(&mut self) -> (r: Result<SpannedToken, VenturiError>)
        requires
            wf(old(self).source(), old(self).state()),
            old(self).state().pending.len() == 0,
        ensures
            final(self).source() == old(self).source(),
            step_matches(r, body_token(old(self).source(), old(self).state()), final(self).state()),
    {
        let ghost s = self.source();
        let ghost st0 = self.state();
        self.skip_hws();
        let ghost st = self.state();
        proof {
            lemma_hws_end(s, st0.pos as nat);
            lemma_moved(s, st0, hws_end(s, st0.pos as nat));
        }
        let line = self.line;
        let col = self.col;
        match self.peek() {
            None => {
                let ghost d = STok { token: Tok::Dedent, line, col };
                while self.indent_stack.len() > 1
                    invariant
                        self.source() == s,
                        self.pos == st.pos,
                        self.line == line,
                        self.col == col,
                        self.at_line_start == st.at_line_start,
                        d == (STok { token: Tok::Dedent, line, col }),
                        1 <= self.indent_stack@.len() <= st.stack.len(),
                        self.indent_stack@ == st.stack.subrange(0, self.indent_stack@.len() as int),
                        toks(self.pending@) == repeat(d, (st.stack.len() - self.indent_stack@.len()) as nat),
                        st.stack.len() >= 1,
                    decreases self.indent_stack.len(),
                {
                    let ghost pv = self.pending@;
                    self.indent_stack.pop();
                    let x = SpannedToken { token: Token::Dedent, line, col };
                    self.pending.push(x);
                    proof {
                        lemma_toks_push(pv, x);
                        lemma_repeat_push(d, (st.stack.len() - self.indent_stack@.len() - 1) as nat);
                    }
                    assert(self.indent_stack@ =~= st.stack.subrange(0, self.indent_stack@.len() as int));
                }
                if self.pending.len() > 0 {
                    let ghost pv = self.pending@;
                    let t = self.pending.remove(0);
                    proof {
                        lemma_toks_drop_first(pv);
                        lemma_repeat_push(d, (st.stack.len() - 1) as nat);
                    }
                    Ok(t)
                } else {
                    assert(self.indent_stack@ =~= st.stack);
                    assert(toks(self.pending@) =~= st.pending);
                    Ok(SpannedToken { token: Token::Eof, line, col })
                }
            },
            Some(c) => {
                if c == '\n' || c == '\r' {
                    proof {
                        lemma_moved_one(s, st);
                        lemma_moved_adv(s, st, (st.pos + 1) as nat);
                    }
                    if self.peek() == Some('\r') {
                        self.advance();
                    }
                    if self.peek() == Some('\n') {
                        self.advance();
                    }
                    self.at_line_start = true;
                    Ok(SpannedToken { token: Token::Newline, line, col })
                } else if c == '#' {
                    Ok(self.lex_comment(line, col))
                } else if c == '"' || c == '\'' {
                    self.lex_string(line, col)
                } else if '0' <= c && c <= '9' {
                    self.lex_number(line, col)
                } else if alphabetic(c) || c == '_' {
                    Ok(self.lex_ident_or_keyword(line, col))
                } else if c == '-' {
                    proof {
                        lemma_moved_one(s, st);
                        lemma_moved_adv(s, st, (st.pos + 1) as nat);
                    }
                    self.advance();
                    if self.peek() == Some('>') {
                        self.advance();
                        Ok(SpannedToken { token: Token::Arrow, line, col })
                    } else {
                        Ok(SpannedToken { token: Token::Minus, line, col })
                    }
                } else {
                    match punct_token(c) {
                        Some(t) => Ok(self.single(t, line, col)),
                        None => {
                            let m = concat("Unexpected character: ", char_debug(c).as_str());
                            Err(VenturiError::Parse { line, msg: m })
                        },
                    }
                }
            },
        }
    }

    fn next_token(&mut self) -> (r: Result<SpannedToken, VenturiError>)
        requires
            wf(old(self).source(), old(self).state()),
            old(self).state().pending.len() == 0,
        ensures
            final(self).source() == old(self).source(),
            step_matches(r, spec_next_token(old(self).source(), old(self).state()), final(self).state()),
    {
        let ghost s = self.source();
        let ghost st = self.state();
        if self.at_line_start {
            self.at_line_start = false;
            let ghost st0 = self.state();
            let indent_level = self.skip_spaces();
            let ghost st1 = self.state();
            proof {
                lemma_space_end(s, st0.pos as nat);
                lemma_moved(s, st0, space_end(s, st0.pos as nat));
            }
            let c = self.peek();
            if c == None || c == Some('\n') || c == Some('\r') || c == Some('#') {
            } else {
                let current_indent = if self.indent_stack.len() > 0 {
                    self.indent_stack[self.indent_stack.len() - 1]
                } else {
                    0
                };
                if indent_level > current_indent {
                    self.indent_stack.push(indent_level);
                    return Ok(SpannedToken { token: Token::Indent, line: self.line, col: self.col });
                } else if indent_level < current_indent {
                    let line = self.line;
                    let col = self.col;
                    let ghost d = STok { token: Tok::Dedent, line, col };
                    proof { lemma_pop_above(st1.stack, indent_level as nat); }
                    while self.indent_stack.len() > 0 && self.indent_stack[self.indent_stack.len() - 1] > indent_level
                        invariant
                            self.source() == s,
                            self.pos == st1.pos,
                            self.line == line,
                            self.col == col,
                            self.at_line_start == st1.at_line_start,
                            d == (STok { token: Tok::Dedent, line, col }),
                            self.indent_stack@.len() <= st1.stack.len(),
                            self.indent_stack@ == st1.stack.subrange(0, self.indent_stack@.len() as int),
                            pop_above(self.indent_stack@, indent_level as nat) == pop_above(st1.stack, indent_level as nat),
                            toks(self.pending@) == repeat(d, (st1.stack.len() - self.indent_stack@.len()) as nat),
                        decreases self.indent_stack.len(),
                    {
                        let ghost pv = self.pending@;
                        self.indent_stack.pop();
                        let x = SpannedToken { token: Token::Dedent, line, col };
                        self.pending.push(x);
                        proof {
                            lemma_toks_push(pv, x);
                            lemma_repeat_push(d, (st1.stack.len() - self.indent_stack@.len() - 1) as nat);
                        }
                        assert(self.indent_stack@ =~= st1.stack.subrange(0, self.indent_stack@.len() as int));
                    }
                    if self.pending.len() > 0 {
                        let ghost pv = self.pending@;
                        let t = self.pending.remove(0);
                        proof {
                            lemma_toks_drop_first(pv);
                            lemma_repeat_push(d, (st1.stack.len() - self.indent_stack@.len()) as nat);
                        }
                        return Ok(t);
                    }
                }
            }
        }
        self.body()
    }

    /// Lexes the whole input: every token in order, the last one `Eof`, or
    /// the first error.
    pub fn tokenize(&mut self) -> (r: Result<Vec<SpannedToken>, VenturiError>)
        requires
            wf(old(self).source(), old(self).state()),
        ensures
            lex_result_matches(r, spec_tokenize(old(self).source(), old(self).state())),
    {
        let ghost s = self.source();
        let ghost st0 = self.state();
        let mut tokens: Vec<SpannedToken> = Vec::new();
        assert(prefixed(toks(tokens@), spec_tokenize(s, st0)) == spec_tokenize(s, st0)) by {
            assert(toks(tokens@) =~= seq![]);
            match spec_tokenize(s, st0) {
                Ok(x) => { assert(seq![] + x =~= x); },
                Err(e) => {},
            }
        }
        loop
            invariant
                self.source() == s,
                s == old(self).source(),
                st0 == old(self).state(),
                wf(s, st0),
                wf(s, self.state()),
                spec_tokenize(s, st0) == prefixed(toks(tokens@), spec_tokenize(s, self.state())),
            decreases (s.len() - self.pos), self.indent_stack.len(), self.pending.len(),
        {
            let ghost cur = self.state();
            let ghost acc = toks(tokens@);
            if self.pending.len() > 0 {
                let ghost pv = self.pending@;
                let tok = self.pending.remove(0);
                proof { lemma_toks_drop_first(pv); }
                let is_eof = match tok.token { Token::Eof => true, _ => false };
                let ghost tv = tokens@;
                tokens.push(tok);
                proof { lemma_toks_push(tv, tok); }
                if is_eof {
                    assert(acc + seq![tok@] =~= acc.push(tok@));
                    return Ok(tokens);
                }
                proof {
                    match spec_tokenize(s, self.state()) {
                        Ok(x) => { assert(acc + (seq![tok@] + x) =~= acc.push(tok@) + x); },
                        Err(e) => {},
                    }
                }
            } else {
                proof { lemma_next_progress(s, cur); }
                match self.next_token() {
                    Err(e) => {
                        return Err(e);
                    },
                    Ok(tok) => {
                        let is_eof = match tok.token { Token::Eof => true, _ => false };
                        let ghost tv = tokens@;
                        tokens.push(tok);
                        proof { lemma_toks_push(tv, tok); }
                        if is_eof {
                            assert(acc + seq![tok@] =~= acc.push(tok@));
                            return Ok(tokens);
                        }
                        proof {
                            match spec_tokenize(s, self.state()) {
                                Ok(x) => { assert(acc + (seq![tok@] + x) =~= acc.push(tok@) + x); },
                                Err(e) => {},
                            }
                        }
                    },
                }
            }
        }
    }
}

/// How `Debug` shows a token (a float literal shows the digits it was
/// written with).
pub open spec fn tok_debug(t: Tok) -> Seq<char> {
    match t {
        Tok::Comment => "Comment"@,
        Tok::KwInput => "KwInput"@,
        Tok::KwOutput => "KwOutput"@,
        Tok::KwFunc => "KwFunc"@,
        Tok::KwTry => "KwTry"@,
        Tok::KwCatch => "KwCatch"@,
        Tok::KwReturn => "KwReturn"@,
        Tok::KwUse => "KwUse"@,
        Tok::KwChassis => "KwChassis"@,
        Tok::KwPit => "KwPit"@,
        Tok::KwAs => "KwAs"@,
        Tok::KwLog => "KwLog"@,
        Tok::Colon => "Colon"@,
        Tok::Equals => "Equals"@,
        Tok::Comma => "Comma"@,
        Tok::Dot => "Dot"@,
        Tok::Arrow => "Arrow"@,
        Tok::LParen => "LParen"@,
        Tok::RParen => "RParen"@,
        Tok::LBracket => "LBracket"@,
        Tok::RBracket => "RBracket"@,
        Tok::Plus => "Plus"@,
        Tok::Minus => "Minus"@,
        Tok::Star => "Star"@,
        Tok::Slash => "Slash"@,
        Tok::Indent => "Indent"@,
        Tok::Dedent => "Dedent"@,
        Tok::Newline => "Newline"@,
        Tok::At => "At"@,
        Tok::ResultOk => "ResultOk"@,
        Tok::ResultErr => "ResultErr"@,
        Tok::Eof => "Eof"@,
        Tok::Shebang(s) => "Shebang("@ + spec_str_debug(s) + ")"@,
        Tok::VanDecl(s) => "VanDecl("@ + spec_str_debug(s) + ")"@,
        Tok::MetaComment(s) => "MetaComment("@ + spec_str_debug(s) + ")"@,
        Tok::Ident(s) => "Ident("@ + spec_str_debug(s) + ")"@,
        Tok::TypeName(s) => "TypeName("@ + spec_str_debug(s) + ")"@,
        Tok::StringLit(s) => "StringLit("@ + spec_str_debug(s) + ")"@,
        Tok::IntLit(n) => "IntLit("@ + signed_decimal(n as int) + ")"@,
        Tok::FloatLit(s) => "FloatLit("@ + s + ")"@,
        Tok::BoolLit(b) => if b { "BoolLit(true)"@ } else { "BoolLit(false)"@ },
    }
}

fn wrap(head: &str, inner: &str) -> (r: String)
    ensures
        r@ == head@ + inner@ + ")"@,
{
    let a = concat(head, inner);
    concat(a.as_str(), ")")
}

/// Lexes a whole source text.
pub fn tokenize(source: &str) -> (r: Result<Vec<SpannedToken>, VenturiError>)
    requires
        source@.len() < usize::MAX,
    ensures
        lex_result_matches(r, spec_tokenize(source@, initial_state())),
{
    let mut lexer = Lexer::new(source);
    lexer.tokenize()
}

/// How `Debug` shows a token.
pub fn token_debug(t: &Token) -> (r: String)
    ensures
        r@ == tok_debug(t@),
{
    match t {
        Token::Comment => String::from_str("Comment"),
        Token::KwInput => String::from_str("KwInput"),
        Token::KwOutput => String::from_str("KwOutput"),
        Token::KwFunc => String::from_str("KwFunc"),
        Token::KwTry => String::from_str("KwTry"),
        Token::KwCatch => String::from_str("KwCatch"),
        Token::KwReturn => String::from_str("KwReturn"),
        Token::KwUse => String::from_str("KwUse"),
        Token::KwChassis => String::from_str("KwChassis"),
        Token::KwPit => String::from_str("KwPit"),
        Token::KwAs => String::from_str("KwAs"),
        Token::KwLog => String::from_str("KwLog"),
        Token::Colon => String::from_str("Colon"),
        Token::Equals => String::from_str("Equals"),
        Token::Comma => String::from_str("Comma"),
        Token::Dot => String::from_str("Dot"),
        Token::Arrow => String::from_str("Arrow"),
        Token::LParen => String::from_str("LParen"),
        Token::RParen => String::from_str("RParen"),
        Token::LBracket => String::from_str("LBracket"),
        Token::RBracket => String::from_str("RBracket"),
        Token::Plus => String::from_str("Plus"),
        Token::Minus => String::from_str("Minus"),
        Token::Star => String::from_str("Star"),
        Token::Slash => String::from_str("Slash"),
        Token::Indent => String::from_str("Indent"),
        Token::Dedent => String::from_str("Dedent"),
        Token::Newline => String::from_str("Newline"),
        Token::At => String::from_str("At"),
        Token::ResultOk => String::from_str("ResultOk"),
        Token::ResultErr => String::from_str("ResultErr"),
        Token::Eof => String::from_str("Eof"),
        Token::Shebang(s) => wrap("Shebang(", str_debug(s.as_str()).as_str()),
        Token::VanDecl(s) => wrap("VanDecl(", str_debug(s.as_str()).as_str()),
        Token::MetaComment(s) => wrap("MetaComment(", str_debug(s.as_str()).as_str()),
        Token::Ident(s) => wrap("Ident(", str_debug(s.as_str()).as_str()),
        Token::TypeName(s) => wrap("TypeName(", str_debug(s.as_str()).as_str()),
        Token::StringLit(s) => wrap("StringLit(", str_debug(s.as_str()).as_str()),
        Token::IntLit(n) => wrap("IntLit(", i64_to_decimal(*n).as_str()),
        Token::FloatLit(s) => wrap("FloatLit(", s.as_str()),
        Token::BoolLit(b) => if *b { String::from_str("BoolLit(true)") } else { String::from_str("BoolLit(false)") },
    }
}

/// A copy of a token.
pub fn copy_token(t: &Token) -> (r: Token)
    ensures
        r@ == t@,
{
    match t {
        Token::Comment => Token::Comment,
        Token::KwInput => Token::KwInput,
        Token::KwOutput => Token::KwOutput,
        Token::KwFunc => Token::KwFunc,
        Token::KwTry => Token::KwTry,
        Token::KwCatch => Token::KwCatch,
        Token::KwReturn => Token::KwReturn,
        Token::KwUse => Token::KwUse,
        Token::KwChassis => Token::KwChassis,
        Token::KwPit => Token::KwPit,
        Token::KwAs => Token::KwAs,
        Token::KwLog => Token::KwLog,
        Token::Colon => Token::Colon,
        Token::Equals => Token::Equals,
        Token::Comma => Token::Comma,
        Token::Dot => Token::Dot,
        Token::Arrow => Token::Arrow,
        Token::LParen => Token::LParen,
        Token::RParen => Token::RParen,
        Token::LBracket => Token::LBracket,
        Token::RBracket => Token::RBracket,
        Token::Plus => Token::Plus,
        Token::Minus => Token::Minus,
        Token::Star => Token::Star,
        Token::Slash => Token::Slash,
        Token::Indent => Token::Indent,
        Token::Dedent => Token::Dedent,
        Token::Newline => Token::Newline,
        Token::At => Token::At,
        Token::ResultOk => Token::ResultOk,
        Token::ResultErr => Token::ResultErr,
        Token::Eof => Token::Eof,
        Token::Shebang(x) => Token::Shebang(x.clone()),
        Token::VanDecl(x) => Token::VanDecl(x.clone()),
        Token::MetaComment(x) => Token::MetaComment(x.clone()),
        Token::Ident(x) => Token::Ident(x.clone()),
        Token::TypeName(x) => Token::TypeName(x.clone()),
        Token::StringLit(x) => Token::StringLit(x.clone()),
        Token::FloatLit(x) => Token::FloatLit(x.clone()),
        Token::IntLit(n) => Token::IntLit(*n),
        Token::BoolLit(b) => Token::BoolLit(*b),
    }
}

/// The variant of a token value, as a number.
pub open spec fn tok_tag(t: Tok) -> int {
    match t {
        Tok::Comment => 0,
        Tok::KwInput => 1,
        Tok::KwOutput => 2,
        Tok::KwFunc => 3,
        Tok::KwTry => 4,
        Tok::KwCatch => 5,
        Tok::KwReturn => 6,
        Tok::KwUse => 7,
        Tok::KwChassis => 8,
        Tok::KwPit => 9,
        Tok::KwAs => 10,
        Tok::KwLog => 11,
        Tok::Colon => 12,
        Tok::Equals => 13,
        Tok::Comma => 14,
        Tok::Dot => 15,
        Tok::Arrow => 16,
        Tok::LParen => 17,
        Tok::RParen => 18,
        Tok::LBracket => 19,
        Tok::RBracket => 20,
        Tok::Plus => 21,
        Tok::Minus => 22,
        Tok::Star => 23,
        Tok::Slash => 24,
        Tok::Indent => 25,
        Tok::Dedent => 26,
        Tok::Newline => 27,
        Tok::At => 28,
        Tok::ResultOk => 29,
        Tok::ResultErr => 30,
        Tok::Eof => 31,
        Tok::Shebang(..) => 32,
        Tok::VanDecl(..) => 33,
        Tok::MetaComment(..) => 34,
        Tok::Ident(..) => 35,
        Tok::TypeName(..) => 36,
        Tok::StringLit(..) => 37,
        Tok::FloatLit(..) => 38,
        Tok::IntLit(..) => 39,
        Tok::BoolLit(..) => 40,
    }
}

proof fn lemma_tag_injective(a: Tok, b: Tok)
    requires
        tok_tag(a) != tok_tag(b),
    ensures
        a != b,
{
}
/// Whether two tokens are the same token.
#[verifier::rlimit(60)]
pub fn token_eq(a: &Token, b: &Token) -> (r: bool)
    ensures
        r == (a@ == b@),
{
    proof {
        if tok_tag(a@) != tok_tag(b@) {
            lemma_tag_injective(a@, b@);
        }
    }
    match a {
        Token::Comment => match b { Token::Comment => true, _ => false },
        Token::KwInput => match b { Token::KwInput => true, _ => false },
        Token::KwOutput => match b { Token::KwOutput => true, _ => false },
        Token::KwFunc => match b { Token::KwFunc => true, _ => false },
        Token::KwTry => match b { Token::KwTry => true, _ => false },
        Token::KwCatch => match b { Token::KwCatch => true, _ => false },
        Token::KwReturn => match b { Token::KwReturn => true, _ => false },
        Token::KwUse => match b { Token::KwUse => true, _ => false },
        Token::KwChassis => match b { Token::KwChassis => true, _ => false },
        Token::KwPit => match b { Token::KwPit => true, _ => false },
        Token::KwAs => match b { Token::KwAs => true, _ => false },
        Token::KwLog => match b { Token::KwLog => true, _ => false },
        Token::Colon => match b { Token::Colon => true, _ => false },
        Token::Equals => match b { Token::Equals => true, _ => false },
        Token::Comma => match b { Token::Comma => true, _ => false },
        Token::Dot => match b { Token::Dot => true, _ => false },
        Token::Arrow => match b { Token::Arrow => true, _ => false },
        Token::LParen => match b { Token::LParen => true, _ => false },
        Token::RParen => match b { Token::RParen => true, _ => false },
        Token::LBracket => match b { Token::LBracket => true, _ => false },
        Token::RBracket => match b { Token::RBracket => true, _ => false },
        Token::Plus => match b { Token::Plus => true, _ => false },
        Token::Minus => match b { Token::Minus => true, _ => false },
        Token::Star => match b { Token::Star => true, _ => false },
        Token::Slash => match b { Token::Slash => true, _ => false },
        Token::Indent => match b { Token::Indent => true, _ => false },
        Token::Dedent => match b { Token::Dedent => true, _ => false },
        Token::Newline => match b { Token::Newline => true, _ => false },
        Token::At => match b { Token::At => true, _ => false },
        Token::ResultOk => match b { Token::ResultOk => true, _ => false },
        Token::ResultErr => match b { Token::ResultErr => true, _ => false },
        Token::Eof => match b { Token::Eof => true, _ => false },
        Token::Shebang(x) => match b { Token::Shebang(y) => *x == *y, _ => false },
        Token::VanDecl(x) => match b { Token::VanDecl(y) => *x == *y, _ => false },
        Token::MetaComment(x) => match b { Token::MetaComment(y) => *x == *y, _ => false },
        Token::Ident(x) => match b { Token::Ident(y) => *x == *y, _ => false },
        Token::TypeName(x) => match b { Token::TypeName(y) => *x == *y, _ => false },
        Token::StringLit(x) => match b { Token::StringLit(y) => *x == *y, _ => false },
        Token::FloatLit(x) => match b { Token::FloatLit(y) => *x == *y, _ => false },
        Token::IntLit(x) => match b { Token::IntLit(y) => *x == *y, _ => false },
        Token::BoolLit(x) => match b { Token::BoolLit(y) => *x == *y, _ => false },
    }
}


/// Whatever the source, a token sequence that lexing produces is non-empty
/// and ends with `Eof`.
pub proof fn lemma_tokens_end_with_eof(s: Seq<char>, st: LexState)
    requires
        wf(s, st),
    ensures
        spec_tokenize(s, st) matches Ok(ts) ==> ts.len() > 0 && ts.last().token is Eof,
    decreases (s.len() - st.pos) as nat, st.stack.len(), st.pending.len(),
{
    if st.pending.len() > 0 {
        let t = st.pending[0];
        if !(t.token is Eof) {
            let st1 = LexState { pending: st.pending.drop_first(), ..st };
            lemma_tokens_end_with_eof(s, st1);
            if let Ok(r) = spec_tokenize(s, st1) {
                assert((seq![t] + r).last() == r.last());
            }
        }
    } else {
        lemma_next_progress(s, st);
        if let Ok((t, st2)) = spec_next_token(s, st) {
            if !(t.token is Eof) {
                lemma_tokens_end_with_eof(s, st2);
                if let Ok(r) = spec_tokenize(s, st2) {
                    assert((seq![t] + r).last() == r.last());
                }
            }
        }
    }
}

/// Inside a string literal the two characters backslash and `n` stand for
/// one newline character, backslash `t` for a tab and backslash `r` for a
/// carriage return; a backslash before a backslash or a quote stands for
/// that character, and before any other character both are kept. The text
/// scanned from the backslash is that, followed by the text scanned after
/// the escape, and the literal ends where it would have ended from there.
pub proof fn lemma_string_escapes(s: Seq<char>, i: nat, q: char)
    requires
        i + 1 < s.len(),
        s[i as int] == '\\',
    ensures
        scan_str(s, i + 2, q) matches StrScan::Done(t, e) ==> {
            let c = s[i + 1int];
            &&& c == 'n' ==> scan_str(s, i, q) == StrScan::Done(seq!['\n'] + t, e)
            &&& c == 't' ==> scan_str(s, i, q) == StrScan::Done(seq!['\t'] + t, e)
            &&& c == 'r' ==> scan_str(s, i, q) == StrScan::Done(seq!['\r'] + t, e)
            &&& c == '\\' ==> scan_str(s, i, q) == StrScan::Done(seq!['\\'] + t, e)
            &&& c == '"' ==> scan_str(s, i, q) == StrScan::Done(seq!['"'] + t, e)
            &&& c == '\'' ==> scan_str(s, i, q) == StrScan::Done(seq!['\''] + t, e)
            &&& !(c == 'n' || c == 't' || c == 'r' || c == '\\' || c == '"' || c == '\'')
                ==> scan_str(s, i, q) == StrScan::Done(seq!['\\', c] + t, e)
        },
        s[i + 1int] == 'n' ==> (scan_str(s, i, q) matches StrScan::Done(t, _) ==> t.len() > 0 && t[0] == '\n'),
        scan_str(s, i + 2, q) is Fail ==> scan_str(s, i, q) == scan_str(s, i + 2, q),
{
}

} // verus!
