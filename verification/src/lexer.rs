//! Tokens of the gph flowchart language.
use vstd::prelude::*;
use crate::text::{
    append_str, chars_of, is_ascii_alnum, is_ascii_alpha, is_white_space, ascii_alnum, ascii_alpha,
    white_space, string_of,
};

verus! {

/// The kind of a token, with its text where it carries one.
#[derive(Debug, Clone, PartialEq)]
pub enum TokenKind {
    LParen,
    RParen,
    Arrow(String),
    Ident(String),
    Str(String),
}

/// A token and the 1-based line and column where it starts.
#[derive(Debug, Clone)]
pub struct Token {
    pub kind: TokenKind,
    pub line: usize,
    pub col: usize,
}

/// Why and where lexing stopped.
#[derive(Debug)]
pub struct LexError {
    pub msg: String,
    pub line: usize,
    pub col: usize,
}

pub enum SpecTokenKind {
    LParen,
    RParen,
    Arrow(Seq<char>),
    Ident(Seq<char>),
    Str(Seq<char>),
}

pub struct SpecToken {
    pub kind: SpecTokenKind,
    pub line: int,
    pub col: int,
}

pub struct SpecLexError {
    pub msg: Seq<char>,
    pub line: int,
    pub col: int,
}

impl View for TokenKind {
    type V = SpecTokenKind;

    open spec fn view(&self) -> SpecTokenKind {
        match self {
            TokenKind::LParen => SpecTokenKind::LParen,
            TokenKind::RParen => SpecTokenKind::RParen,
            TokenKind::Arrow(s) => SpecTokenKind::Arrow(s@),
            TokenKind::Ident(s) => SpecTokenKind::Ident(s@),
            TokenKind::Str(s) => SpecTokenKind::Str(s@),
        }
    }
}

impl View for Token {
    type V = SpecToken;

    open spec fn view(&self) -> SpecToken {
        SpecToken { kind: self.kind@, line: self.line as int, col: self.col as int }
    }
}

impl View for LexError {
    type V = SpecLexError;

    open spec fn view(&self) -> SpecLexError {
        SpecLexError { msg: self.msg@, line: self.line as int, col: self.col as int }
    }
}

pub open spec fn tokens_view(v: Seq<Token>) -> Seq<SpecToken> {
    v.map_values(|t: Token| t@)
}

/// An identifier starts with an ASCII letter or `_`.
pub open spec fn is_ident_start_char(c: char) -> bool {
    is_ascii_alpha(c) || c == '_'
}

/// An identifier continues with ASCII letters, digits, `_` and `-`.
pub open spec fn is_ident_continue_char(c: char) -> bool {
    is_ascii_alnum(c) || c == '_' || c == '-'
}

/// The character an escape sequence `\e` stands for.
pub open spec fn unescape_char(e: char) -> char {
    if e == 'n' {
        '\n'
    } else if e == 't' {
        '\t'
    } else {
        e
    }
}

pub open spec fn lex_err(msg: Seq<char>, line: int, col: int) -> SpecLexError {
    SpecLexError { msg, line, col }
}

/// The end of a comment started at `pos`: the next `'\n'`, or the end of input.
pub open spec fn comment_end(chars: Seq<char>, pos: int) -> int
    decreases chars.len() - pos,
{
    if pos >= chars.len() || chars[pos] == '\n' {
        pos
    } else {
        comment_end(chars, pos + 1)
    }
}

/// The end of an identifier whose first character is before `pos`.
pub open spec fn ident_end(chars: Seq<char>, pos: int) -> int
    decreases chars.len() - pos,
{
    if pos >= chars.len() || !is_ident_continue_char(chars[pos]) {
        pos
    } else {
        ident_end(chars, pos + 1)
    }
}

/// The arrow that starts with the `-` at `pos`, longest first.
pub open spec fn dash_arrow(chars: Seq<char>, pos: int) -> Option<Seq<char>> {
    if pos + 2 < chars.len() && chars[pos + 1] == '-' && chars[pos + 2] == '>' {
        Some("-->"@)
    } else if pos + 1 < chars.len() && chars[pos + 1] == '>' {
        Some("->"@)
    } else if pos + 1 < chars.len() && chars[pos + 1] == 'o' {
        Some("-o"@)
    } else if pos + 1 < chars.len() && chars[pos + 1] == 'x' {
        Some("-x"@)
    } else {
        None
    }
}

/// The outcome of scanning a string literal body.
pub enum SpecScan {
    Done { text: Seq<char>, pos: int, line: int, col: int },
    Failed(SpecLexError),
}

/// Scan a string literal body from `pos` (just after the opening quote) with
/// `text` read so far; `(tl, tc)` is where the literal started.
pub open spec fn scan_string(
    chars: Seq<char>,
    pos: int,
    line: int,
    col: int,
    text: Seq<char>,
    tl: int,
    tc: int,
) -> SpecScan
    decreases chars.len() - pos,
{
    if pos < 0 || pos >= chars.len() {
        SpecScan::Failed(lex_err("unterminated string literal"@, tl, tc))
    } else if chars[pos] == '"' {
        SpecScan::Done { text, pos: pos + 1, line, col: col + 1 }
    } else if chars[pos] == '\\' {
        if pos + 1 >= chars.len() {
            SpecScan::Failed(lex_err("unexpected end of escape sequence"@, line, col + 1))
        } else {
            scan_string(chars, pos + 2, line, col + 2, text.push(unescape_char(chars[pos + 1])), tl, tc)
        }
    } else if chars[pos] == '\n' {
        scan_string(chars, pos + 1, line + 1, 1, text.push('\n'), tl, tc)
    } else {
        scan_string(chars, pos + 1, line, col + 1, text.push(chars[pos]), tl, tc)
    }
}

/// One step of the lexer at `pos`.
pub enum SpecStep {
    Skip { pos: int, line: int, col: int },
    Emit { tok: SpecToken, pos: int, line: int, col: int },
    Fail(SpecLexError),
}

pub open spec fn unexpected_msg(c: char) -> Seq<char> {
    "unexpected character '"@ + seq![c] + "'"@
}

pub open spec fn lex_step(chars: Seq<char>, pos: int, line: int, col: int) -> SpecStep
    recommends
        0 <= pos < chars.len(),
{
    let c = chars[pos];
    if is_white_space(c) {
        if c == '\n' {
            SpecStep::Skip { pos: pos + 1, line: line + 1, col: 1 }
        } else {
            SpecStep::Skip { pos: pos + 1, line, col: col + 1 }
        }
    } else if c == ';' {
        SpecStep::Skip { pos: comment_end(chars, pos), line, col }
    } else if c == '(' {
        SpecStep::Emit {
            tok: SpecToken { kind: SpecTokenKind::LParen, line, col },
            pos: pos + 1,
            line,
            col: col + 1,
        }
    } else if c == ')' {
        SpecStep::Emit {
            tok: SpecToken { kind: SpecTokenKind::RParen, line, col },
            pos: pos + 1,
            line,
            col: col + 1,
        }
    } else if c == '"' {
        match scan_string(chars, pos + 1, line, col + 1, seq![], line, col) {
            SpecScan::Done { text, pos: p, line: l, col: k } => SpecStep::Emit {
                tok: SpecToken { kind: SpecTokenKind::Str(text), line, col },
                pos: p,
                line: l,
                col: k,
            },
            SpecScan::Failed(e) => SpecStep::Fail(e),
        }
    } else if c == '-' {
        match dash_arrow(chars, pos) {
            Some(a) => SpecStep::Emit {
                tok: SpecToken { kind: SpecTokenKind::Arrow(a), line, col },
                pos: pos + a.len(),
                line,
                col: col + a.len(),
            },
            None => SpecStep::Fail(lex_err("expected arrow (->, -->, =>, -o, -x)"@, line, col)),
        }
    } else if c == '=' {
        if pos + 1 < chars.len() && chars[pos + 1] == '>' {
            SpecStep::Emit {
                tok: SpecToken { kind: SpecTokenKind::Arrow("=>"@), line, col },
                pos: pos + 2,
                line,
                col: col + 2,
            }
        } else {
            SpecStep::Fail(lex_err(unexpected_msg(c), line, col))
        }
    } else if is_ident_start_char(c) {
        let end = ident_end(chars, pos);
        SpecStep::Emit {
            tok: SpecToken {
                kind: SpecTokenKind::Ident(chars.subrange(pos, end)),
                line,
                col,
            },
            pos: end,
            line,
            col: col + (end - pos),
        }
    } else {
        SpecStep::Fail(lex_err(unexpected_msg(c), line, col))
    }
}

pub open spec fn step_pos(s: SpecStep) -> int {
    match s {
        SpecStep::Skip { pos, .. } => pos,
        SpecStep::Emit { pos, .. } => pos,
        SpecStep::Fail(_) => 0,
    }
}

pub open spec fn prepend_token(t: SpecToken, r: Result<Seq<SpecToken>, SpecLexError>) -> Result<
    Seq<SpecToken>,
    SpecLexError,
> {
    match r {
        Ok(ts) => Ok(seq![t] + ts),
        Err(e) => Err(e),
    }
}

/// The tokens of `chars` from `pos` on, with `(line, col)` the position of `pos`.
pub open spec fn lex_from(chars: Seq<char>, pos: int, line: int, col: int) -> Result<
    Seq<SpecToken>,
    SpecLexError,
>
    decreases chars.len() - pos,
{
    if pos < 0 || pos >= chars.len() {
        Ok(seq![])
    } else {
        match lex_step(chars, pos, line, col) {
            SpecStep::Skip { pos: p, line: l, col: k } => if pos < p <= chars.len() {
                lex_from(chars, p, l, k)
            } else {
                Ok(seq![])
            },
            SpecStep::Emit { tok, pos: p, line: l, col: k } => if pos < p <= chars.len() {
                prepend_token(tok, lex_from(chars, p, l, k))
            } else {
                Ok(seq![])
            },
            SpecStep::Fail(e) => Err(e),
        }
    }
}

/// The tokens of a whole source text, or the first lexical error.
pub open spec fn lex_spec(chars: Seq<char>) -> Result<Seq<SpecToken>, SpecLexError> {
    lex_from(chars, 0, 1, 1)
}

/// The view of a lexer result.
pub open spec fn lex_result_view(r: Result<Vec<Token>, LexError>) -> Result<
    Seq<SpecToken>,
    SpecLexError,
> {
    match r {
        Ok(v) => Ok(tokens_view(v@)),
        Err(e) => Err(e@),
    }
}

pub proof fn lemma_comment_end(chars: Seq<char>, pos: int)
    requires
        0 <= pos <= chars.len(),
    ensures
        pos <= comment_end(chars, pos) <= chars.len(),
        comment_end(chars, pos) < chars.len() ==> chars[comment_end(chars, pos)] == '\n',
    decreases chars.len() - pos,
{
    if pos < chars.len() && chars[pos] != '\n' {
        lemma_comment_end(chars, pos + 1);
    }
}

pub proof fn lemma_ident_end(chars: Seq<char>, pos: int)
    requires
        0 <= pos <= chars.len(),
    ensures
        pos <= ident_end(chars, pos) <= chars.len(),
        forall|j: int| pos <= j < ident_end(chars, pos) ==> is_ident_continue_char(chars[j]),
    decreases chars.len() - pos,
{
    if pos < chars.len() && is_ident_continue_char(chars[pos]) {
        lemma_ident_end(chars, pos + 1);
    }
}

pub proof fn lemma_scan_string_advances(
    chars: Seq<char>,
    pos: int,
    line: int,
    col: int,
    text: Seq<char>,
    tl: int,
    tc: int,
)
    requires
        0 <= pos,
    ensures
        scan_string(chars, pos, line, col, text, tl, tc) matches SpecScan::Done { pos: p, .. }
            ==> pos < p <= chars.len(),
    decreases chars.len() - pos,
{
    if pos < chars.len() && chars[pos] != '"' {
        if chars[pos] == '\\' {
            if pos + 1 < chars.len() {
                lemma_scan_string_advances(
                    chars,
                    pos + 2,
                    line,
                    col + 2,
                    text.push(unescape_char(chars[pos + 1])),
                    tl,
                    tc,
                );
            }
        } else if chars[pos] == '\n' {
            lemma_scan_string_advances(chars, pos + 1, line + 1, 1, text.push('\n'), tl, tc);
        } else {
            lemma_scan_string_advances(chars, pos + 1, line, col + 1, text.push(chars[pos]), tl, tc);
        }
    }
}

pub open spec fn is_ident_start(c: char) -> bool {
    is_ident_start_char(c)
}

fn is_ident_start_exec(c: char) -> (b: bool)
    ensures
        b == is_ident_start_char(c),
{
    ascii_alpha(c) || c == '_'
}

fn is_ident_continue(c: char) -> (b: bool)
    ensures
        b == is_ident_continue_char(c),
{
    ascii_alnum(c) || c == '_' || c == '-'
}


pub open spec fn prepend_tokens(ts: Seq<SpecToken>, r: Result<Seq<SpecToken>, SpecLexError>) -> Result<
    Seq<SpecToken>,
    SpecLexError,
> {
    match r {
        Ok(rest) => Ok(ts + rest),
        Err(e) => Err(e),
    }
}

/// A `String` of the characters `chars[from..to]`.
pub fn sub_string(chars: &Vec<char>, from: usize, to: usize) -> (s: String)
    requires
        from <= to <= chars@.len(),
    ensures
        s@ == chars@.subrange(from as int, to as int),
{
    let mut s = String::new();
    let mut i = from;
    while i < to
        invariant
            from <= i <= to <= chars@.len(),
            s@ == chars@.subrange(from as int, i as int),
        decreases to - i,
    {
        s.push(chars[i]);
        i += 1;
        assert(s@ =~= chars@.subrange(from as int, i as int));
    }
    s
}

fn unescape(e: char) -> (c: char)
    ensures
        c == unescape_char(e),
{
    if e == 'n' {
        '\n'
    } else if e == 't' {
        '\t'
    } else {
        e
    }
}

fn lex_error(msg: &str, line: usize, col: usize) -> (e: LexError)
    ensures
        e@ == lex_err(msg@, line as int, col as int),
{
    let mut m = String::new();
    append_str(&mut m, msg);
    LexError { msg: m, line, col }
}

fn unexpected(c: char, line: usize, col: usize) -> (e: LexError)
    ensures
        e@ == lex_err(unexpected_msg(c), line as int, col as int),
{
    let mut m = String::new();
    append_str(&mut m, "unexpected character '");
    m.push(c);
    let ghost mid = m@;
    append_str(&mut m, "'");
    assert(m@ =~= unexpected_msg(c));
    LexError { msg: m, line, col }
}

/// Scan a string literal body; `Ok((text, pos, line, col))` after the closing quote.
fn scan_string_exec(
    chars: &Vec<char>,
    pos0: usize,
    line0: usize,
    col0: usize,
    tl: usize,
    tc: usize,
) -> (r: Result<(String, usize, usize, usize), LexError>)
    requires
        1 <= pos0 <= chars@.len(),
        chars@.len() < usize::MAX,
        1 <= line0 <= pos0,
        1 <= col0 <= pos0 + 1,
    ensures
        match r {
            Ok((text, p, l, k)) => {
                &&& scan_string(chars@, pos0 as int, line0 as int, col0 as int, seq![], tl as int, tc as int)
                    == SpecScan::Done { text: text@, pos: p as int, line: l as int, col: k as int }
                &&& pos0 < p <= chars@.len()
                &&& 1 <= l <= line0 + (p - pos0)
                &&& 1 <= k <= col0 + (p - pos0)
            },
            Err(e) => scan_string(chars@, pos0 as int, line0 as int, col0 as int, seq![], tl as int, tc as int)
                == SpecScan::Failed(e@),
        },
{
    let mut text = String::new();
    let mut pos = pos0;
    let mut line = line0;
    let mut col = col0;
    while pos < chars.len()
        invariant
            pos0 <= pos <= chars@.len(),
            chars@.len() < usize::MAX,
            1 <= line <= line0 + (pos - pos0),
            1 <= col <= col0 + (pos - pos0),
            line0 <= pos0,
            col0 <= pos0 + 1,
            scan_string(chars@, pos0 as int, line0 as int, col0 as int, seq![], tl as int, tc as int)
                == scan_string(chars@, pos as int, line as int, col as int, text@, tl as int, tc as int),
        decreases chars@.len() - pos,
    {
        let c = chars[pos];
        if c == '"' {
            return Ok((text, pos + 1, line, col + 1));
        } else if c == '\\' {
            if pos + 1 >= chars.len() {
                return Err(lex_error("unexpected end of escape sequence", line, col + 1));
            }
            text.push(unescape(chars[pos + 1]));
            pos += 2;
            col += 2;
        } else if c == '\n' {
            text.push('\n');
            pos += 1;
            line += 1;
            col = 1;
        } else {
            text.push(c);
            pos += 1;
            col += 1;
        }
    }
    Err(lex_error("unterminated string literal", tl, tc))
}

/// The arrow starting with the `-` at `pos`.
fn try_lex_arrow(chars: &Vec<char>, pos: usize, line: usize, col: usize) -> (r: Result<
    &'static str,
    LexError,
>)
    requires
        pos < chars@.len(),
        chars@.len() < usize::MAX,
    ensures
        match r {
            Ok(a) => dash_arrow(chars@, pos as int) == Some(a@) && 2 <= a@.len() <= 3 && pos
                + a@.len() <= chars@.len(),
            Err(e) => dash_arrow(chars@, pos as int) is None && e@ == lex_err(
                "expected arrow (->, -->, =>, -o, -x)"@,
                line as int,
                col as int,
            ),
        },
{
    proof {
        reveal_strlit("-->");
        reveal_strlit("->");
        reveal_strlit("-o");
        reveal_strlit("-x");
    }
    let n = chars.len();
    if pos + 2 < n && chars[pos + 1] == '-' && chars[pos + 2] == '>' {
        return Ok("-->");
    }
    if pos + 1 < n && chars[pos + 1] == '>' {
        return Ok("->");
    }
    if pos + 1 < n && chars[pos + 1] == 'o' {
        return Ok("-o");
    }
    if pos + 1 < n && chars[pos + 1] == 'x' {
        return Ok("-x");
    }
    Err(lex_error("expected arrow (->, -->, =>, -o, -x)", line, col))
}

/// The tokens of `src`, or the first lexical error with its position.
pub fn lex(src: &str) -> (r: Result<Vec<Token>, LexError>)
    requires
        src@.len() < usize::MAX,
    ensures
        lex_result_view(r) == lex_spec(src@),
{
    let chars = chars_of(src);
    let n = chars.len();
    let mut pos: usize = 0;
    let mut line: usize = 1;
    let mut col: usize = 1;
    let mut tokens: Vec<Token> = Vec::new();
    assert(tokens_view(tokens@) =~= Seq::<SpecToken>::empty());
    assert(prepend_tokens(seq![], lex_from(chars@, 0, 1, 1)) =~= lex_from(chars@, 0, 1, 1)) by {
        match lex_from(chars@, 0, 1, 1) {
            Ok(rest) => assert(Seq::<SpecToken>::empty() + rest =~= rest),
            Err(_) => {},
        }
    }
    while pos < n
        invariant
            n == chars@.len(),
            chars@ == src@,
            n < usize::MAX,
            pos <= n,
            1 <= line <= pos + 1,
            1 <= col <= pos + 1,
            lex_spec(chars@) == prepend_tokens(
                tokens_view(tokens@),
                lex_from(chars@, pos as int, line as int, col as int),
            ),
        decreases n - pos,
    {
        let c = chars[pos];
        let ghost before = tokens_view(tokens@);
        let ghost step = lex_step(chars@, pos as int, line as int, col as int);
        if white_space(c) {
            if c == '\n' {
                line += 1;
                col = 1;
            } else {
                col += 1;
            }
            pos += 1;
            continue;
        }
        if c == ';' {
            proof {
                lemma_comment_end(chars@, pos as int);
            }
            let ghost start = pos;
            while pos < n && chars[pos] != '\n'
                invariant
                    start <= pos <= n,
                    n == chars@.len(),
                    comment_end(chars@, start as int) == comment_end(chars@, pos as int),
                decreases n - pos,
            {
                pos += 1;
            }
            // A `;` is never a line break, so the comment always consumes it.
            assert(pos > start);
            continue;
        }
        let tok_line = line;
        let tok_col = col;
        let kind: TokenKind;
        if c == '(' {
            kind = TokenKind::LParen;
            pos += 1;
            col += 1;
        } else if c == ')' {
            kind = TokenKind::RParen;
            pos += 1;
            col += 1;
        } else if c == '"' {
            match scan_string_exec(&chars, pos + 1, line, col + 1, line, col) {
                Ok((text, p, l, k)) => {
                    kind = TokenKind::Str(text);
                    pos = p;
                    line = l;
                    col = k;
                },
                Err(e) => {
                    return Err(e);
                },
            }
        } else if c == '-' {
            let arrow = try_lex_arrow(&chars, pos, line, col)?;
            let mut a = String::new();
            append_str(&mut a, arrow);
            let len = chars_of(arrow).len();
            kind = TokenKind::Arrow(a);
            pos += len;
            col += len;
        } else if c == '=' {
            if pos + 1 < n && chars[pos + 1] == '>' {
                let mut a = String::new();
                append_str(&mut a, "=>");
                kind = TokenKind::Arrow(a);
                pos += 2;
                col += 2;
            } else {
                return Err(unexpected(c, tok_line, tok_col));
            }
        } else if is_ident_start_exec(c) {
            proof {
                lemma_ident_end(chars@, pos as int);
            }
            let start = pos;
            while pos < n && is_ident_continue(chars[pos])
                invariant
                    start <= pos <= n,
                    n == chars@.len(),
                    ident_end(chars@, start as int) == ident_end(chars@, pos as int),
                    col == tok_col + (pos - start),
                    tok_col <= start + 1,
                    n < usize::MAX,
                decreases n - pos,
            {
                pos += 1;
                col += 1;
            }
            kind = TokenKind::Ident(sub_string(&chars, start, pos));
        } else {
            return Err(unexpected(c, tok_line, tok_col));
        }
        let tok = Token { kind, line: tok_line, col: tok_col };
        proof {
            assert(step matches SpecStep::Emit { tok: t, pos: p, line: l, col: k } && t == tok@
                && p == pos && l == line && k == col);
            assert(tokens_view(tokens@.push(tok)) =~= before.push(tok@));
            match lex_from(chars@, pos as int, line as int, col as int) {
                Ok(rest) => assert(before + (seq![tok@] + rest) =~= before.push(tok@) + rest),
                Err(_) => {},
            }
        }
        tokens.push(tok);
    }
    proof {
        match lex_from(chars@, pos as int, line as int, col as int) {
            Ok(rest) => assert(tokens_view(tokens@) + rest =~= tokens_view(tokens@)),
            Err(_) => {},
        }
    }
    Ok(tokens)
}

} // verus!
