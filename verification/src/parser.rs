//! Recursive-descent parser from gph tokens to a flowchart syntax tree.
use vstd::prelude::*;
use crate::ast::{Arrow, Direction, EdgeDecl, Graph, NodeDecl, Shape, SpecEdge, SpecGraph, SpecNode, SpecStmt, Stmt, stmts_view};
use crate::lexer::{SpecToken, SpecTokenKind, Token, TokenKind, tokens_view};
use crate::text::{append_str, chars_of, decimal, push_decimal, push_str};

verus! {

/// Why and where parsing stopped.
#[derive(Debug)]
pub struct ParseError {
    pub msg: String,
    pub line: usize,
    pub col: usize,
}

pub struct SpecParseError {
    pub msg: Seq<char>,
    pub line: int,
    pub col: int,
}

impl View for ParseError {
    type V = SpecParseError;

    open spec fn view(&self) -> SpecParseError {
        SpecParseError { msg: self.msg@, line: self.line as int, col: self.col as int }
    }
}

/// The position reported for the token at `pos`: that token's, else the last
/// token's, else `1:1`.
pub open spec fn position_at(toks: Seq<SpecToken>, pos: int) -> (int, int) {
    if 0 <= pos < toks.len() {
        (toks[pos].line, toks[pos].col)
    } else if toks.len() > 0 {
        (toks.last().line, toks.last().col)
    } else {
        (1, 1)
    }
}

pub open spec fn err_at(toks: Seq<SpecToken>, pos: int, msg: Seq<char>) -> SpecParseError {
    SpecParseError { msg, line: position_at(toks, pos).0, col: position_at(toks, pos).1 }
}

pub open spec fn kind_at(toks: Seq<SpecToken>, pos: int) -> Option<SpecTokenKind> {
    if 0 <= pos < toks.len() {
        Some(toks[pos].kind)
    } else {
        None
    }
}

pub open spec fn direction_of(s: Seq<char>) -> Option<Direction> {
    if s == "lr"@ {
        Some(Direction::LR)
    } else if s == "rl"@ {
        Some(Direction::RL)
    } else if s == "td"@ {
        Some(Direction::TD)
    } else if s == "bt"@ {
        Some(Direction::BT)
    } else {
        None
    }
}

pub open spec fn shape_of(s: Seq<char>) -> Option<Shape> {
    if s == "box"@ {
        Some(Shape::Box)
    } else if s == "round"@ {
        Some(Shape::Round)
    } else if s == "diamond"@ {
        Some(Shape::Diamond)
    } else if s == "stadium"@ {
        Some(Shape::Stadium)
    } else if s == "hex"@ {
        Some(Shape::Hex)
    } else if s == "sub"@ {
        Some(Shape::Sub)
    } else {
        None
    }
}

pub open spec fn arrow_of(s: Seq<char>) -> Option<Arrow> {
    if s == "->"@ {
        Some(Arrow::Normal)
    } else if s == "-->"@ {
        Some(Arrow::Dotted)
    } else if s == "=>"@ {
        Some(Arrow::Thick)
    } else if s == "-o"@ {
        Some(Arrow::Circle)
    } else if s == "-x"@ {
        Some(Arrow::Cross)
    } else {
        None
    }
}

pub open spec fn expected_ident(toks: Seq<SpecToken>, pos: int) -> SpecParseError {
    err_at(toks, pos, "expected identifier"@)
}

pub open spec fn expected_rparen(toks: Seq<SpecToken>, pos: int) -> SpecParseError {
    err_at(toks, pos, "expected closing ')'"@)
}

/// A node declaration after its `(`: an identifier, an optional label, an
/// optional shape keyword, and `)`.
pub open spec fn parse_node_spec(toks: Seq<SpecToken>, pos: int) -> Result<(SpecNode, int), SpecParseError> {
    match kind_at(toks, pos) {
        Some(SpecTokenKind::Ident(id)) => {
            let (label, p) = match kind_at(toks, pos + 1) {
                Some(SpecTokenKind::Str(s)) => (Some(s), pos + 2),
                _ => (None, pos + 1),
            };
            let (shape, q) = match kind_at(toks, p) {
                Some(SpecTokenKind::Ident(s)) => match shape_of(s) {
                    Some(sh) => (sh, p + 1),
                    None => (Shape::Box, p),
                },
                _ => (Shape::Box, p),
            };
            match kind_at(toks, q) {
                Some(SpecTokenKind::RParen) => Ok((SpecNode { id, label, shape }, q + 1)),
                _ => Err(expected_rparen(toks, q)),
            }
        },
        _ => Err(expected_ident(toks, pos)),
    }
}

/// The endpoints of an edge from `pos`: bare identifiers and inline node declarations.
/// Yields the chain, the inline declarations, and the position after the endpoints.
pub open spec fn parse_endpoints(
    toks: Seq<SpecToken>,
    pos: int,
    chain: Seq<Seq<char>>,
    nodes: Seq<SpecStmt>,
) -> Result<(Seq<Seq<char>>, Seq<SpecStmt>, int), SpecParseError>
    decreases toks.len() - pos,
{
    if pos < 0 || pos >= toks.len() {
        Ok((chain, nodes, pos))
    } else {
        match toks[pos].kind {
            SpecTokenKind::Ident(s) => parse_endpoints(toks, pos + 1, chain.push(s), nodes),
            SpecTokenKind::LParen => match parse_node_spec(toks, pos + 1) {
                Ok((n, q)) => if pos < q <= toks.len() {
                    parse_endpoints(toks, q, chain.push(n.id), nodes.push(SpecStmt::Node(n)))
                } else {
                    Ok((chain, nodes, pos))
                },
                Err(e) => Err(e),
            },
            _ => Ok((chain, nodes, pos)),
        }
    }
}

pub open spec fn too_few_msg(count: nat) -> Seq<char> {
    "edge requires at least two nodes, got "@ + decimal(count)
}

/// An edge statement after its `(`, starting at the arrow token.
pub open spec fn parse_edge_spec(toks: Seq<SpecToken>, pos: int) -> Result<(Seq<SpecStmt>, int), SpecParseError> {
    match kind_at(toks, pos) {
        Some(SpecTokenKind::Arrow(a)) => match arrow_of(a) {
            None => Err(err_at(toks, pos, "unknown arrow '"@ + a + "'"@)),
            Some(arrow) => match parse_endpoints(toks, pos + 1, seq![], seq![]) {
                Err(e) => Err(e),
                Ok((chain, nodes, p)) => if chain.len() < 2 {
                    Err(err_at(toks, pos, too_few_msg(chain.len())))
                } else {
                    let (label, q) = match kind_at(toks, p) {
                        Some(SpecTokenKind::Str(s)) => (Some(s), p + 1),
                        _ => (None, p),
                    };
                    match kind_at(toks, q) {
                        Some(SpecTokenKind::RParen) => Ok(
                            (nodes.push(SpecStmt::Edge(SpecEdge { chain, label, arrow })), q + 1),
                        ),
                        _ => Err(expected_rparen(toks, q)),
                    }
                },
            },
        },
        _ => Err(err_at(toks, pos, "expected arrow or identifier after '('"@)),
    }
}

/// A statement starting at its `(`; an edge may declare inline nodes, which
/// come before the edge.
pub open spec fn parse_stmt_spec(toks: Seq<SpecToken>, pos: int) -> Result<(Seq<SpecStmt>, int), SpecParseError> {
    match kind_at(toks, pos) {
        Some(SpecTokenKind::LParen) => match kind_at(toks, pos + 1) {
            Some(SpecTokenKind::Arrow(_)) => parse_edge_spec(toks, pos + 1),
            Some(SpecTokenKind::Ident(_)) => match parse_node_spec(toks, pos + 1) {
                Ok((n, q)) => Ok((seq![SpecStmt::Node(n)], q)),
                Err(e) => Err(e),
            },
            _ => Err(err_at(toks, pos + 1, "expected arrow or identifier after '('"@)),
        },
        _ => Err(err_at(toks, pos, "expected '('"@)),
    }
}

/// Statements from `pos` up to and including the graph's closing `)`.
pub open spec fn parse_stmts_spec(toks: Seq<SpecToken>, pos: int, acc: Seq<SpecStmt>) -> Result<
    (Seq<SpecStmt>, int),
    SpecParseError,
>
    decreases toks.len() - pos,
{
    match kind_at(toks, pos) {
        Some(SpecTokenKind::RParen) => Ok((acc, pos + 1)),
        Some(SpecTokenKind::LParen) => match parse_stmt_spec(toks, pos) {
            Ok((ss, q)) => if pos < q <= toks.len() {
                parse_stmts_spec(toks, q, acc + ss)
            } else {
                Ok((acc, pos))
            },
            Err(e) => Err(e),
        },
        None => Err(err_at(toks, pos, "unexpected end of input; expected closing ')'"@)),
        _ => Err(err_at(toks, pos, "expected '(' or ')'"@)),
    }
}

/// `(graph <direction> <statement>*)` from the first token.
pub open spec fn parse_graph_spec(toks: Seq<SpecToken>) -> Result<(SpecGraph, int), SpecParseError> {
    match kind_at(toks, 0) {
        Some(SpecTokenKind::LParen) => match kind_at(toks, 1) {
            Some(SpecTokenKind::Ident(kw)) => if kw != "graph"@ {
                Err(err_at(toks, 1, "expected 'graph', found '"@ + kw + "'"@))
            } else {
                match kind_at(toks, 2) {
                    Some(SpecTokenKind::Ident(d)) => match direction_of(d) {
                        None => Err(
                            err_at(toks, 2, "unknown direction '"@ + d + "'; expected lr, rl, td, or bt"@),
                        ),
                        Some(direction) => match parse_stmts_spec(toks, 3, seq![]) {
                            Ok((stmts, p)) => Ok((SpecGraph { direction, stmts }, p)),
                            Err(e) => Err(e),
                        },
                    },
                    _ => Err(expected_ident(toks, 2)),
                }
            },
            _ => Err(expected_ident(toks, 1)),
        },
        _ => Err(err_at(toks, 0, "expected '('"@)),
    }
}

pub open spec fn graph_from_stmts(
    direction: Direction,
    r: Result<(Seq<SpecStmt>, int), SpecParseError>,
) -> Result<(SpecGraph, int), SpecParseError> {
    match r {
        Ok((stmts, p)) => Ok((SpecGraph { direction, stmts }, p)),
        Err(e) => Err(e),
    }
}

/// A whole token sequence as one graph expression with nothing after it.
pub open spec fn parse_spec(toks: Seq<SpecToken>) -> Result<SpecGraph, SpecParseError> {
    match parse_graph_spec(toks) {
        Ok((g, p)) => if p < toks.len() {
            Err(err_at(toks, p, "unexpected tokens after graph expression"@))
        } else {
            Ok(g)
        },
        Err(e) => Err(e),
    }
}


pub open spec fn stmt_result_view(r: Result<(Vec<Stmt>, usize), ParseError>) -> Result<(Seq<SpecStmt>, int), SpecParseError> {
    match r {
        Ok((v, p)) => Ok((stmts_view(v@), p as int)),
        Err(e) => Err(e@),
    }
}

fn make_error(msg: String, at: (usize, usize)) -> (e: ParseError)
    ensures
        e@ == (SpecParseError { msg: msg@, line: at.0 as int, col: at.1 as int }),
{
    ParseError { msg, line: at.0, col: at.1 }
}

fn literal(s: &str) -> (r: String)
    ensures
        r@ == s@,
{
    let mut r = String::new();
    append_str(&mut r, s);
    r
}

fn quoted_message(before: &str, middle: &String, after: &str) -> (r: String)
    ensures
        r@ == before@ + middle@ + after@,
{
    let mut r = String::new();
    append_str(&mut r, before);
    let m = chars_of(middle.as_str());
    push_str(&mut r, m.as_slice());
    append_str(&mut r, after);
    r
}

/// Whether two strings hold the same characters.
fn same_text(a: &String, b: &str) -> (r: bool)
    ensures
        r == (a@ == b@),
{
    let x = chars_of(a.as_str());
    let y = chars_of(b);
    if x.len() != y.len() {
        return false;
    }
    let mut i: usize = 0;
    while i < x.len()
        invariant
            i <= x@.len(),
            x@.len() == y@.len(),
            x@ == a@,
            y@ == b@,
            forall|k: int| 0 <= k < i ==> x@[k] == y@[k],
        decreases x@.len() - i,
    {
        if x[i] != y[i] {
            assert(x@[i as int] != y@[i as int]);
            assert(x@ != y@);
            return false;
        }
        i += 1;
    }
    assert(x@ =~= y@);
    true
}

fn parse_direction(s: &String) -> (r: Option<Direction>)
    ensures
        r == direction_of(s@),
{
    if same_text(s, "lr") {
        Some(Direction::LR)
    } else if same_text(s, "rl") {
        Some(Direction::RL)
    } else if same_text(s, "td") {
        Some(Direction::TD)
    } else if same_text(s, "bt") {
        Some(Direction::BT)
    } else {
        None
    }
}

fn parse_shape(s: &String) -> (r: Option<Shape>)
    ensures
        r == shape_of(s@),
{
    if same_text(s, "box") {
        Some(Shape::Box)
    } else if same_text(s, "round") {
        Some(Shape::Round)
    } else if same_text(s, "diamond") {
        Some(Shape::Diamond)
    } else if same_text(s, "stadium") {
        Some(Shape::Stadium)
    } else if same_text(s, "hex") {
        Some(Shape::Hex)
    } else if same_text(s, "sub") {
        Some(Shape::Sub)
    } else {
        None
    }
}

fn parse_arrow(s: &String) -> (r: Option<Arrow>)
    ensures
        r == arrow_of(s@),
{
    if same_text(s, "->") {
        Some(Arrow::Normal)
    } else if same_text(s, "-->") {
        Some(Arrow::Dotted)
    } else if same_text(s, "=>") {
        Some(Arrow::Thick)
    } else if same_text(s, "-o") {
        Some(Arrow::Circle)
    } else if same_text(s, "-x") {
        Some(Arrow::Cross)
    } else {
        None
    }
}

/// A cursor over a token sequence.
struct Parser<'a> {
    tokens: &'a [Token],
    pos: usize,
}

impl<'a> Parser<'a> {
    spec fn toks(&self) -> Seq<SpecToken> {
        tokens_view(self.tokens@)
    }

    fn new(tokens: &'a [Token]) -> (p: Self)
        ensures
            p.tokens@ == tokens@,
            p.pos == 0,
    {
        Parser { tokens, pos: 0 }
    }

    fn peek(&self) -> (r: Option<&'a Token>)
        ensures
            match r {
                Some(t) => self.pos < self.tokens@.len() && t == self.tokens@[self.pos as int],
                None => self.pos >= self.tokens@.len(),
            },
    {
        if self.pos < self.tokens.len() {
            Some(&self.tokens[self.pos])
        } else {
            None
        }
    }

    fn peek_kind(&self) -> (r: Option<&'a TokenKind>)
        ensures
            match r {
                Some(k) => kind_at(self.toks(), self.pos as int) == Some(k@),
                None => kind_at(self.toks(), self.pos as int) is None,
            },
    {
        match self.peek() {
            Some(t) => Some(&t.kind),
            None => None,
        }
    }

    fn advance(&mut self) -> (r: Option<&'a Token>)
        ensures
            final(self).tokens == old(self).tokens,
            old(self).pos <= final(self).pos,
            match r {
                Some(t) => old(self).pos < old(self).tokens@.len() && t == old(self).tokens@[old(
                    self,
                ).pos as int] && final(self).pos == old(self).pos + 1,
                None => old(self).pos >= old(self).tokens@.len() && final(self).pos == old(self).pos,
            },
    {
        if self.pos < self.tokens.len() {
            let t = &self.tokens[self.pos];
            self.pos += 1;
            Some(t)
        } else {
            None
        }
    }

    fn current_pos(&self) -> (r: (usize, usize))
        ensures
            r.0 as int == position_at(self.toks(), self.pos as int).0,
            r.1 as int == position_at(self.toks(), self.pos as int).1,
    {
        match self.peek() {
            Some(t) => (t.line, t.col),
            None => {
                if self.tokens.len() > 0 {
                    let t = &self.tokens[self.tokens.len() - 1];
                    (t.line, t.col)
                } else {
                    (1, 1)
                }
            },
        }
    }

    fn error(&self, msg: String) -> (e: ParseError)
        ensures
            e@ == err_at(self.toks(), self.pos as int, msg@),
    {
        make_error(msg, self.current_pos())
    }

    fn expect_lparen(&mut self) -> (r: Result<(), ParseError>)
        ensures
            final(self).tokens == old(self).tokens,
            old(self).pos <= final(self).pos,
            match r {
                Ok(()) => kind_at(old(self).toks(), old(self).pos as int) == Some(SpecTokenKind::LParen)
                    && final(self).pos == old(self).pos + 1,
                Err(e) => kind_at(old(self).toks(), old(self).pos as int) != Some(SpecTokenKind::LParen)
                    && e@ == err_at(old(self).toks(), old(self).pos as int, "expected '('"@),
            },
    {
        match self.peek_kind() {
            Some(TokenKind::LParen) => {
                self.advance();
                Ok(())
            },
            _ => Err(self.error(literal("expected '('"))),
        }
    }

    fn expect_rparen(&mut self) -> (r: Result<(), ParseError>)
        ensures
            final(self).tokens == old(self).tokens,
            old(self).pos <= final(self).pos,
            match r {
                Ok(()) => kind_at(old(self).toks(), old(self).pos as int) == Some(SpecTokenKind::RParen)
                    && final(self).pos == old(self).pos + 1,
                Err(e) => !(kind_at(old(self).toks(), old(self).pos as int) matches Some(
                    SpecTokenKind::RParen,
                )) && e@ == expected_rparen(old(self).toks(), old(self).pos as int),
            },
    {
        match self.peek_kind() {
            Some(TokenKind::RParen) => {
                self.advance();
                Ok(())
            },
            _ => Err(self.error(literal("expected closing ')'"))),
        }
    }

    fn expect_ident(&mut self) -> (r: Result<String, ParseError>)
        ensures
            final(self).tokens == old(self).tokens,
            old(self).pos <= final(self).pos,
            match r {
                Ok(s) => kind_at(old(self).toks(), old(self).pos as int) == Some(SpecTokenKind::Ident(s@))
                    && final(self).pos == old(self).pos + 1,
                Err(e) => !(kind_at(old(self).toks(), old(self).pos as int) matches Some(
                    SpecTokenKind::Ident(_),
                )) && e@ == expected_ident(old(self).toks(), old(self).pos as int),
            },
    {
        match self.peek_kind() {
            Some(TokenKind::Ident(s)) => {
                let s = s.clone();
                self.advance();
                Ok(s)
            },
            _ => Err(self.error(literal("expected identifier"))),
        }
    }

    /// An optional string token.
    fn optional_label(&mut self) -> (r: Option<String>)
        ensures
            final(self).tokens == old(self).tokens,
            old(self).pos <= final(self).pos,
            match kind_at(old(self).toks(), old(self).pos as int) {
                Some(SpecTokenKind::Str(s)) => r is Some && r->0@ == s && final(self).pos == old(self).pos + 1,
                _ => r is None && final(self).pos == old(self).pos,
            },
    {
        match self.peek_kind() {
            Some(TokenKind::Str(s)) => {
                let s = s.clone();
                self.advance();
                Some(s)
            },
            _ => None,
        }
    }

    fn parse_node(&mut self) -> (r: Result<NodeDecl, ParseError>)
        ensures
            final(self).tokens == old(self).tokens,
            old(self).pos <= final(self).pos,
            match r {
                Ok(n) => parse_node_spec(old(self).toks(), old(self).pos as int) == Ok::<
                    _,
                    SpecParseError,
                >((n@, final(self).pos as int)),
                Err(e) => parse_node_spec(old(self).toks(), old(self).pos as int) == Err::<(SpecNode, int), _>(e@),
            },
    {
        let id = self.expect_ident()?;
        let label = self.optional_label();
        let shape = match self.peek_kind() {
            Some(TokenKind::Ident(s)) => {
                match parse_shape(s) {
                    Some(sh) => {
                        self.advance();
                        sh
                    },
                    None => Shape::Box,
                }
            },
            _ => Shape::Box,
        };
        self.expect_rparen()?;
        Ok(NodeDecl { id, label, shape })
    }

    /// An edge after its `(`: arrow, endpoints (identifiers or inline node
    /// declarations), an optional label, and `)`.
    fn parse_edge(&mut self) -> (r: Result<Vec<Stmt>, ParseError>)
        ensures
            final(self).tokens == old(self).tokens,
            old(self).pos <= final(self).pos,
            match r {
                Ok(v) => parse_edge_spec(old(self).toks(), old(self).pos as int) == Ok::<_, SpecParseError>(
                    (stmts_view(v@), final(self).pos as int),
                ),
                Err(e) => parse_edge_spec(old(self).toks(), old(self).pos as int) == Err::<
                    (Seq<SpecStmt>, int),
                    _,
                >(e@),
            },
    {
        let ghost toks = self.toks();
        let ghost start = self.pos;
        let arrow_str = match self.peek_kind() {
            Some(TokenKind::Arrow(s)) => s,
            _ => {
                return Err(self.error(literal("expected arrow or identifier after '('")));
            },
        };
        let arrow = match parse_arrow(arrow_str) {
            Some(a) => a,
            None => {
                return Err(self.error(quoted_message("unknown arrow '", arrow_str, "'")));
            },
        };
        let arrow_at = self.current_pos();
        let ghost arrow_tok = arrow_str@;
        self.advance();
        let mut chain: Vec<String> = Vec::new();
        let mut nodes: Vec<Stmt> = Vec::new();
        assert(crate::ast::strings_view(chain@) =~= Seq::<Seq<char>>::empty());
        assert(stmts_view(nodes@) =~= Seq::<SpecStmt>::empty());
        loop
            invariant
                self.tokens@ == old(self).tokens@,
                toks == self.toks(),
                start < self.pos <= toks.len(),
                start == old(self).pos,
                toks == old(self).toks(),
                kind_at(toks, start as int) == Some(SpecTokenKind::Arrow(arrow_tok)),
                arrow_of(arrow_tok) == Some(arrow),
                parse_endpoints(toks, start + 1, seq![], seq![]) == parse_endpoints(
                    toks,
                    self.pos as int,
                    crate::ast::strings_view(chain@),
                    stmts_view(nodes@),
                ),
            ensures
                self.tokens@ == old(self).tokens@,
                start < self.pos <= toks.len(),
                parse_endpoints(toks, start + 1, seq![], seq![]) == Ok::<_, SpecParseError>(
                    (crate::ast::strings_view(chain@), stmts_view(nodes@), self.pos as int),
                ),
            decreases toks.len() - self.pos,
        {
            let ghost before = self.pos;
            match self.peek_kind() {
                Some(TokenKind::Ident(_)) => {
                    let id = self.expect_ident()?;
                    proof {
                        assert(crate::ast::strings_view(chain@.push(id)) =~= crate::ast::strings_view(
                            chain@,
                        ).push(id@));
                    }
                    chain.push(id);
                },
                Some(TokenKind::LParen) => {
                    self.advance();
                    let node = match self.parse_node() {
                        Ok(n) => n,
                        Err(e) => {
                            assert(parse_node_spec(toks, before + 1) == Err::<(SpecNode, int), _>(e@));
                            proof {
                                assert(parse_endpoints(
                                    toks,
                                    before as int,
                                    crate::ast::strings_view(chain@),
                                    stmts_view(nodes@),
                                ) == Err::<(Seq<Seq<char>>, Seq<SpecStmt>, int), _>(e@));
                                assert(parse_endpoints(toks, start + 1, seq![], seq![]) == Err::<
                                    (Seq<Seq<char>>, Seq<SpecStmt>, int),
                                    _,
                                >(e@));
                                assert(parse_edge_spec(toks, start as int) == Err::<
                                    (Seq<SpecStmt>, int),
                                    _,
                                >(e@));
                            }
                            return Err(e);
                        },
                    };
                    let id = node.id.clone();
                    proof {
                        assert(crate::ast::strings_view(chain@.push(id)) =~= crate::ast::strings_view(
                            chain@,
                        ).push(node@.id));
                        assert(stmts_view(nodes@.push(Stmt::Node(node))) =~= stmts_view(nodes@).push(
                            SpecStmt::Node(node@),
                        ));
                    }
                    chain.push(id);
                    nodes.push(Stmt::Node(node));
                },
                _ => {
                    proof {
                        assert(parse_endpoints(
                            toks,
                            before as int,
                            crate::ast::strings_view(chain@),
                            stmts_view(nodes@),
                        ) == Ok::<_, SpecParseError>(
                            (crate::ast::strings_view(chain@), stmts_view(nodes@), before as int),
                        ));
                    }
                    break;
                },
            }
        }
        let ghost after = self.pos;
        assert(kind_at(toks, start as int) == Some(SpecTokenKind::Arrow(arrow_tok)));
        assert(arrow_of(arrow_tok) == Some(arrow));
        if chain.len() < 2 {
            let mut msg = literal("edge requires at least two nodes, got ");
            let mut digits: Vec<char> = Vec::new();
            push_decimal(&mut digits, chain.len());
            push_str(&mut msg, digits.as_slice());
            let e = make_error(msg, arrow_at);
            assert(e@ == err_at(toks, start as int, too_few_msg(chain@.len() as nat)));
            return Err(e);
        }
        let label = self.optional_label();
        let ghost label_view = crate::ast::opt_view(label);
        let ghost q = self.pos;
        match self.expect_rparen() {
            Ok(()) => {},
            Err(e) => {
                assert(parse_edge_spec(toks, start as int) == Err::<(Seq<SpecStmt>, int), _>(e@));
                return Err(e);
            },
        }
        let edge = Stmt::Edge(EdgeDecl { chain, label, arrow });
        proof {
            assert(stmts_view(nodes@.push(edge)) =~= stmts_view(nodes@).push(edge@));
        }
        nodes.push(edge);
        Ok(nodes)
    }

    /// A statement from its `(`.
    fn parse_stmt(&mut self) -> (r: Result<Vec<Stmt>, ParseError>)
        ensures
            final(self).tokens == old(self).tokens,
            old(self).pos <= final(self).pos,
            r is Ok ==> old(self).pos < final(self).pos,
            match r {
                Ok(v) => parse_stmt_spec(old(self).toks(), old(self).pos as int) == Ok::<_, SpecParseError>(
                    (stmts_view(v@), final(self).pos as int),
                ),
                Err(e) => parse_stmt_spec(old(self).toks(), old(self).pos as int) == Err::<
                    (Seq<SpecStmt>, int),
                    _,
                >(e@),
            },
    {
        self.expect_lparen()?;
        match self.peek_kind() {
            Some(TokenKind::Arrow(_)) => self.parse_edge(),
            Some(TokenKind::Ident(_)) => {
                let node = self.parse_node()?;
                let mut v: Vec<Stmt> = Vec::new();
                v.push(Stmt::Node(node));
                assert(stmts_view(v@) =~= seq![SpecStmt::Node(node@)]);
                Ok(v)
            },
            _ => Err(self.error(literal("expected arrow or identifier after '('"))),
        }
    }

    /// `(graph <direction> <statement>*)`.
    fn parse_graph(&mut self) -> (r: Result<Graph, ParseError>)
        requires
            old(self).pos == 0,
        ensures
            final(self).tokens == old(self).tokens,
            old(self).pos <= final(self).pos,
            match r {
                Ok(g) => parse_graph_spec(old(self).toks()) == Ok::<_, SpecParseError>(
                    (g@, final(self).pos as int),
                ),
                Err(e) => parse_graph_spec(old(self).toks()) == Err::<(SpecGraph, int), _>(e@),
            },
    {
        let ghost toks = self.toks();
        self.expect_lparen()?;
        let kw_at = self.current_pos();
        let kw = self.expect_ident()?;
        if !same_text(&kw, "graph") {
            return Err(make_error(quoted_message("expected 'graph', found '", &kw, "'"), kw_at));
        }
        let dir_at = self.current_pos();
        let dir_tok = self.expect_ident()?;
        let direction = match parse_direction(&dir_tok) {
            Some(d) => d,
            None => {
                return Err(
                    make_error(
                        quoted_message("unknown direction '", &dir_tok, "'; expected lr, rl, td, or bt"),
                        dir_at,
                    ),
                );
            },
        };
        let mut stmts: Vec<Stmt> = Vec::new();
        assert(stmts_view(stmts@) =~= Seq::<SpecStmt>::empty());
        assert(kind_at(toks, 1) == Some(SpecTokenKind::Ident(kw@)));
        assert(kind_at(toks, 2) == Some(SpecTokenKind::Ident(dir_tok@)));
        assert(parse_graph_spec(toks) == graph_from_stmts(direction, parse_stmts_spec(toks, 3, seq![])));
        loop
            invariant_except_break
                parse_stmts_spec(toks, 3, seq![]) == parse_stmts_spec(
                    toks,
                    self.pos as int,
                    stmts_view(stmts@),
                ),
            invariant
                self.tokens@ == old(self).tokens@,
                toks == self.toks(),
                3 <= self.pos <= toks.len(),
                old(self).pos == 0,
                toks == old(self).toks(),
                parse_graph_spec(toks) == graph_from_stmts(direction, parse_stmts_spec(toks, 3, seq![])),
            ensures
                self.tokens@ == old(self).tokens@,
                parse_stmts_spec(toks, 3, seq![]) == Ok::<_, SpecParseError>(
                    (stmts_view(stmts@), self.pos as int),
                ),
            decreases toks.len() - self.pos,
        {
            let ghost before = self.pos;
            match self.peek_kind() {
                Some(TokenKind::RParen) => {
                    self.advance();
                    break;
                },
                Some(TokenKind::LParen) => {
                    let mut more = match self.parse_stmt() {
                        Ok(v) => v,
                        Err(e) => {
                            assert(parse_stmts_spec(toks, before as int, stmts_view(stmts@)) == Err::<
                                (Seq<SpecStmt>, int),
                                _,
                            >(e@));
                            return Err(e);
                        },
                    };
                    proof {
                        assert(stmts_view(stmts@) + stmts_view(more@) =~= stmts_view(stmts@ + more@));
                    }
                    stmts.append(&mut more);
                    assert(self.pos > before);
                },
                None => {
                    return Err(
                        self.error(literal("unexpected end of input; expected closing ')'")),
                    );
                },
                _ => {
                    return Err(self.error(literal("expected '(' or ')'")));
                },
            }
        }
        Ok(Graph { direction, stmts })
    }
}


pub open spec fn parse_result_view(r: Result<Graph, ParseError>) -> Result<SpecGraph, SpecParseError> {
    match r {
        Ok(g) => Ok(g@),
        Err(e) => Err(e@),
    }
}

/// The graph expression that `tokens` spell, or the first syntax error.
pub fn parse(tokens: &[Token]) -> (r: Result<Graph, ParseError>)
    ensures
        parse_result_view(r) == parse_spec(tokens_view(tokens@)),
{
    let mut parser = Parser::new(tokens);
    let graph = parser.parse_graph()?;
    if parser.peek().is_some() {
        return Err(parser.error(literal("unexpected tokens after graph expression")));
    }
    Ok(graph)
}

} // verus!
