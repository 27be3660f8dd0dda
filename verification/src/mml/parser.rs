//! Parser of MML, the Lisp-like flowchart notation.
//!
//! Grammar (`trivia` is white space and `;` line comments):
//! `graph := trivia "(" trivia "graph" trivia dir trivia stmt* ")" trivia EOF`,
//! `stmt := edge | node`, `node := "(" trivia ident trivia string? trivia shape? trivia ")" trivia`,
//! `edge := "(" trivia arrow trivia (endpoint trivia)* string? trivia ")" trivia`,
//! `endpoint := node | ident`. An edge with fewer than two endpoints is a
//! committed error; any other failed statement ends the statement list.
use vstd::prelude::*;
use crate::ast::{Arrow, Direction, EdgeDecl, Graph, NodeDecl, Shape, SpecEdge, SpecGraph, SpecNode, SpecStmt, Stmt, stmts_view, strings_view};
use crate::text::{ascii_alnum, ascii_alpha, chars_of, is_ascii_alnum, is_ascii_alpha, is_white_space, slice_chars, string_of, white_space};

verus! {

/// An attempt to parse: a value and the position after it, a failure that
/// lets an enclosing alternative continue, or a committed failure at a position.
pub enum Attempt<T> {
    Done(T, int),
    Fail,
    Cut(int),
}

/// The first `'\n'` at or after `p`, or the end of `s`.
pub open spec fn line_end(s: Seq<char>, p: int) -> int
    decreases s.len() - p,
{
    if 0 <= p < s.len() && s[p] != '\n' {
        line_end(s, p + 1)
    } else {
        p
    }
}

/// The position after the white space and `;` comments at `pos`.
pub open spec fn trivia_end(s: Seq<char>, pos: int) -> int
    decreases s.len() - pos,
{
    if 0 <= pos < s.len() {
        if is_white_space(s[pos]) {
            trivia_end(s, pos + 1)
        } else if s[pos] == ';' {
            let e = line_end(s, pos + 1);
            if e < s.len() && e + 1 > pos {
                trivia_end(s, e + 1)
            } else {
                e
            }
        } else {
            pos
        }
    } else {
        pos
    }
}

pub open spec fn is_mml_ident_start(c: char) -> bool {
    is_ascii_alpha(c) || c == '_'
}

pub open spec fn is_mml_ident_continue(c: char) -> bool {
    is_ascii_alnum(c) || c == '_' || c == '-'
}

pub open spec fn ident_tail(s: Seq<char>, pos: int) -> int
    decreases s.len() - pos,
{
    if 0 <= pos < s.len() && is_mml_ident_continue(s[pos]) {
        ident_tail(s, pos + 1)
    } else {
        pos
    }
}

/// An identifier at `pos` and the position after it.
pub open spec fn ident_at(s: Seq<char>, pos: int) -> Option<(Seq<char>, int)> {
    if 0 <= pos < s.len() && is_mml_ident_start(s[pos]) {
        Some((s.subrange(pos, ident_tail(s, pos + 1)), ident_tail(s, pos + 1)))
    } else {
        None
    }
}

pub open spec fn lit_at(s: Seq<char>, pos: int, lit: Seq<char>) -> bool {
    0 <= pos && pos + lit.len() <= s.len() && s.subrange(pos, pos + lit.len()) == lit
}

pub open spec fn direction_at(s: Seq<char>, pos: int) -> Option<(Direction, int)> {
    if lit_at(s, pos, "lr"@) {
        Some((Direction::LR, pos + 2))
    } else if lit_at(s, pos, "rl"@) {
        Some((Direction::RL, pos + 2))
    } else if lit_at(s, pos, "td"@) {
        Some((Direction::TD, pos + 2))
    } else if lit_at(s, pos, "bt"@) {
        Some((Direction::BT, pos + 2))
    } else {
        None
    }
}

pub open spec fn shape_at(s: Seq<char>, pos: int) -> Option<(Shape, int)> {
    if lit_at(s, pos, "box"@) {
        Some((Shape::Box, pos + 3))
    } else if lit_at(s, pos, "round"@) {
        Some((Shape::Round, pos + 5))
    } else if lit_at(s, pos, "diamond"@) {
        Some((Shape::Diamond, pos + 7))
    } else if lit_at(s, pos, "stadium"@) {
        Some((Shape::Stadium, pos + 7))
    } else if lit_at(s, pos, "hex"@) {
        Some((Shape::Hex, pos + 3))
    } else if lit_at(s, pos, "sub"@) {
        Some((Shape::Sub, pos + 3))
    } else {
        None
    }
}

pub open spec fn arrow_at(s: Seq<char>, pos: int) -> Option<(Arrow, int)> {
    if lit_at(s, pos, "-->"@) {
        Some((Arrow::Dotted, pos + 3))
    } else if lit_at(s, pos, "->"@) {
        Some((Arrow::Normal, pos + 2))
    } else if lit_at(s, pos, "=>"@) {
        Some((Arrow::Thick, pos + 2))
    } else if lit_at(s, pos, "-o"@) {
        Some((Arrow::Circle, pos + 2))
    } else if lit_at(s, pos, "-x"@) {
        Some((Arrow::Cross, pos + 2))
    } else {
        None
    }
}

/// The character an MML escape `\e` stands for, if `e` is one of `"`, `\`, `n`, `t`.
pub open spec fn mml_escape(e: char) -> Option<char> {
    if e == '"' {
        Some('"')
    } else if e == '\\' {
        Some('\\')
    } else if e == 'n' {
        Some('\n')
    } else if e == 't' {
        Some('\t')
    } else {
        None
    }
}

/// A string body from `p` (after the opening quote) with `acc` read so far.
pub open spec fn string_body(s: Seq<char>, p: int, acc: Seq<char>) -> Option<(Seq<char>, int)>
    decreases s.len() - p,
{
    if p < 0 || p >= s.len() {
        None
    } else if s[p] == '"' {
        Some((acc, p + 1))
    } else if s[p] == '\\' {
        if p + 1 < s.len() && mml_escape(s[p + 1]) is Some {
            string_body(s, p + 2, acc.push(mml_escape(s[p + 1])->0))
        } else {
            None
        }
    } else {
        string_body(s, p + 1, acc.push(s[p]))
    }
}

/// A string literal at `pos` and the position after it.
pub open spec fn string_at(s: Seq<char>, pos: int) -> Option<(Seq<char>, int)> {
    if 0 <= pos < s.len() && s[pos] == '"' {
        string_body(s, pos + 1, seq![])
    } else {
        None
    }
}

/// A node declaration starting with the `(` at `pos`, with its trailing trivia.
pub open spec fn node_at(s: Seq<char>, pos: int) -> Option<(SpecNode, int)> {
    if !(0 <= pos < s.len() && s[pos] == '(') {
        None
    } else {
        match ident_at(s, trivia_end(s, pos + 1)) {
            None => None,
            Some((id, p2)) => {
                let p3 = trivia_end(s, p2);
                let (label, p4) = match string_at(s, p3) {
                    Some((l, q)) => (Some(l), q),
                    None => (None, p3),
                };
                let p5 = trivia_end(s, p4);
                let (shape, p6) = match shape_at(s, p5) {
                    Some((sh, q)) => (sh, q),
                    None => (Shape::Box, p5),
                };
                let p7 = trivia_end(s, p6);
                if 0 <= p7 < s.len() && s[p7] == ')' {
                    Some((SpecNode { id, label, shape }, trivia_end(s, p7 + 1)))
                } else {
                    None
                }
            },
        }
    }
}

/// Edge endpoints from `pos`: inline node declarations or identifiers, each with trivia.
pub open spec fn endpoints_at(s: Seq<char>, pos: int, chain: Seq<Seq<char>>, nodes: Seq<SpecStmt>) -> (
    Seq<Seq<char>>,
    Seq<SpecStmt>,
    int,
)
    decreases s.len() - pos,
{
    match node_at(s, pos) {
        Some((n, q)) => if pos < trivia_end(s, q) <= s.len() {
            endpoints_at(s, trivia_end(s, q), chain.push(n.id), nodes.push(SpecStmt::Node(n)))
        } else {
            (chain, nodes, pos)
        },
        None => match ident_at(s, pos) {
            Some((id, q)) => if pos < trivia_end(s, q) <= s.len() {
                endpoints_at(s, trivia_end(s, q), chain.push(id), nodes)
            } else {
                (chain, nodes, pos)
            },
            None => (chain, nodes, pos),
        },
    }
}

/// An edge statement starting with the `(` at `pos`; inline nodes come first.
pub open spec fn edge_at(s: Seq<char>, pos: int) -> Attempt<Seq<SpecStmt>> {
    if !(0 <= pos < s.len() && s[pos] == '(') {
        Attempt::Fail
    } else {
        match arrow_at(s, trivia_end(s, pos + 1)) {
            None => Attempt::Fail,
            Some((arrow, p2)) => {
                let (chain, nodes, p4) = endpoints_at(s, trivia_end(s, p2), seq![], seq![]);
                if chain.len() < 2 {
                    Attempt::Cut(p4)
                } else {
                    let (label, p5) = match string_at(s, p4) {
                        Some((l, q)) => (Some(l), q),
                        None => (None, p4),
                    };
                    let p6 = trivia_end(s, p5);
                    if 0 <= p6 < s.len() && s[p6] == ')' {
                        Attempt::Done(
                            nodes.push(SpecStmt::Edge(SpecEdge { chain, label, arrow })),
                            trivia_end(s, p6 + 1),
                        )
                    } else {
                        Attempt::Fail
                    }
                }
            },
        }
    }
}

/// A statement at `pos`: an edge, else a node.
pub open spec fn stmt_at(s: Seq<char>, pos: int) -> Attempt<Seq<SpecStmt>> {
    match edge_at(s, pos) {
        Attempt::Fail => match node_at(s, pos) {
            Some((n, q)) => Attempt::Done(seq![SpecStmt::Node(n)], q),
            None => Attempt::Fail,
        },
        other => other,
    }
}

/// Statements from `pos` appended to `acc`; `Err` holds a committed failure position.
pub open spec fn stmts_at(s: Seq<char>, pos: int, acc: Seq<SpecStmt>) -> Result<(Seq<SpecStmt>, int), int>
    decreases s.len() - pos,
{
    match stmt_at(s, pos) {
        Attempt::Done(ss, q) => if pos < q <= s.len() {
            stmts_at(s, q, acc + ss)
        } else {
            Ok((acc, pos))
        },
        Attempt::Fail => Ok((acc, pos)),
        Attempt::Cut(o) => Err(o),
    }
}

/// A whole MML document, or the position where it stops being one.
pub open spec fn mml_graph(s: Seq<char>) -> Result<SpecGraph, int> {
    let p0 = trivia_end(s, 0);
    if !(0 <= p0 < s.len() && s[p0] == '(') {
        Err(p0)
    } else {
        let p1 = trivia_end(s, p0 + 1);
        match ident_at(s, p1) {
            None => Err(p1),
            Some((kw, p2)) => if kw != "graph"@ {
                Err(p1)
            } else {
                let p3 = trivia_end(s, p2);
                match direction_at(s, p3) {
                    None => Err(p3),
                    Some((direction, p4)) => match stmts_at(s, trivia_end(s, p4), seq![]) {
                        Err(o) => Err(o),
                        Ok((stmts, p5)) => if !(0 <= p5 < s.len() && s[p5] == ')') {
                            Err(p5)
                        } else if trivia_end(s, p5 + 1) < s.len() {
                            Err(trivia_end(s, p5 + 1))
                        } else {
                            Ok(SpecGraph { direction, stmts })
                        },
                    },
                }
            },
        }
    }
}


/// The exec form of an attempt.
pub enum Parsed<T> {
    Done(T, usize),
    Fail,
    Cut(usize),
}

pub open spec fn parsed_stmts_view(p: Parsed<Vec<Stmt>>) -> Attempt<Seq<SpecStmt>> {
    match p {
        Parsed::Done(v, q) => Attempt::Done(stmts_view(v@), q as int),
        Parsed::Fail => Attempt::Fail,
        Parsed::Cut(o) => Attempt::Cut(o as int),
    }
}

fn trivia(s: &Vec<char>, pos: usize) -> (p: usize)
    requires
        pos <= s@.len(),
    ensures
        p as int == trivia_end(s@, pos as int),
        pos <= p <= s@.len(),
{
    let n = s.len();
    let mut p = pos;
    while p < n
        invariant
            pos <= p <= n == s@.len(),
            trivia_end(s@, pos as int) == trivia_end(s@, p as int),
        ensures
            pos <= p <= n,
            p as int == trivia_end(s@, pos as int),
        decreases n - p,
    {
        if white_space(s[p]) {
            p += 1;
        } else if s[p] == ';' {
            let ghost start = p;
            let mut e = p + 1;
            while e < n && s[e] != '\n'
                invariant
                    start < e <= n == s@.len(),
                    line_end(s@, start + 1) == line_end(s@, e as int),
                decreases n - e,
            {
                e += 1;
            }
            if e < n {
                p = e + 1;
            } else {
                p = e;
                assert(trivia_end(s@, start as int) == e);
                assert(trivia_end(s@, e as int) == e);
            }
        } else {
            break;
        }
    }
    p
}

pub(crate) fn ident(s: &Vec<char>, pos: usize) -> (r: Option<(Vec<char>, usize)>)
    requires
        pos <= s@.len(),
    ensures
        match r {
            Some((id, q)) => ident_at(s@, pos as int) == Some((id@, q as int)) && pos < q <= s@.len(),
            None => ident_at(s@, pos as int) is None,
        },
{
    if pos >= s.len() || !(ascii_alpha(s[pos]) || s[pos] == '_') {
        return None;
    }
    let mut q = pos + 1;
    while q < s.len() && (ascii_alnum(s[q]) || s[q] == '_' || s[q] == '-')
        invariant
            pos < q <= s@.len(),
            ident_tail(s@, pos + 1) == ident_tail(s@, q as int),
        decreases s@.len() - q,
    {
        q += 1;
    }
    Some((slice_chars(s.as_slice(), pos, q), q))
}

/// The position after the literal `l` at `pos`, if it stands there.
fn lit(s: &Vec<char>, pos: usize, l: &str) -> (r: Option<usize>)
    requires
        pos <= s@.len(),
    ensures
        r is Some == lit_at(s@, pos as int, l@),
        r matches Some(q) ==> q == pos + l@.len(),
{
    let v = chars_of(l);
    let n = s.len();
    if crate::text::matches_at(s.as_slice(), pos, v.as_slice()) {
        assert(pos + v@.len() <= n);
        Some(pos + v.len())
    } else {
        None
    }
}

fn direction(s: &Vec<char>, pos: usize) -> (r: Option<(Direction, usize)>)
    requires
        pos <= s@.len(),
    ensures
        match r {
            Some((d, q)) => direction_at(s@, pos as int) == Some((d, q as int)) && pos < q <= s@.len(),
            None => direction_at(s@, pos as int) is None,
        },
{
    proof {
        reveal_strlit("lr");
        reveal_strlit("rl");
        reveal_strlit("td");
        reveal_strlit("bt");
    }
    if let Some(q) = lit(s, pos, "lr") {
        Some((Direction::LR, q))
    } else if let Some(q) = lit(s, pos, "rl") {
        Some((Direction::RL, q))
    } else if let Some(q) = lit(s, pos, "td") {
        Some((Direction::TD, q))
    } else if let Some(q) = lit(s, pos, "bt") {
        Some((Direction::BT, q))
    } else {
        None
    }
}

fn shape(s: &Vec<char>, pos: usize) -> (r: Option<(Shape, usize)>)
    requires
        pos <= s@.len(),
    ensures
        match r {
            Some((sh, q)) => shape_at(s@, pos as int) == Some((sh, q as int)) && pos < q <= s@.len(),
            None => shape_at(s@, pos as int) is None,
        },
{
    proof {
        reveal_strlit("box");
        reveal_strlit("round");
        reveal_strlit("diamond");
        reveal_strlit("stadium");
        reveal_strlit("hex");
        reveal_strlit("sub");
    }
    if let Some(q) = lit(s, pos, "box") {
        Some((Shape::Box, q))
    } else if let Some(q) = lit(s, pos, "round") {
        Some((Shape::Round, q))
    } else if let Some(q) = lit(s, pos, "diamond") {
        Some((Shape::Diamond, q))
    } else if let Some(q) = lit(s, pos, "stadium") {
        Some((Shape::Stadium, q))
    } else if let Some(q) = lit(s, pos, "hex") {
        Some((Shape::Hex, q))
    } else if let Some(q) = lit(s, pos, "sub") {
        Some((Shape::Sub, q))
    } else {
        None
    }
}

fn arrow(s: &Vec<char>, pos: usize) -> (r: Option<(Arrow, usize)>)
    requires
        pos <= s@.len(),
    ensures
        match r {
            Some((a, q)) => arrow_at(s@, pos as int) == Some((a, q as int)) && pos < q <= s@.len(),
            None => arrow_at(s@, pos as int) is None,
        },
{
    proof {
        reveal_strlit("-->");
        reveal_strlit("->");
        reveal_strlit("=>");
        reveal_strlit("-o");
        reveal_strlit("-x");
    }
    if let Some(q) = lit(s, pos, "-->") {
        Some((Arrow::Dotted, q))
    } else if let Some(q) = lit(s, pos, "->") {
        Some((Arrow::Normal, q))
    } else if let Some(q) = lit(s, pos, "=>") {
        Some((Arrow::Thick, q))
    } else if let Some(q) = lit(s, pos, "-o") {
        Some((Arrow::Circle, q))
    } else if let Some(q) = lit(s, pos, "-x") {
        Some((Arrow::Cross, q))
    } else {
        None
    }
}

fn escape_char(e: char) -> (r: Option<char>)
    ensures
        r == mml_escape(e),
{
    if e == '"' {
        Some('"')
    } else if e == '\\' {
        Some('\\')
    } else if e == 'n' {
        Some('\n')
    } else if e == 't' {
        Some('\t')
    } else {
        None
    }
}

fn string(s: &Vec<char>, pos: usize) -> (r: Option<(Vec<char>, usize)>)
    requires
        pos <= s@.len(),
    ensures
        match r {
            Some((v, q)) => string_at(s@, pos as int) == Some((v@, q as int)) && pos < q <= s@.len(),
            None => string_at(s@, pos as int) is None,
        },
{
    if pos >= s.len() || s[pos] != '"' {
        return None;
    }
    let n = s.len();
    let mut acc: Vec<char> = Vec::new();
    let mut p = pos + 1;
    while p < n
        invariant
            pos < p <= n == s@.len(),
            s@[pos as int] == '"',
            string_body(s@, pos + 1, seq![]) == string_body(s@, p as int, acc@),
        decreases n - p,
    {
        let c = s[p];
        if c == '"' {
            return Some((acc, p + 1));
        } else if c == '\\' {
            if p + 1 < n {
                match escape_char(s[p + 1]) {
                    Some(e) => {
                        acc.push(e);
                        p += 2;
                    },
                    None => {
                        return None;
                    },
                }
            } else {
                return None;
            }
        } else {
            acc.push(c);
            p += 1;
        }
    }
    None
}

fn node(s: &Vec<char>, pos: usize) -> (r: Option<(NodeDecl, usize)>)
    requires
        pos <= s@.len(),
    ensures
        match r {
            Some((nd, q)) => node_at(s@, pos as int) == Some((nd@, q as int)) && pos < q <= s@.len(),
            None => node_at(s@, pos as int) is None,
        },
{
    if pos >= s.len() || s[pos] != '(' {
        return None;
    }
    let p1 = trivia(s, pos + 1);
    let (id, p2) = ident(s, p1)?;
    let p3 = trivia(s, p2);
    let (label, p4) = match string(s, p3) {
        Some((l, q)) => (Some(string_of(l.as_slice())), q),
        None => (None, p3),
    };
    let p5 = trivia(s, p4);
    let (sh, p6) = match shape(s, p5) {
        Some((sh, q)) => (sh, q),
        None => (Shape::Box, p5),
    };
    let p7 = trivia(s, p6);
    if p7 < s.len() && s[p7] == ')' {
        let q = trivia(s, p7 + 1);
        Some((NodeDecl { id: string_of(id.as_slice()), label, shape: sh }, q))
    } else {
        None
    }
}

fn edge(s: &Vec<char>, pos: usize) -> (r: Parsed<Vec<Stmt>>)
    requires
        pos <= s@.len(),
    ensures
        parsed_stmts_view(r) == edge_at(s@, pos as int),
        r matches Parsed::Done(_, q) ==> pos < q <= s@.len(),
{
    if pos >= s.len() || s[pos] != '(' {
        return Parsed::Fail;
    }
    let p1 = trivia(s, pos + 1);
    let (a, p2) = match arrow(s, p1) {
        Some(x) => x,
        None => {
            return Parsed::Fail;
        },
    };
    let mut p = trivia(s, p2);
    let ghost start = p;
    let mut chain: Vec<String> = Vec::new();
    let mut nodes: Vec<Stmt> = Vec::new();
    assert(strings_view(chain@) =~= Seq::<Seq<char>>::empty());
    assert(stmts_view(nodes@) =~= Seq::<SpecStmt>::empty());
    loop
        invariant
            start <= p <= s@.len(),
            endpoints_at(s@, start as int, seq![], seq![]) == endpoints_at(
                s@,
                p as int,
                strings_view(chain@),
                stmts_view(nodes@),
            ),
        ensures
            start <= p <= s@.len(),
            endpoints_at(s@, start as int, seq![], seq![]) == (
                strings_view(chain@),
                stmts_view(nodes@),
                p as int,
            ),
        decreases s@.len() - p,
    {
        match node(s, p) {
            Some((nd, q)) => {
                let t = trivia(s, q);
                let id = nd.id.clone();
                proof {
                    assert(strings_view(chain@.push(id)) =~= strings_view(chain@).push(nd@.id));
                    assert(stmts_view(nodes@.push(Stmt::Node(nd))) =~= stmts_view(nodes@).push(
                        SpecStmt::Node(nd@),
                    ));
                }
                chain.push(id);
                nodes.push(Stmt::Node(nd));
                p = t;
            },
            None => match ident(s, p) {
                Some((id, q)) => {
                    let t = trivia(s, q);
                    let ids = string_of(id.as_slice());
                    proof {
                        assert(strings_view(chain@.push(ids)) =~= strings_view(chain@).push(id@));
                    }
                    chain.push(ids);
                    p = t;
                },
                None => {
                    break;
                },
            },
        }
    }
    if chain.len() < 2 {
        return Parsed::Cut(p);
    }
    let (label, p5) = match string(s, p) {
        Some((l, q)) => (Some(string_of(l.as_slice())), q),
        None => (None, p),
    };
    let p6 = trivia(s, p5);
    if p6 < s.len() && s[p6] == ')' {
        let q = trivia(s, p6 + 1);
        let e = Stmt::Edge(EdgeDecl { chain, label, arrow: a });
        proof {
            assert(stmts_view(nodes@.push(e)) =~= stmts_view(nodes@).push(e@));
        }
        nodes.push(e);
        Parsed::Done(nodes, q)
    } else {
        Parsed::Fail
    }
}

fn statement(s: &Vec<char>, pos: usize) -> (r: Parsed<Vec<Stmt>>)
    requires
        pos <= s@.len(),
    ensures
        parsed_stmts_view(r) == stmt_at(s@, pos as int),
        r matches Parsed::Done(_, q) ==> pos < q <= s@.len(),
{
    match edge(s, pos) {
        Parsed::Fail => match node(s, pos) {
            Some((nd, q)) => {
                let mut v: Vec<Stmt> = Vec::new();
                v.push(Stmt::Node(nd));
                assert(stmts_view(v@) =~= seq![SpecStmt::Node(nd@)]);
                Parsed::Done(v, q)
            },
            None => Parsed::Fail,
        },
        other => other,
    }
}

pub open spec fn graph_result_view(r: Result<Graph, usize>) -> Result<SpecGraph, int> {
    match r {
        Ok(g) => Ok(g@),
        Err(o) => Err(o as int),
    }
}

/// Parse a whole MML document; `Err` holds the character offset of the failure.
pub fn parse_graph(s: &Vec<char>) -> (r: Result<Graph, usize>)
    ensures
        graph_result_view(r) == mml_graph(s@),
{
    let n = s.len();
    let p0 = trivia(s, 0);
    if !(p0 < n && s[p0] == '(') {
        return Err(p0);
    }
    let p1 = trivia(s, p0 + 1);
    let (kw, p2) = match ident(s, p1) {
        Some(x) => x,
        None => {
            return Err(p1);
        },
    };
    if !crate::render::equals_keyword(&kw, "graph") {
        return Err(p1);
    }
    let p3 = trivia(s, p2);
    let (dir, p4) = match direction(s, p3) {
        Some(x) => x,
        None => {
            return Err(p3);
        },
    };
    let mut p = trivia(s, p4);
    let ghost start = p;
    let mut stmts: Vec<Stmt> = Vec::new();
    let mut cut: Option<usize> = None;
    assert(stmts_view(stmts@) =~= Seq::<SpecStmt>::empty());
    loop
        invariant_except_break
            stmts_at(s@, start as int, seq![]) == stmts_at(s@, p as int, stmts_view(stmts@)),
            cut is None,
        invariant
            start <= p <= n == s@.len(),
        ensures
            match cut {
                None => stmts_at(s@, start as int, seq![]) == Ok::<_, int>((stmts_view(stmts@), p as int)),
                Some(o) => stmts_at(s@, start as int, seq![]) == Err::<(Seq<SpecStmt>, int), int>(o as int),
            },
        decreases n - p,
    {
        match statement(s, p) {
            Parsed::Done(mut more, q) => {
                proof {
                    assert(stmts_view(stmts@) + stmts_view(more@) =~= stmts_view(stmts@ + more@));
                }
                stmts.append(&mut more);
                p = q;
            },
            Parsed::Fail => {
                break;
            },
            Parsed::Cut(o) => {
                cut = Some(o);
                break;
            },
        }
    }
    if let Some(o) = cut {
        return Err(o);
    }
    if !(p < n && s[p] == ')') {
        return Err(p);
    }
    let end = trivia(s, p + 1);
    if end < n {
        return Err(end);
    }
    Ok(Graph { direction: dir, stmts })
}


/// Every edge statement names at least two nodes.
pub open spec fn chains_have_hops(stmts: Seq<SpecStmt>) -> bool {
    forall|i: int| 0 <= i < stmts.len() ==> (#[trigger] stmts[i] matches SpecStmt::Edge(e) ==> e.chain.len() >= 2)
}

pub proof fn lemma_endpoints_are_nodes(s: Seq<char>, pos: int, chain: Seq<Seq<char>>, nodes: Seq<SpecStmt>)
    requires
        forall|i: int| 0 <= i < nodes.len() ==> #[trigger] nodes[i] is Node,
    ensures
        forall|i: int| 0 <= i < endpoints_at(s, pos, chain, nodes).1.len() ==> #[trigger] endpoints_at(s, pos, chain, nodes).1[i] is Node,
    decreases s.len() - pos,
{
    match node_at(s, pos) {
        Some((n, q)) => if pos < trivia_end(s, q) <= s.len() {
            let nn = nodes.push(SpecStmt::Node(n));
            assert forall|i: int| 0 <= i < nn.len() implies #[trigger] nn[i] is Node by {
                if i < nodes.len() {
                    assert(nn[i] == nodes[i]);
                }
            }
            lemma_endpoints_are_nodes(s, trivia_end(s, q), chain.push(n.id), nn);
        },
        None => match ident_at(s, pos) {
            Some((id, q)) => if pos < trivia_end(s, q) <= s.len() {
                lemma_endpoints_are_nodes(s, trivia_end(s, q), chain.push(id), nodes);
            },
            None => {},
        },
    }
}

pub proof fn lemma_stmt_chains(s: Seq<char>, pos: int)
    ensures
        stmt_at(s, pos) matches Attempt::Done(ss, _) ==> chains_have_hops(ss),
{
    match edge_at(s, pos) {
        Attempt::Fail => {
            if let Some((n, q)) = node_at(s, pos) {
                assert(seq![SpecStmt::Node(n)][0] is Node);
            }
        },
        _ => {
            if 0 <= pos < s.len() && s[pos] == '(' {
                if let Some((arrow, p2)) = arrow_at(s, trivia_end(s, pos + 1)) {
                    lemma_endpoints_are_nodes(s, trivia_end(s, p2), seq![], seq![]);
                }
            }
        },
    }
}

pub proof fn lemma_stmts_chains(s: Seq<char>, pos: int, acc: Seq<SpecStmt>)
    requires
        chains_have_hops(acc),
    ensures
        stmts_at(s, pos, acc) matches Ok((stmts, _)) ==> chains_have_hops(stmts),
    decreases s.len() - pos,
{
    lemma_stmt_chains(s, pos);
    match stmt_at(s, pos) {
        Attempt::Done(ss, q) => if pos < q <= s.len() {
            let next = acc + ss;
            assert forall|i: int| 0 <= i < next.len() implies (#[trigger] next[i] matches SpecStmt::Edge(e) ==> e.chain.len() >= 2) by {
                if i < acc.len() {
                    assert(next[i] == acc[i]);
                } else {
                    assert(next[i] == ss[i - acc.len()]);
                }
            }
            lemma_stmts_chains(s, q, next);
        },
        _ => {},
    }
}

/// Every edge of a parsed MML graph names at least two nodes.
pub proof fn lemma_graph_chains(s: Seq<char>)
    ensures
        mml_graph(s) matches Ok(g) ==> chains_have_hops(g.stmts),
{
    let p0 = trivia_end(s, 0);
    if 0 <= p0 < s.len() && s[p0] == '(' {
        let p1 = trivia_end(s, p0 + 1);
        if let Some((kw, p2)) = ident_at(s, p1) {
            let p3 = trivia_end(s, p2);
            if let Some((direction, p4)) = direction_at(s, p3) {
                lemma_stmts_chains(s, trivia_end(s, p4), seq![]);
            }
        }
    }
}

/// Trivia skips every white-space character: from a white-space character it
/// ends where it ends from the next one.
pub proof fn law_trivia_skips_white_space(s: Seq<char>, p: int)
    requires
        0 <= p < s.len(),
        is_white_space(s[p]),
    ensures
        trivia_end(s, p) == trivia_end(s, p + 1),
{
}

} // verus!
