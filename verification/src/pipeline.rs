//! The public conversions: gph to Mermaid, Mermaid back to gph, and SVG.
use vstd::prelude::*;
use crate::ast::{Graph, SpecGraph, SpecStmt};
use crate::codegen::{generate, labels_have_hops, mermaid_text, stmt_has_hops};
use crate::lexer::{lex, lex_spec, SpecLexError, SpecToken, SpecTokenKind};
use crate::parser::{
    parse, parse_edge_spec, parse_endpoints, parse_graph_spec, parse_node_spec, parse_spec,
    parse_stmt_spec, parse_stmts_spec, SpecParseError,
};
use crate::text::{append_str, chars_of, decimal, push_decimal, push_str};

verus! {

/// `<kind> error at <line>:<col>: <msg>`.
pub open spec fn located_message(kind: Seq<char>, line: int, col: int, msg: Seq<char>) -> Seq<char> {
    kind + " error at "@ + decimal(line as nat) + ":"@ + decimal(col as nat) + ": "@ + msg
}

/// The graph a gph source spells, or its lexical or syntax error as text.
pub open spec fn lex_and_parse_spec(src: Seq<char>) -> Result<SpecGraph, Seq<char>> {
    match lex_spec(src) {
        Err(e) => Err(located_message("lex"@, e.line, e.col, e.msg)),
        Ok(toks) => match parse_spec(toks) {
            Err(e) => Err(located_message("parse"@, e.line, e.col, e.msg)),
            Ok(g) => Ok(g),
        },
    }
}

/// The Mermaid flowchart a gph source compiles to, or why it does not compile.
pub open spec fn compile_spec(src: Seq<char>) -> Result<Seq<char>, Seq<char>> {
    match lex_and_parse_spec(src) {
        Err(e) => Err(e),
        Ok(g) => Ok(mermaid_text(g)),
    }
}

pub proof fn lemma_endpoints_nodes(
    toks: Seq<SpecToken>,
    pos: int,
    chain: Seq<Seq<char>>,
    nodes: Seq<SpecStmt>,
)
    requires
        forall|i: int| 0 <= i < nodes.len() ==> #[trigger] nodes[i] is Node,
    ensures
        parse_endpoints(toks, pos, chain, nodes) matches Ok((c, ns, p)) ==> (forall|i: int|
            0 <= i < ns.len() ==> #[trigger] ns[i] is Node) && c.len() >= chain.len(),
    decreases toks.len() - pos,
{
    if 0 <= pos < toks.len() {
        match toks[pos].kind {
            SpecTokenKind::Ident(s) => lemma_endpoints_nodes(toks, pos + 1, chain.push(s), nodes),
            SpecTokenKind::LParen => match parse_node_spec(toks, pos + 1) {
                Ok((n, q)) => if pos < q <= toks.len() {
                    let ns = nodes.push(SpecStmt::Node(n));
                    assert forall|i: int| 0 <= i < ns.len() implies #[trigger] ns[i] is Node by {
                        if i < nodes.len() {
                            assert(ns[i] == nodes[i]);
                        }
                    }
                    lemma_endpoints_nodes(toks, q, chain.push(n.id), ns);
                },
                Err(_) => {},
            },
            _ => {},
        }
    }
}

pub proof fn lemma_stmt_has_hops(toks: Seq<SpecToken>, pos: int)
    ensures
        parse_stmt_spec(toks, pos) matches Ok((ss, q)) ==> labels_have_hops(ss),
{
    match parse_stmt_spec(toks, pos) {
        Ok((ss, q)) => {
            if kind_is_arrow(toks, pos + 1) {
                lemma_endpoints_nodes(toks, pos + 2, seq![], seq![]);
                assert forall|i: int| 0 <= i < ss.len() implies stmt_has_hops(#[trigger] ss[i]) by {
                    if i < ss.len() - 1 {
                    }
                }
            }
        },
        Err(_) => {},
    }
}

pub open spec fn kind_is_arrow(toks: Seq<SpecToken>, pos: int) -> bool {
    crate::parser::kind_at(toks, pos) matches Some(SpecTokenKind::Arrow(_))
}

pub proof fn lemma_stmts_have_hops(toks: Seq<SpecToken>, pos: int, acc: Seq<SpecStmt>)
    requires
        labels_have_hops(acc),
    ensures
        parse_stmts_spec(toks, pos, acc) matches Ok((ss, q)) ==> labels_have_hops(ss),
    decreases toks.len() - pos,
{
    match crate::parser::kind_at(toks, pos) {
        Some(SpecTokenKind::LParen) => match parse_stmt_spec(toks, pos) {
            Ok((ss, q)) => if pos < q <= toks.len() {
                lemma_stmt_has_hops(toks, pos);
                assert(labels_have_hops(acc + ss)) by {
                    assert forall|i: int| 0 <= i < (acc + ss).len() implies stmt_has_hops(
                        #[trigger] (acc + ss)[i],
                    ) by {
                        if i < acc.len() {
                            assert((acc + ss)[i] == acc[i]);
                        } else {
                            assert((acc + ss)[i] == ss[i - acc.len()]);
                        }
                    }
                }
                lemma_stmts_have_hops(toks, q, acc + ss);
            },
            Err(_) => {},
        },
        _ => {},
    }
}

/// Every graph the parser accepts has a final hop on each labelled edge.
pub proof fn lemma_parsed_graph_has_hops(toks: Seq<SpecToken>)
    ensures
        parse_spec(toks) matches Ok(g) ==> labels_have_hops(g.stmts),
{
    lemma_stmts_have_hops(toks, 3, seq![]);
}

fn located(kind: &str, line: usize, col: usize, msg: &String) -> (r: String)
    ensures
        r@ == located_message(kind@, line as int, col as int, msg@),
{
    let mut out = String::new();
    append_str(&mut out, kind);
    append_str(&mut out, " error at ");
    let mut digits: Vec<char> = Vec::new();
    push_decimal(&mut digits, line);
    push_str(&mut out, digits.as_slice());
    append_str(&mut out, ":");
    let mut digits2: Vec<char> = Vec::new();
    push_decimal(&mut digits2, col);
    push_str(&mut out, digits2.as_slice());
    append_str(&mut out, ": ");
    let m = chars_of(msg.as_str());
    push_str(&mut out, m.as_slice());
    out
}

pub fn lex_and_parse(src: &str) -> (r: Result<Graph, String>)
    requires
        src@.len() < usize::MAX,
    ensures
        match r {
            Ok(g) => lex_and_parse_spec(src@) == Ok::<_, Seq<char>>(g@),
            Err(e) => lex_and_parse_spec(src@) == Err::<SpecGraph, _>(e@),
        },
{
    let tokens = match lex(src) {
        Ok(t) => t,
        Err(e) => {
            return Err(located("lex", e.line, e.col, &e.msg));
        },
    };
    match parse(tokens.as_slice()) {
        Ok(g) => Ok(g),
        Err(e) => Err(located("parse", e.line, e.col, &e.msg)),
    }
}

} // verus!
