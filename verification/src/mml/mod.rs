//! Experimental Lisp-like flowchart syntax (MML).
//!
//! MML represents a small, round-trippable Mermaid flowchart subset.
//! Converting from Mermaid rejects any source MML cannot represent exactly
//! instead of silently omitting unsupported constructs.
pub mod ast;
pub mod breaks;
pub mod from_mermaid;
pub mod mermaid;
pub mod parser;
pub mod readback;
pub mod reparse;

use vstd::prelude::*;
use crate::text::{chars_of, decimal, push_all, push_decimal, string_of};
use crate::ast::{Graph, SpecGraph, SpecStmt};
use crate::codegen::{labels_have_hops, mermaid_text, stmt_has_hops};
use crate::gph_printer::print_spec;
use self::from_mermaid::{mermaid_error, mml_mermaid_graph};
use self::parser::{lemma_graph_chains, mml_graph};
use self::breaks::{graph_breaks, map_breaks};

verus! {

/// The message of an MML syntax error at a line and column.
pub open spec fn mml_error(line: nat, col: nat, message: Seq<char>) -> Seq<char> {
    "MML parse error at "@ + decimal(line) + ":"@ + decimal(col) + ": "@ + message
}

/// How many `'\n'` the text holds.
pub open spec fn newline_count(p: Seq<char>) -> nat
    decreases p.len(),
{
    if p.len() == 0 {
        0
    } else {
        newline_count(p.drop_last()) + if p.last() == '\n' {
            1nat
        } else {
            0nat
        }
    }
}

/// How many characters follow the last `'\n'` of the text (all of them when it has none).
pub open spec fn column_count(p: Seq<char>) -> nat
    decreases p.len(),
{
    if p.len() == 0 {
        0
    } else if p.last() == '\n' {
        0
    } else {
        column_count(p.drop_last()) + 1
    }
}

/// The text before character `offset` of the source (all of it past the end).
pub open spec fn source_prefix(source: Seq<char>, offset: int) -> Seq<char> {
    if offset < source.len() {
        source.take(offset)
    } else {
        source
    }
}

/// The message of an MML syntax error at a character offset: 1-based line and column.
pub open spec fn offset_error(source: Seq<char>, offset: int, message: Seq<char>) -> Seq<char> {
    let p = source_prefix(source, offset);
    mml_error(newline_count(p) + 1, column_count(p) + 1, message)
}

/// A parsing or conversion error.
#[derive(Debug, Clone, PartialEq, Eq)]
pub struct Error {
    message: String,
}

impl View for Error {
    type V = Seq<char>;

    closed spec fn view(&self) -> Seq<char> {
        self.message@
    }
}

impl Error {
    fn mml(line: usize, col: usize, message: &str) -> (r: Error)
        ensures
            r@ == mml_error(line as nat, col as nat, message@),
    {
        let mut m: Vec<char> = Vec::new();
        push_all(&mut m, chars_of("MML parse error at ").as_slice());
        push_decimal(&mut m, line);
        push_all(&mut m, chars_of(":").as_slice());
        push_decimal(&mut m, col);
        push_all(&mut m, chars_of(": ").as_slice());
        push_all(&mut m, chars_of(message).as_slice());
        Error { message: string_of(m.as_slice()) }
    }

    fn mml_offset(source: &[char], offset: usize, message: &str) -> (r: Error)
        requires
            source@.len() < usize::MAX,
        ensures
            r@ == offset_error(source@, offset as int, message@),
    {
        let end = if offset < source.len() {
            offset
        } else {
            source.len()
        };
        let ghost p = source_prefix(source@, offset as int);
        let mut lines: usize = 0;
        let mut col: usize = 0;
        let mut i: usize = 0;
        while i < end
            invariant
                i <= end <= source@.len() < usize::MAX,
                p == source@.take(end as int),
                lines == newline_count(source@.take(i as int)),
                col == column_count(source@.take(i as int)),
                lines <= i,
                col <= i,
            decreases end - i,
        {
            assert(source@.take(i + 1).drop_last() =~= source@.take(i as int));
            if source[i] == '\n' {
                lines += 1;
                col = 0;
            } else {
                col += 1;
            }
            i += 1;
        }
        Error::mml(lines + 1, col + 1, message)
    }

    /// A Mermaid error on a 1-based line.
    pub(crate) fn mermaid(line: usize, message: &str) -> (r: Error)
        ensures
            r@ == mermaid_error(line as nat, message@),
    {
        let mut m: Vec<char> = Vec::new();
        push_all(&mut m, chars_of("Mermaid parse error on line ").as_slice());
        push_decimal(&mut m, line);
        push_all(&mut m, chars_of(": ").as_slice());
        push_all(&mut m, chars_of(message).as_slice());
        Error { message: string_of(m.as_slice()) }
    }

    /// The error's message.
    pub fn to_string(&self) -> (r: String)
        ensures
            r@ == self@,
    {
        self.message.clone()
    }
}


/// What `to_mermaid` gives for MML source: the Mermaid text of its graph, or the
/// syntax error at the offset where the source stops being MML.
pub open spec fn to_mermaid_spec(source: Seq<char>) -> Result<Seq<char>, Seq<char>> {
    match mml_graph(source) {
        Ok(g) => Ok(mermaid_text(graph_breaks(g, true))),
        Err(o) => Err(offset_error(source, o, "invalid MML syntax"@)),
    }
}

/// What `parse_mermaid` gives for Mermaid text: the graph it reads, with each
/// `#10;` in a label read as a line break, or the error.
pub open spec fn mml_mermaid_read(source: Seq<char>) -> Result<SpecGraph, Seq<char>> {
    match mml_mermaid_graph(source) {
        Ok(g) => Ok(graph_breaks(g, false)),
        Err(e) => Err(e),
    }
}

/// What `from_mermaid` gives for Mermaid text: canonical MML source, or the error.
pub open spec fn from_mermaid_spec(source: Seq<char>) -> Result<Seq<char>, Seq<char>> {
    match mml_mermaid_read(source) {
        Ok(g) => Ok(print_spec(g, true)),
        Err(e) => Err(e),
    }
}

/// Parse a complete MML graph expression.
pub fn parse(source: &str) -> (r: Result<Graph, Error>)
    requires
        source@.len() < usize::MAX,
    ensures
        match r {
            Ok(g) => mml_graph(source@) == Ok::<_, int>(g@),
            Err(e) => mml_graph(source@) matches Err(o) && e@ == offset_error(
                source@,
                o,
                "invalid MML syntax"@,
            ),
        },
{
    let chars = chars_of(source);
    match parser::parse_graph(&chars) {
        Ok(g) => Ok(g),
        Err(o) => Err(Error::mml_offset(chars.as_slice(), o, "invalid MML syntax")),
    }
}

/// Convert MML source to Mermaid flowchart text.
pub fn to_mermaid(source: &str) -> (r: Result<String, Error>)
    requires
        source@.len() < usize::MAX,
    ensures
        match r {
            Ok(m) => to_mermaid_spec(source@) == Ok::<_, Seq<char>>(m@),
            Err(e) => to_mermaid_spec(source@) == Err::<Seq<char>, _>(e@),
        },
{
    let graph = parse(source)?;
    proof {
        lemma_graph_chains(source@);
    }
    assert(labels_have_hops(graph@.stmts)) by {
        assert forall|i: int| 0 <= i < graph@.stmts.len() implies stmt_has_hops(
            #[trigger] graph@.stmts[i],
        ) by {
            assert(graph@.stmts[i] matches SpecStmt::Edge(e) ==> e.chain.len() >= 2);
        }
    }
    Ok(mermaid::generate(&graph))
}

/// Parse Mermaid flowchart text from the exact subset MML can represent.
///
/// This accepts all Mermaid that `to_mermaid` writes (see
/// `readback::law_mermaid_of_mml_reads_back`). Unsupported Mermaid constructs
/// and lossy edge chains are errors; nothing is skipped or partially converted.
pub fn parse_mermaid(source: &str) -> (r: Result<Graph, Error>)
    ensures
        match r {
            Ok(g) => mml_mermaid_read(source@) == Ok::<_, Seq<char>>(g@),
            Err(e) => mml_mermaid_read(source@) == Err::<SpecGraph, _>(e@),
        },
{
    let g = from_mermaid::parse(source)?;
    Ok(map_breaks(&g, false))
}

/// Convert supported Mermaid flowchart text to canonical MML source.
pub fn from_mermaid(source: &str) -> (r: Result<String, Error>)
    ensures
        match r {
            Ok(m) => from_mermaid_spec(source@) == Ok::<_, Seq<char>>(m@),
            Err(e) => from_mermaid_spec(source@) == Err::<Seq<char>, _>(e@),
        },
{
    let graph = parse_mermaid(source)?;
    Ok(mermaid::print(&graph))
}

} // verus!
