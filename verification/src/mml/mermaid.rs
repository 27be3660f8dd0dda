//! Mermaid text for MML graphs, and canonical MML text for graphs.
use vstd::prelude::*;
use crate::codegen::{labels_have_hops, mermaid_text, stmt_has_hops};
use super::breaks::{graph_breaks, map_breaks};
use crate::gph_printer::print_spec;
use super::ast::Graph;

verus! {

/// The Mermaid flowchart for an MML graph, each line break in a label written
/// as `#10;` so that every statement stays on its line.
pub fn generate(graph: &Graph) -> (r: String)
    requires
        labels_have_hops(graph@.stmts),
    ensures
        r@ == mermaid_text(graph_breaks(graph@, true)),
{
    let escaped = map_breaks(graph, true);
    assert(labels_have_hops(escaped@.stmts)) by {
        assert forall|i: int| 0 <= i < escaped@.stmts.len() implies stmt_has_hops(#[trigger] escaped@.stmts[i]) by {
            assert(stmt_has_hops(graph@.stmts[i]));
        }
    }
    crate::codegen::generate(&escaped)
}

/// Canonical MML source for a graph; labels escape `\`, `"`, newline and tab.
pub fn print(graph: &Graph) -> (r: String)
    ensures
        r@ == print_spec(graph@, true),
{
    crate::gph_printer::print_with(graph, true)
}

} // verus!
