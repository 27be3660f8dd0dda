//! Compiler between a small Lisp-like flowchart language ("gph") and Mermaid
//! flowchart text, with the experimental MML variant, the layered arrangement
//! behind the built-in drawing, and the pure logic of the Kitty preview tools.
pub mod arrange;
pub mod ast;
pub mod codegen;
pub mod crossings;
pub mod gph_printer;
pub mod gph_readback;
pub mod kitty;
pub mod layout;
pub mod lexer;
pub mod lsp;
pub mod mermaid_parser;
pub mod mml;
pub mod parser;
pub mod pipeline;
pub mod preview;
pub mod preview_ui;
pub mod readback;
pub mod render;
pub mod reparse;
pub mod svg;
pub mod text;
pub mod tui;

use vstd::prelude::*;
use crate::codegen::generate;
use crate::gph_printer::print_spec;
use crate::lexer::lex_spec;
use crate::mermaid_parser::decompile_graph;
use crate::pipeline::{compile_spec, lemma_parsed_graph_has_hops, lex_and_parse};
use crate::text::{append_str, chars_of, push_str};

verus! {

/// Compile gph source to Mermaid flowchart text.
pub fn compile(src: &str) -> (r: Result<String, String>)
    requires
        src@.len() < usize::MAX,
    ensures
        match r {
            Ok(m) => compile_spec(src@) == Ok::<_, Seq<char>>(m@),
            Err(e) => compile_spec(src@) == Err::<Seq<char>, _>(e@),
        },
{
    let graph = lex_and_parse(src)?;
    proof {
        match lex_spec(src@) {
            Ok(toks) => lemma_parsed_graph_has_hops(toks),
            Err(_) => {},
        }
    }
    Ok(generate(&graph))
}



/// The gph source a Mermaid flowchart reads back as, or why it cannot be read.
pub open spec fn decompile_spec(src: Seq<char>) -> Result<Seq<char>, Seq<char>> {
    match decompile_graph(src) {
        Ok(g) => Ok(print_spec(g, false)),
        Err(e) => Err(e),
    }
}

/// Read Mermaid flowchart text back into canonical gph source.
pub fn decompile(src: &str) -> (r: Result<String, String>)
    ensures
        match r {
            Ok(s) => decompile_spec(src@) == Ok::<_, Seq<char>>(s@),
            Err(e) => decompile_spec(src@) == Err::<Seq<char>, _>(e@),
        },
{
    let graph = mermaid_parser::parse(src)?;
    Ok(gph_printer::print(&graph))
}

/// Calls `mermaid_rs_renderer::render`, which parses, lays out and draws a Mermaid
/// diagram as SVG, and returns the SVG or the `Display` text of its error. What
/// the SVG holds, or whether rendering succeeds, is not stated: the renderer's
/// layout walks hash maps, so its output is not claimed to be a function of the input.
/// It is only handed flowcharts this library writes, and the call is assumed
/// not to panic on them (its parser and layout hold `unwrap` and `expect`
/// sites whose reach is not settled).
#[verifier::external_body]
fn render_mermaid(mermaid: &str) -> (r: Result<String, String>)
    requires
        exists|g: crate::ast::SpecGraph| mermaid@ == crate::codegen::mermaid_text(g),
{
    mermaid_rs_renderer::render(mermaid).map_err(|e| format!("{e}"))
}

/// Compile gph source and render the Mermaid result as SVG.
pub fn render_svg(src: &str) -> (r: Result<String, String>)
    requires
        src@.len() < usize::MAX,
    ensures
        compile_spec(src@) matches Err(e) ==> (r matches Err(x) && x@ == e),
        compile_spec(src@) is Ok ==> (r matches Err(x) ==> starts_with_render_error(x@)),
{
    let mermaid = compile(src)?;
    proof {
        let g = crate::pipeline::lex_and_parse_spec(src@)->Ok_0;
        assert(mermaid@ == crate::codegen::mermaid_text(g));
    }
    let r = svg_outcome(render_mermaid(mermaid.as_str()));
    proof {
        if r is Err {
            let x = r->Err_0;
            assert(x@.take("render error: "@.len() as int) =~= "render error: "@);
        }
    }
    r
}

/// What rendering reports: the SVG as drawn, or the renderer's error after
/// `render error: `.
pub fn svg_outcome(rendered: Result<String, String>) -> (r: Result<String, String>)
    ensures
        match rendered {
            Ok(svg) => r matches Ok(x) && x@ == svg@,
            Err(e) => r matches Err(x) && x@ == "render error: "@ + e@,
        },
{
    match rendered {
        Ok(svg) => Ok(svg),
        Err(e) => {
            let mut msg = String::new();
            append_str(&mut msg, "render error: ");
            let ev = chars_of(e.as_str());
            push_str(&mut msg, ev.as_slice());
            Err(msg)
        },
    }
}

pub open spec fn starts_with_render_error(s: Seq<char>) -> bool {
    crate::text::starts_with(s, "render error: "@)
}

} // verus!
