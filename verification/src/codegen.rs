//! Mermaid flowchart text for a flowchart syntax tree.
use vstd::prelude::*;
use crate::ast::{
    strings_view, Arrow, Direction, EdgeDecl, Graph, NodeDecl, Shape, SpecEdge, SpecGraph, SpecNode,
    SpecStmt, Stmt,
};
use crate::text::{append_str, chars_of, join, push_all, push_str, replace, replace_all};

verus! {

/// Mermaid's name for a layout direction.
pub open spec fn direction_name(d: Direction) -> Seq<char> {
    match d {
        Direction::LR => "LR"@,
        Direction::RL => "RL"@,
        Direction::TD => "TD"@,
        Direction::BT => "BT"@,
    }
}

/// Mermaid's link syntax for an arrow style.
pub open spec fn arrow_text(a: Arrow) -> Seq<char> {
    match a {
        Arrow::Normal => "-->"@,
        Arrow::Dotted => "-.->"@,
        Arrow::Thick => "==>"@,
        Arrow::Circle => "--o"@,
        Arrow::Cross => "--x"@,
    }
}

/// A node label with `"` written as the entity `#quot;`.
pub open spec fn escape_node_label(s: Seq<char>) -> Seq<char> {
    replace(s, "\""@, "#quot;"@)
}

/// An edge label with `|` written as `#124;` and then `"` as `#quot;`.
pub open spec fn escape_edge_label(s: Seq<char>) -> Seq<char> {
    replace(replace(s, "|"@, "#124;"@), "\""@, "#quot;"@)
}

/// The opening and closing delimiters of a shape.
pub open spec fn shape_open(shape: Shape) -> Seq<char> {
    match shape {
        Shape::Box => "[\""@,
        Shape::Round => "(\""@,
        Shape::Diamond => "{\""@,
        Shape::Stadium => "([\""@,
        Shape::Hex => "{{\""@,
        Shape::Sub => "[[\""@,
    }
}

pub open spec fn shape_close(shape: Shape) -> Seq<char> {
    match shape {
        Shape::Box => "\"]"@,
        Shape::Round => "\")"@,
        Shape::Diamond => "\"}"@,
        Shape::Stadium => "\"])"@,
        Shape::Hex => "\"}}"@,
        Shape::Sub => "\"]]"@,
    }
}

/// A node id followed by its quoted, escaped label in the shape's delimiters.
pub open spec fn shaped_label(id: Seq<char>, label: Seq<char>, shape: Shape) -> Seq<char> {
    id + shape_open(shape) + escape_node_label(label) + shape_close(shape)
}

/// The lines of a node declaration: none for a node without a label.
pub open spec fn node_lines(n: SpecNode) -> Seq<Seq<char>> {
    match n.label {
        None => seq![],
        Some(l) => seq!["  "@ + shaped_label(n.id, l, n.shape)],
    }
}

/// The link between consecutive chain members.
pub open spec fn link(a: Arrow) -> Seq<char> {
    " "@ + arrow_text(a) + " "@
}

/// A single hop carrying the chain's label.
pub open spec fn labeled_hop(from: Seq<char>, a: Arrow, label: Seq<char>, to: Seq<char>) -> Seq<
    char,
> {
    "  "@ + from + " "@ + arrow_text(a) + "|"@ + escape_edge_label(label) + "| "@ + to
}

/// The lines of an edge chain: one chained line without a label; with a label,
/// the unlabelled prefix (when the chain has more than one hop) and the labelled last hop.
pub open spec fn edge_lines(e: SpecEdge) -> Seq<Seq<char>> {
    let n = e.chain.len() as int;
    match e.label {
        None => seq!["  "@ + join(e.chain, link(e.arrow))],
        Some(l) => {
            let hop = labeled_hop(e.chain[n - 2], e.arrow, l, e.chain[n - 1]);
            if n > 2 {
                seq!["  "@ + join(e.chain.take(n - 1), link(e.arrow)), hop]
            } else {
                seq![hop]
            }
        },
    }
}

pub open spec fn stmt_lines(s: SpecStmt) -> Seq<Seq<char>> {
    match s {
        SpecStmt::Node(n) => node_lines(n),
        SpecStmt::Edge(e) => edge_lines(e),
    }
}

pub open spec fn stmts_lines(s: Seq<SpecStmt>) -> Seq<Seq<char>>
    decreases s.len(),
{
    if s.len() == 0 {
        seq![]
    } else {
        stmts_lines(s.drop_last()) + stmt_lines(s.last())
    }
}

pub open spec fn header_line(d: Direction) -> Seq<char> {
    "flowchart "@ + direction_name(d)
}

/// The lines of the Mermaid flowchart for `g`.
pub open spec fn mermaid_lines(g: SpecGraph) -> Seq<Seq<char>> {
    seq![header_line(g.direction)] + stmts_lines(g.stmts)
}

/// The Mermaid flowchart for `g`: its lines joined by newlines.
pub open spec fn mermaid_text(g: SpecGraph) -> Seq<char> {
    join(mermaid_lines(g), "\n"@)
}

/// A labelled edge names at least the two nodes of its final hop.
pub open spec fn stmt_has_hops(s: SpecStmt) -> bool {
    match s {
        SpecStmt::Edge(e) => e.label is Some ==> e.chain.len() >= 2,
        SpecStmt::Node(_) => true,
    }
}

/// Every labelled edge names at least the two nodes of its final hop.
pub open spec fn labels_have_hops(stmts: Seq<SpecStmt>) -> bool {
    forall|i: int| 0 <= i < stmts.len() ==> stmt_has_hops(#[trigger] stmts[i])
}

pub proof fn lemma_stmts_lines_push(s: Seq<SpecStmt>, x: SpecStmt)
    ensures
        stmts_lines(s.push(x)) == stmts_lines(s) + stmt_lines(x),
{
    assert(s.push(x).drop_last() =~= s);
}

pub proof fn lemma_join_push(parts: Seq<Seq<char>>, sep: Seq<char>, x: Seq<char>)
    requires
        parts.len() >= 1,
    ensures
        join(parts.push(x), sep) == join(parts, sep) + sep + x,
{
    assert(parts.push(x).drop_last() =~= parts);
}

fn escape_mermaid_node_label(s: &[char]) -> (r: Vec<char>)
    ensures
        r@ == escape_node_label(s@),
{
    let quote = chars_of("\"");
    let entity = chars_of("#quot;");
    proof {
        reveal_strlit("\"");
    }
    replace_all(s, quote.as_slice(), entity.as_slice())
}

fn escape_mermaid_edge_label(s: &[char]) -> (r: Vec<char>)
    ensures
        r@ == escape_edge_label(s@),
{
    let pipe = chars_of("|");
    let pipe_entity = chars_of("#124;");
    proof {
        reveal_strlit("|");
        reveal_strlit("\"");
    }
    let first = replace_all(s, pipe.as_slice(), pipe_entity.as_slice());
    let quote = chars_of("\"");
    let entity = chars_of("#quot;");
    replace_all(first.as_slice(), quote.as_slice(), entity.as_slice())
}

fn direction_str(d: Direction) -> (r: &'static str)
    ensures
        r@ == direction_name(d),
{
    match d {
        Direction::LR => "LR",
        Direction::RL => "RL",
        Direction::TD => "TD",
        Direction::BT => "BT",
    }
}

fn arrow_str(a: Arrow) -> (r: &'static str)
    ensures
        r@ == arrow_text(a),
{
    match a {
        Arrow::Normal => "-->",
        Arrow::Dotted => "-.->",
        Arrow::Thick => "==>",
        Arrow::Circle => "--o",
        Arrow::Cross => "--x",
    }
}

fn shape_delimiters(shape: Shape) -> (r: (&'static str, &'static str))
    ensures
        r.0@ == shape_open(shape),
        r.1@ == shape_close(shape),
{
    match shape {
        Shape::Box => ("[\"", "\"]"),
        Shape::Round => ("(\"", "\")"),
        Shape::Diamond => ("{\"", "\"}"),
        Shape::Stadium => ("([\"", "\"])"),
        Shape::Hex => ("{{\"", "\"}}"),
        Shape::Sub => ("[[\"", "\"]]"),
    }
}

fn wrap_label(id: &str, label: &str, shape: Shape) -> (r: Vec<char>)
    ensures
        r@ == shaped_label(id@, label@, shape),
{
    let (open, close) = shape_delimiters(shape);
    let mut out = chars_of(id);
    let o = chars_of(open);
    push_all(&mut out, o.as_slice());
    let l = chars_of(label);
    let escaped = escape_mermaid_node_label(l.as_slice());
    push_all(&mut out, escaped.as_slice());
    let c = chars_of(close);
    push_all(&mut out, c.as_slice());
    out
}

/// The declaration line of a labelled node; `None` for an implicit node.
fn gen_node(n: &NodeDecl) -> (r: Option<Vec<char>>)
    ensures
        match r {
            None => node_lines(n@) =~= Seq::<Seq<char>>::empty(),
            Some(line) => node_lines(n@) =~= seq![line@],
        },
{
    match &n.label {
        None => None,
        Some(label) => {
            let mut line = chars_of("  ");
            let body = wrap_label(n.id.as_str(), label.as_str(), n.shape);
            push_all(&mut line, body.as_slice());
            Some(line)
        },
    }
}

/// The chain members joined by the arrow's link.
fn join_chain(chain: &[String], count: usize, a: Arrow) -> (r: Vec<char>)
    requires
        count <= chain@.len(),
    ensures
        r@ == join(strings_view(chain@).take(count as int), link(a)),
{
    let mut sep = chars_of(" ");
    let arrow = chars_of(arrow_str(a));
    push_all(&mut sep, arrow.as_slice());
    let space = chars_of(" ");
    push_all(&mut sep, space.as_slice());
    assert(sep@ =~= link(a));
    let ghost parts = strings_view(chain@);
    let mut out: Vec<char> = Vec::new();
    let mut i: usize = 0;
    while i < count
        invariant
            i <= count <= chain@.len(),
            parts == strings_view(chain@),
            sep@ == link(a),
            out@ == join(parts.take(i as int), link(a)),
        decreases count - i,
    {
        let member = chars_of(chain[i].as_str());
        if i > 0 {
            push_all(&mut out, sep.as_slice());
        }
        push_all(&mut out, member.as_slice());
        proof {
            let t = parts.take(i + 1);
            assert(t.drop_last() =~= parts.take(i as int));
            assert(t.last() == chain@[i as int]@);
            if i == 0 {
                assert(out@ =~= t[0]);
            }
        }
        i += 1;
    }
    out
}

/// The lines of an edge chain.
fn gen_edge(e: &EdgeDecl) -> (r: Vec<Vec<char>>)
    requires
        e.label is Some ==> e.chain@.len() >= 2,
    ensures
        r@.map_values(|l: Vec<char>| l@) =~= edge_lines(e@),
{
    let ghost parts = strings_view(e.chain@);
    assert(parts.take(parts.len() as int) =~= parts);
    match &e.label {
        None => {
            let mut line = chars_of("  ");
            let joined = join_chain(e.chain.as_slice(), e.chain.len(), e.arrow);
            push_all(&mut line, joined.as_slice());
            let mut lines: Vec<Vec<char>> = Vec::new();
            lines.push(line);
            lines
        },
        Some(label) => {
            let n = e.chain.len();
            let mut lines: Vec<Vec<char>> = Vec::new();
            if n > 2 {
                let mut prefix = chars_of("  ");
                let joined = join_chain(e.chain.as_slice(), n - 1, e.arrow);
                push_all(&mut prefix, joined.as_slice());
                lines.push(prefix);
            }
            let mut hop = chars_of("  ");
            let from = chars_of(e.chain[n - 2].as_str());
            push_all(&mut hop, from.as_slice());
            let space = chars_of(" ");
            push_all(&mut hop, space.as_slice());
            let arrow = chars_of(arrow_str(e.arrow));
            push_all(&mut hop, arrow.as_slice());
            let bar = chars_of("|");
            push_all(&mut hop, bar.as_slice());
            let l = chars_of(label.as_str());
            let escaped = escape_mermaid_edge_label(l.as_slice());
            push_all(&mut hop, escaped.as_slice());
            let close = chars_of("| ");
            push_all(&mut hop, close.as_slice());
            let to = chars_of(e.chain[n - 1].as_str());
            push_all(&mut hop, to.as_slice());
            assert(hop@ =~= labeled_hop(parts[n - 2], e.arrow, label@, parts[n - 1]));
            lines.push(hop);
            lines
        },
    }
}

/// The Mermaid flowchart for `graph`, one statement after another.
pub fn generate(graph: &Graph) -> (r: String)
    requires
        labels_have_hops(graph@.stmts),
    ensures
        r@ == mermaid_text(graph@),
{
    let ghost stmts = graph@.stmts;
    let mut out = String::new();
    append_str(&mut out, "flowchart ");
    append_str(&mut out, direction_str(graph.direction));
    let ghost header = seq![header_line(graph.direction)];
    assert(join(header, "\n"@) == header[0]);
    assert(stmts.take(0) =~= Seq::<SpecStmt>::empty());
    assert(header + stmts_lines(stmts.take(0)) =~= header);
    let mut i: usize = 0;
    while i < graph.stmts.len()
        invariant
            i <= graph.stmts@.len(),
            stmts == graph@.stmts,
            stmts.len() == graph.stmts@.len(),
            labels_have_hops(stmts),
            out@ == join(header + stmts_lines(stmts.take(i as int)), "\n"@),
            header == seq![header_line(graph.direction)],
        decreases graph.stmts@.len() - i,
    {
        let ghost before = header + stmts_lines(stmts.take(i as int));
        assert(stmts[i as int] == graph.stmts@[i as int]@);
        let lines: Vec<Vec<char>> = match &graph.stmts[i] {
            Stmt::Node(n) => match gen_node(n) {
                None => Vec::new(),
                Some(line) => {
                    let mut v: Vec<Vec<char>> = Vec::new();
                    v.push(line);
                    v
                },
            },
            Stmt::Edge(e) => {
                assert(stmts[i as int] matches SpecStmt::Edge(x) && x == e@);
                gen_edge(e)
            },
        };
        let ghost new_lines = stmt_lines(stmts[i as int]);
        assert(lines@.map_values(|l: Vec<char>| l@) =~= new_lines);
        let mut j: usize = 0;
        while j < lines.len()
            invariant
                j <= lines@.len(),
                lines@.map_values(|l: Vec<char>| l@) == new_lines,
                before.len() >= 1,
                out@ == join(before + new_lines.take(j as int), "\n"@),
            decreases lines@.len() - j,
        {
            append_str(&mut out, "\n");
            push_str(&mut out, lines[j].as_slice());
            proof {
                assert(new_lines[j as int] == lines@[j as int]@);
                assert(before + new_lines.take(j + 1) =~= (before + new_lines.take(j as int)).push(
                    new_lines[j as int],
                ));
                lemma_join_push(before + new_lines.take(j as int), "\n"@, new_lines[j as int]);
            }
            j += 1;
        }
        proof {
            assert(new_lines.take(new_lines.len() as int) =~= new_lines);
            assert(stmts.take(i + 1) =~= stmts.take(i as int).push(stmts[i as int]));
            lemma_stmts_lines_push(stmts.take(i as int), stmts[i as int]);
            assert(header + stmts_lines(stmts.take(i + 1)) =~= before + new_lines);
        }
        i += 1;
    }
    assert(stmts.take(stmts.len() as int) =~= stmts);
    out
}

} // verus!
