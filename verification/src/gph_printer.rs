//! Canonical gph source text for a flowchart syntax tree.
use vstd::prelude::*;
use crate::ast::{strings_view, Arrow, Direction, EdgeDecl, Graph, NodeDecl, Shape, SpecEdge, SpecGraph, SpecNode, SpecStmt, Stmt};
use crate::text::{append_str, chars_of, join, push_all, push_str, replace, replace_all};

verus! {

pub open spec fn dir_keyword(d: Direction) -> Seq<char> {
    match d {
        Direction::LR => "lr"@,
        Direction::RL => "rl"@,
        Direction::TD => "td"@,
        Direction::BT => "bt"@,
    }
}

/// The shape keyword written after a label; none for the default box.
pub open spec fn shape_suffix(s: Shape) -> Seq<char> {
    match s {
        Shape::Box => ""@,
        Shape::Round => " round"@,
        Shape::Diamond => " diamond"@,
        Shape::Stadium => " stadium"@,
        Shape::Hex => " hex"@,
        Shape::Sub => " sub"@,
    }
}

pub open spec fn arrow_keyword(a: Arrow) -> Seq<char> {
    match a {
        Arrow::Normal => "->"@,
        Arrow::Dotted => "-->"@,
        Arrow::Thick => "=>"@,
        Arrow::Circle => "-o"@,
        Arrow::Cross => "-x"@,
    }
}

/// A label as a string literal body: `\` and `"` escaped, and with
/// `controls` also newline and tab as `\n` and `\t`.
pub open spec fn escape_label(s: Seq<char>, controls: bool) -> Seq<char> {
    let e = replace(replace(s, "\\"@, "\\\\"@), "\""@, "\\\""@);
    if controls {
        replace(replace(e, "\n"@, "\\n"@), "\t"@, "\\t"@)
    } else {
        e
    }
}

pub open spec fn print_node_spec(n: SpecNode, controls: bool) -> Seq<char> {
    match n.label {
        Some(l) => "("@ + n.id + " \""@ + escape_label(l, controls) + "\""@ + shape_suffix(n.shape)
            + ")"@,
        None => "("@ + n.id + ")"@,
    }
}

pub open spec fn print_edge_spec(e: SpecEdge, controls: bool) -> Seq<char> {
    let chain = join(e.chain, " "@);
    match e.label {
        Some(l) => "("@ + arrow_keyword(e.arrow) + " "@ + chain + " \""@ + escape_label(l, controls)
            + "\")"@,
        None => "("@ + arrow_keyword(e.arrow) + " "@ + chain + ")"@,
    }
}

pub open spec fn print_stmt_spec(s: SpecStmt, controls: bool) -> Seq<char> {
    match s {
        SpecStmt::Node(n) => print_node_spec(n, controls),
        SpecStmt::Edge(e) => print_edge_spec(e, controls),
    }
}

/// Each statement on its own indented line.
pub open spec fn print_stmts_spec(ss: Seq<SpecStmt>, controls: bool) -> Seq<char>
    decreases ss.len(),
{
    if ss.len() == 0 {
        seq![]
    } else {
        print_stmts_spec(ss.drop_last(), controls) + "\n  "@ + print_stmt_spec(ss.last(), controls)
    }
}

/// `(graph <dir>` and one indented line per statement, then `)`.
pub open spec fn print_spec(g: SpecGraph, controls: bool) -> Seq<char> {
    "(graph "@ + dir_keyword(g.direction) + print_stmts_spec(g.stmts, controls) + ")"@
}

fn dir_word(d: Direction) -> (r: &'static str)
    ensures
        r@ == dir_keyword(d),
{
    match d {
        Direction::LR => "lr",
        Direction::RL => "rl",
        Direction::TD => "td",
        Direction::BT => "bt",
    }
}

fn shape_word(s: Shape) -> (r: &'static str)
    ensures
        r@ == shape_suffix(s),
{
    match s {
        Shape::Box => "",
        Shape::Round => " round",
        Shape::Diamond => " diamond",
        Shape::Stadium => " stadium",
        Shape::Hex => " hex",
        Shape::Sub => " sub",
    }
}

fn arrow_word(a: Arrow) -> (r: &'static str)
    ensures
        r@ == arrow_keyword(a),
{
    match a {
        Arrow::Normal => "->",
        Arrow::Dotted => "-->",
        Arrow::Thick => "=>",
        Arrow::Circle => "-o",
        Arrow::Cross => "-x",
    }
}

fn replace_text(s: &[char], pat: &str, rep: &str) -> (r: Vec<char>)
    requires
        pat@.len() > 0,
    ensures
        r@ == replace(s@, pat@, rep@),
{
    let p = chars_of(pat);
    let q = chars_of(rep);
    replace_all(s, p.as_slice(), q.as_slice())
}

/// A label escaped for a gph string literal.
pub fn escape(s: &str, controls: bool) -> (r: Vec<char>)
    ensures
        r@ == escape_label(s@, controls),
{
    proof {
        reveal_strlit("\\");
        reveal_strlit("\"");
        reveal_strlit("\n");
        reveal_strlit("\t");
    }
    let v = chars_of(s);
    let a = replace_text(v.as_slice(), "\\", "\\\\");
    let b = replace_text(a.as_slice(), "\"", "\\\"");
    if controls {
        let c = replace_text(b.as_slice(), "\n", "\\n");
        replace_text(c.as_slice(), "\t", "\\t")
    } else {
        b
    }
}

fn print_node(n: &NodeDecl, controls: bool) -> (r: String)
    ensures
        r@ == print_node_spec(n@, controls),
{
    let mut out = String::new();
    append_str(&mut out, "(");
    append_str(&mut out, n.id.as_str());
    match &n.label {
        Some(l) => {
            append_str(&mut out, " \"");
            let e = escape(l.as_str(), controls);
            push_str(&mut out, e.as_slice());
            append_str(&mut out, "\"");
            append_str(&mut out, shape_word(n.shape));
        },
        None => {},
    }
    append_str(&mut out, ")");
    out
}

fn join_spaced(chain: &Vec<String>) -> (r: Vec<char>)
    ensures
        r@ == join(strings_view(chain@), " "@),
{
    let ghost parts = strings_view(chain@);
    let sep = chars_of(" ");
    let mut out: Vec<char> = Vec::new();
    let mut i: usize = 0;
    assert(parts.take(0) =~= Seq::<Seq<char>>::empty());
    while i < chain.len()
        invariant
            i <= chain@.len(),
            parts == strings_view(chain@),
            sep@ == " "@,
            out@ == join(parts.take(i as int), " "@),
        decreases chain@.len() - i,
    {
        let member = chars_of(chain[i].as_str());
        if i > 0 {
            push_all(&mut out, sep.as_slice());
        }
        push_all(&mut out, member.as_slice());
        proof {
            let t = parts.take(i + 1);
            assert(t.drop_last() =~= parts.take(i as int));
            assert(t.last() == chain@[i as int]@);
            if i == 0 {
                assert(out@ =~= t[0]);
            }
        }
        i += 1;
    }
    assert(parts.take(parts.len() as int) =~= parts);
    out
}

fn print_edge(e: &EdgeDecl, controls: bool) -> (r: String)
    ensures
        r@ == print_edge_spec(e@, controls),
{
    let mut out = String::new();
    append_str(&mut out, "(");
    append_str(&mut out, arrow_word(e.arrow));
    append_str(&mut out, " ");
    let chain = join_spaced(&e.chain);
    push_str(&mut out, chain.as_slice());
    match &e.label {
        Some(l) => {
            append_str(&mut out, " \"");
            let x = escape(l.as_str(), controls);
            push_str(&mut out, x.as_slice());
            append_str(&mut out, "\")");
        },
        None => {
            append_str(&mut out, ")");
        },
    }
    out
}

fn print_stmt(s: &Stmt, controls: bool) -> (r: String)
    ensures
        r@ == print_stmt_spec(s@, controls),
{
    match s {
        Stmt::Node(n) => print_node(n, controls),
        Stmt::Edge(e) => print_edge(e, controls),
    }
}

/// Canonical source text for `graph`; `controls` also escapes newline and tab in labels.
pub fn print_with(graph: &Graph, controls: bool) -> (r: String)
    ensures
        r@ == print_spec(graph@, controls),
{
    let ghost stmts = graph@.stmts;
    let mut out = String::new();
    append_str(&mut out, "(graph ");
    append_str(&mut out, dir_word(graph.direction));
    let ghost head = out@;
    assert(stmts.take(0) =~= Seq::<SpecStmt>::empty());
    let mut i: usize = 0;
    while i < graph.stmts.len()
        invariant
            i <= graph.stmts@.len(),
            stmts == graph@.stmts,
            out@ == head + print_stmts_spec(stmts.take(i as int), controls),
        decreases graph.stmts@.len() - i,
    {
        append_str(&mut out, "\n  ");
        let s = print_stmt(&graph.stmts[i], controls);
        let sv = chars_of(s.as_str());
        push_str(&mut out, sv.as_slice());
        proof {
            assert(stmts.take(i + 1).drop_last() =~= stmts.take(i as int));
            assert(stmts.take(i + 1).last() == graph.stmts@[i as int]@);
        }
        i += 1;
    }
    assert(stmts.take(stmts.len() as int) =~= stmts);
    append_str(&mut out, ")");
    out
}

/// Canonical gph source for `graph`.
pub fn print(graph: &Graph) -> (r: String)
    ensures
        r@ == print_spec(graph@, false),
{
    print_with(graph, false)
}

} // verus!
