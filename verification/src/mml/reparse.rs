//! The canonical MML text of a graph parses back to that graph, so that
//! `to_mermaid` of what `from_mermaid` writes gives the Mermaid text back.
use vstd::prelude::*;
use crate::ast::{Arrow, Direction, Shape, SpecEdge, SpecGraph, SpecNode, SpecStmt};
use crate::gph_printer::{
    arrow_keyword, dir_keyword, escape_label, print_edge_spec, print_node_spec, print_spec, print_stmt_spec,
    print_stmts_spec, shape_suffix,
};
use crate::mml::parser::{
    arrow_at, direction_at, edge_at, endpoints_at, ident_at, is_mml_ident_continue, is_mml_ident_start, lit_at,
    mml_escape, mml_graph, node_at, shape_at, stmt_at, stmts_at, string_at, string_body, trivia_end, Attempt,
};
use crate::mml::readback::{lemma_ident_at, mml_ident};
use crate::readback::{lemma_join_front, lemma_replace_keep};
use crate::reparse::{
    lemma_escape_cons, lemma_placed_char, lemma_placed_split, lemma_shape_words, placed, quote_escape_char,
    reparsed, reparsed_stmt, shape_keyword,
};
use crate::text::{is_white_space, join, replace};
use crate::mml::from_mermaid::mml_mermaid_graph;
use crate::mml::{from_mermaid_spec, to_mermaid_spec};

verus! {

proof fn lemma_trivia_stop(s: Seq<char>, p: int)
    requires
        0 <= p,
        p < s.len() ==> !is_white_space(s[p]) && s[p] != ';',
    ensures
        trivia_end(s, p) == p,
{
}

proof fn lemma_trivia_bound(s: Seq<char>, p: int)
    requires
        0 <= p,
    ensures
        p <= trivia_end(s, p),
        p <= s.len() ==> trivia_end(s, p) <= s.len(),
    decreases s.len() - p,
{
    if 0 <= p < s.len() {
        if is_white_space(s[p]) {
            lemma_trivia_bound(s, p + 1);
        } else if s[p] == ';' {
            let e = crate::mml::parser::line_end(s, p + 1);
            lemma_line_end_bound(s, p + 1);
            if e < s.len() && e + 1 > p {
                lemma_trivia_bound(s, e + 1);
            }
        }
    }
}

proof fn lemma_line_end_bound(s: Seq<char>, p: int)
    requires
        0 <= p,
    ensures
        p <= crate::mml::parser::line_end(s, p),
        p <= s.len() ==> crate::mml::parser::line_end(s, p) <= s.len(),
    decreases s.len() - p,
{
    if 0 <= p < s.len() && s[p] != '\n' {
        lemma_line_end_bound(s, p + 1);
    }
}

proof fn lemma_trivia_skip(s: Seq<char>, p: int)
    requires
        0 <= p < s.len(),
        s[p] == ' ' || s[p] == '\n',
    ensures
        trivia_end(s, p) == trivia_end(s, p + 1),
{
}

/// A literal that stands at `p` is found there.
proof fn lemma_lit_here(s: Seq<char>, p: int, w: Seq<char>)
    requires
        placed(s, p, w),
    ensures
        lit_at(s, p, w),
{
    assert(s.subrange(p, p + w.len()) =~= w) by {
        assert forall|i: int| 0 <= i < w.len() implies s.subrange(p, p + w.len())[i] == w[i] by {
            lemma_placed_char(s, p, w, i);
        }
    }
}

/// A literal is not found where one of its characters differs.
proof fn lemma_lit_not(s: Seq<char>, p: int, w: Seq<char>, i: int)
    requires
        0 <= i < w.len(),
        0 <= p,
        p + i < s.len(),
        s[p + i] != w[i],
    ensures
        !lit_at(s, p, w),
{
    if lit_at(s, p, w) {
        assert(s.subrange(p, p + w.len())[i] == s[p + i]);
    }
}

/// How one label character is written inside an MML string literal.
pub open spec fn control_escape_char(c: char) -> Seq<char> {
    if c == '\n' {
        seq!['\\', 'n']
    } else if c == '\t' {
        seq!['\\', 't']
    } else {
        quote_escape_char(c)
    }
}

#[verifier::spinoff_prover]
proof fn lemma_control_escape_cons(c: char, r: Seq<char>)
    ensures
        escape_label(seq![c] + r, true) == control_escape_char(c) + escape_label(r, true),
{
    reveal_strlit("\n");
    reveal_strlit("\\n");
    reveal_strlit("\t");
    reveal_strlit("\\t");
    lemma_escape_cons(c, r);
    let q = quote_escape_char(c);
    let er = escape_label(r, false);
    let e = q + er;
    let nl = "\n"@;
    let nl2 = "\\n"@;
    let tb = "\t"@;
    let tb2 = "\\t"@;
    let er1 = replace(er, nl, nl2);
    if c == '\n' {
        assert(q =~= nl);
        assert(e.take(1) =~= nl);
        assert(e.skip(1) =~= er);
        let a = replace(e, nl, nl2);
        assert(a == nl2 + er1);
        assert(a.take(2) =~= nl2);
        assert(a.skip(2) =~= er1);
        lemma_replace_keep(a, nl2, tb, tb2);
        assert(control_escape_char(c) =~= nl2);
    } else {
        assert(q.len() >= 1 && q[0] != '\n');
        assert(forall|i: int| 0 <= i < q.len() ==> q[i] != '\n');
        assert(e.take(q.len() as int) =~= q);
        assert(e.skip(q.len() as int) =~= er);
        lemma_replace_keep(e, q, nl, nl2);
        let a = replace(e, nl, nl2);
        assert(a == q + er1);
        assert(a.take(q.len() as int) =~= q);
        assert(a.skip(q.len() as int) =~= er1);
        if c == '\t' {
            assert(q =~= tb);
            assert(a.take(1) =~= tb);
            assert(replace(a, tb, tb2) == tb2 + replace(er1, tb, tb2));
            assert(control_escape_char(c) =~= tb2);
        } else {
            assert(forall|i: int| 0 <= i < q.len() ==> q[i] != '\t');
            lemma_replace_keep(a, q, tb, tb2);
            assert(control_escape_char(c) == q);
        }
    }
}

/// Reading the escaped form of `l` up to its closing quote gives `l`.
#[verifier::spinoff_prover]
proof fn lemma_string_body(s: Seq<char>, p: int, l: Seq<char>, acc: Seq<char>)
    requires
        placed(s, p, escape_label(l, true)),
        p + escape_label(l, true).len() < s.len(),
        s[p + escape_label(l, true).len()] == '"',
    ensures
        string_body(s, p, acc) == Some((acc + l, p + escape_label(l, true).len() + 1)),
    decreases l.len(),
{
    if l.len() == 0 {
        assert(escape_label(l, true) =~= Seq::<char>::empty());
        assert(acc + l =~= acc);
    } else {
        let c = l[0];
        let r = l.skip(1);
        assert(l =~= seq![c] + r);
        lemma_control_escape_cons(c, r);
        let e = control_escape_char(c);
        let er = escape_label(r, true);
        let whole = escape_label(l, true);
        assert(whole == e + er);
        lemma_placed_split(s, p, e, er);
        lemma_placed_char(s, p, e, 0);
        assert(s[p + e.len() + er.len()] == '"');
        assert(acc.push(c) + r =~= acc + l);
        if e.len() == 2 {
            lemma_placed_char(s, p, e, 1);
            assert(mml_escape(s[p + 1]) == Some(c));
            lemma_string_body(s, p + 2, r, acc.push(c));
        } else {
            lemma_string_body(s, p + 1, r, acc.push(c));
        }
    }
}

/// A string literal holding the escaped form of `l` reads as `l`.
proof fn lemma_string_at(s: Seq<char>, p: int, l: Seq<char>)
    requires
        0 <= p < s.len(),
        s[p] == '"',
        placed(s, p + 1, escape_label(l, true)),
        p + 1 + escape_label(l, true).len() < s.len(),
        s[p + 1 + escape_label(l, true).len()] == '"',
    ensures
        string_at(s, p) == Some((l, p + escape_label(l, true).len() + 2)),
{
    lemma_string_body(s, p + 1, l, seq![]);
    assert(seq![] + l =~= l);
}

/// A shape keyword standing at `p` is read as its shape.
#[verifier::spinoff_prover]
proof fn lemma_shape_at(s: Seq<char>, p: int, sh: Shape)
    requires
        placed(s, p, shape_keyword(sh)),
    ensures
        shape_at(s, p) == Some((sh, p + shape_keyword(sh).len())),
{
    reveal_strlit("box");
    reveal_strlit("round");
    reveal_strlit("diamond");
    reveal_strlit("stadium");
    reveal_strlit("hex");
    reveal_strlit("sub");
    let w = shape_keyword(sh);
    lemma_lit_here(s, p, w);
    lemma_placed_char(s, p, w, 0);
    match sh {
        Shape::Box => {},
        Shape::Round => {
            lemma_lit_not(s, p, "box"@, 0);
        },
        Shape::Diamond => {
            lemma_lit_not(s, p, "box"@, 0);
            lemma_lit_not(s, p, "round"@, 0);
        },
        Shape::Stadium => {
            lemma_lit_not(s, p, "box"@, 0);
            lemma_lit_not(s, p, "round"@, 0);
            lemma_lit_not(s, p, "diamond"@, 0);
        },
        Shape::Hex => {
            lemma_lit_not(s, p, "box"@, 0);
            lemma_lit_not(s, p, "round"@, 0);
            lemma_lit_not(s, p, "diamond"@, 0);
            lemma_lit_not(s, p, "stadium"@, 0);
        },
        Shape::Sub => {
            lemma_placed_char(s, p, w, 1);
            lemma_lit_not(s, p, "box"@, 0);
            lemma_lit_not(s, p, "round"@, 0);
            lemma_lit_not(s, p, "diamond"@, 0);
            lemma_lit_not(s, p, "stadium"@, 1);
            lemma_lit_not(s, p, "hex"@, 0);
        },
    }
}

/// No shape keyword starts at a character that starts none of them.
proof fn lemma_no_shape_at(s: Seq<char>, p: int)
    requires
        0 <= p < s.len(),
        s[p] != 'b' && s[p] != 'r' && s[p] != 'd' && s[p] != 's' && s[p] != 'h',
    ensures
        shape_at(s, p) is None,
{
    reveal_strlit("box");
    reveal_strlit("round");
    reveal_strlit("diamond");
    reveal_strlit("stadium");
    reveal_strlit("hex");
    reveal_strlit("sub");
    lemma_lit_not(s, p, "box"@, 0);
    lemma_lit_not(s, p, "round"@, 0);
    lemma_lit_not(s, p, "diamond"@, 0);
    lemma_lit_not(s, p, "stadium"@, 0);
    lemma_lit_not(s, p, "hex"@, 0);
    lemma_lit_not(s, p, "sub"@, 0);
}

/// An arrow keyword standing at `p` is read as its arrow.
#[verifier::spinoff_prover]
proof fn lemma_arrow_at(s: Seq<char>, p: int, a: Arrow)
    requires
        placed(s, p, arrow_keyword(a)),
    ensures
        arrow_at(s, p) == Some((a, p + arrow_keyword(a).len())),
{
    reveal_strlit("->");
    reveal_strlit("-->");
    reveal_strlit("=>");
    reveal_strlit("-o");
    reveal_strlit("-x");
    let w = arrow_keyword(a);
    lemma_lit_here(s, p, w);
    lemma_placed_char(s, p, w, 0);
    lemma_placed_char(s, p, w, 1);
    match a {
        Arrow::Dotted => {},
        Arrow::Normal => {
            lemma_lit_not(s, p, "-->"@, 1);
        },
        Arrow::Thick => {
            lemma_lit_not(s, p, "-->"@, 0);
            lemma_lit_not(s, p, "->"@, 0);
        },
        Arrow::Circle => {
            lemma_lit_not(s, p, "-->"@, 1);
            lemma_lit_not(s, p, "->"@, 1);
            lemma_lit_not(s, p, "=>"@, 0);
        },
        Arrow::Cross => {
            lemma_lit_not(s, p, "-->"@, 1);
            lemma_lit_not(s, p, "->"@, 1);
            lemma_lit_not(s, p, "=>"@, 0);
            lemma_lit_not(s, p, "-o"@, 1);
        },
    }
}

/// No arrow starts at an identifier character.
proof fn lemma_no_arrow_at(s: Seq<char>, p: int)
    requires
        0 <= p < s.len(),
        is_mml_ident_start(s[p]),
    ensures
        arrow_at(s, p) is None,
{
    reveal_strlit("->");
    reveal_strlit("-->");
    reveal_strlit("=>");
    reveal_strlit("-o");
    reveal_strlit("-x");
    lemma_lit_not(s, p, "-->"@, 0);
    lemma_lit_not(s, p, "->"@, 0);
    lemma_lit_not(s, p, "=>"@, 0);
    lemma_lit_not(s, p, "-o"@, 0);
    lemma_lit_not(s, p, "-x"@, 0);
}

/// A direction keyword standing at `p` is read as its direction.
proof fn lemma_direction_at(s: Seq<char>, p: int, d: Direction)
    requires
        placed(s, p, dir_keyword(d)),
    ensures
        direction_at(s, p) == Some((d, p + 2)),
{
    reveal_strlit("lr");
    reveal_strlit("rl");
    reveal_strlit("td");
    reveal_strlit("bt");
    let w = dir_keyword(d);
    lemma_lit_here(s, p, w);
    lemma_placed_char(s, p, w, 0);
    match d {
        Direction::LR => {},
        Direction::RL => {
            lemma_lit_not(s, p, "lr"@, 0);
        },
        Direction::TD => {
            lemma_lit_not(s, p, "lr"@, 0);
            lemma_lit_not(s, p, "rl"@, 0);
        },
        Direction::BT => {
            lemma_lit_not(s, p, "lr"@, 0);
            lemma_lit_not(s, p, "rl"@, 0);
            lemma_lit_not(s, p, "td"@, 0);
        },
    }
}

/// A node as the parser gives it back: without a label, a box.
pub open spec fn reparsed_node(n: SpecNode) -> SpecNode {
    reparsed_stmt(SpecStmt::Node(n))->Node_0
}

/// A printed node declaration reads back as the node, followed by the trivia after it.
#[verifier::spinoff_prover]
#[verifier::rlimit(40)]
proof fn lemma_node_at(s: Seq<char>, pos: int, n: SpecNode)
    requires
        mml_ident(n.id),
        placed(s, pos, print_node_spec(n, true)),
    ensures
        node_at(s, pos) == Some((reparsed_node(n), trivia_end(s, pos + print_node_spec(n, true).len()))),
        edge_at(s, pos) is Fail,
        stmt_at(s, pos) == Attempt::Done(
            seq![reparsed_stmt(SpecStmt::Node(n))],
            trivia_end(s, pos + print_node_spec(n, true).len()),
        ),
{
    reveal_strlit("(");
    reveal_strlit(")");
    reveal_strlit(" \"");
    reveal_strlit("\"");
    let id = n.id;
    let t = print_node_spec(n, true);
    crate::mml::readback::lemma_ident_solid(id);
    lemma_placed_char(s, pos, t, 0);
    assert(t[0] == '(');
    lemma_placed_char(s, pos, t, 1);
    assert(t[1] == id[0]);
    lemma_trivia_stop(s, pos + 1);
    lemma_no_arrow_at(s, pos + 1);
    let p2 = pos + 1 + id.len();
    match n.label {
        None => {
            assert(t =~= seq!['('] + id + seq![')']);
            lemma_placed_split(s, pos, seq!['('] + id, seq![')']);
            lemma_placed_split(s, pos, seq!['('], id);
            lemma_placed_char(s, p2, seq![')'], 0);
            lemma_ident_at(s, pos + 1, id);
            lemma_trivia_stop(s, p2);
            lemma_no_shape_at(s, p2);
        },
        Some(l) => {
            let e = escape_label(l, true);
            let suf = shape_suffix(n.shape);
            lemma_shape_words(n.shape);
            let w = shape_keyword(n.shape);
            assert(t =~= seq!['('] + id + seq![' ', '"'] + e + seq!['"'] + suf + seq![')']);
            let a1 = seq!['('] + id;
            let a2 = a1 + seq![' ', '"'];
            let a3 = a2 + e;
            let a4 = a3 + seq!['"'];
            let a5 = a4 + suf;
            lemma_placed_split(s, pos, a5, seq![')']);
            lemma_placed_split(s, pos, a4, suf);
            lemma_placed_split(s, pos, a3, seq!['"']);
            lemma_placed_split(s, pos, a2, e);
            lemma_placed_split(s, pos, a1, seq![' ', '"']);
            lemma_placed_split(s, pos, seq!['('], id);
            lemma_placed_char(s, p2, seq![' ', '"'], 0);
            lemma_placed_char(s, p2, seq![' ', '"'], 1);
            lemma_ident_at(s, pos + 1, id);
            lemma_trivia_skip(s, p2);
            lemma_trivia_stop(s, p2 + 1);
            lemma_placed_char(s, pos + a3.len(), seq!['"'], 0);
            lemma_string_at(s, p2 + 1, l);
            let p4 = pos + a4.len();
            let pc = pos + a5.len();
            lemma_placed_char(s, pc, seq![')'], 0);
            if n.shape == Shape::Box {
                lemma_trivia_stop(s, p4);
                lemma_no_shape_at(s, p4);
            } else {
                lemma_placed_split(s, p4, seq![' '], w);
                lemma_placed_char(s, p4, seq![' '], 0);
                lemma_trivia_skip(s, p4);
                lemma_placed_char(s, p4 + 1, w, 0);
                lemma_trivia_stop(s, p4 + 1);
                lemma_shape_at(s, p4 + 1, n.shape);
                lemma_trivia_stop(s, pc);
            }
            lemma_trivia_stop(s, pc);
        },
    }
}

/// Names joined by spaces, then trivia, read as edge endpoints up to what follows them.
#[verifier::spinoff_prover]
proof fn lemma_endpoints(s: Seq<char>, pos: int, c: Seq<Seq<char>>, acc: Seq<Seq<char>>, nodes: Seq<SpecStmt>)
    requires
        c.len() >= 1,
        forall|i: int| 0 <= i < c.len() ==> mml_ident(#[trigger] c[i]),
        placed(s, pos, join(c, " "@)),
        pos + join(c, " "@).len() < s.len(),
        s[pos + join(c, " "@).len()] == ' ' || s[pos + join(c, " "@).len()] == ')',
        trivia_end(s, pos + join(c, " "@).len()) < s.len(),
        s[trivia_end(s, pos + join(c, " "@).len())] == '"' || s[trivia_end(s, pos + join(c, " "@).len())] == ')',
    ensures
        endpoints_at(s, pos, acc, nodes) == (acc + c, nodes, trivia_end(s, pos + join(c, " "@).len())),
    decreases c.len(),
{
    reveal_strlit(" ");
    let x = c[0];
    let j = join(c, " "@);
    let t = trivia_end(s, pos + j.len());
    assert(mml_ident(x));
    crate::mml::readback::lemma_ident_solid(x);
    if c.len() == 1 {
        assert(j == x);
        lemma_placed_char(s, pos, x, 0);
        lemma_ident_at(s, pos, x);
        lemma_trivia_bound(s, pos + j.len());
        assert(node_at(s, pos) is None);
        assert(node_at(s, t) is None);
        assert(ident_at(s, t) is None);
        assert(endpoints_at(s, t, acc.push(x), nodes) == (acc.push(x), nodes, t));
        assert(acc + c =~= acc.push(x));
    } else {
        let r = c.skip(1);
        lemma_join_front(c, " "@);
        let jr = join(r, " "@);
        assert(j == x + " "@ + jr);
        lemma_placed_split(s, pos, x + " "@, jr);
        lemma_placed_split(s, pos, x, " "@);
        lemma_placed_char(s, pos, x, 0);
        lemma_placed_char(s, pos + x.len(), " "@, 0);
        lemma_ident_at(s, pos, x);
        let q = pos + x.len() + 1;
        assert(mml_ident(r[0]));
        crate::mml::readback::lemma_ident_solid(r[0]);
        assert(r.len() >= 2 ==> jr == r[0] + " "@ + join(r.skip(1), " "@)) by {
            if r.len() >= 2 {
                lemma_join_front(r, " "@);
            }
        }
        assert(jr[0] == r[0][0]);
        lemma_placed_char(s, q, jr, 0);
        lemma_trivia_skip(s, pos + x.len());
        lemma_trivia_stop(s, q);
        assert forall|i: int| 0 <= i < r.len() implies mml_ident(#[trigger] r[i]) by {
            assert(r[i] == c[i + 1]);
        }
        assert(q + jr.len() == pos + j.len());
        assert(node_at(s, pos) is None);
        assert(trivia_end(s, pos + x.len()) == q);
        lemma_endpoints(s, q, r, acc.push(x), nodes);
        assert(endpoints_at(s, pos, acc, nodes) == endpoints_at(s, q, acc.push(x), nodes));
        assert(acc.push(x) + r =~= acc + c);
    }
}

/// A printed edge statement reads back as the edge, followed by the trivia after it.
#[verifier::spinoff_prover]
#[verifier::rlimit(40)]
proof fn lemma_edge_at(s: Seq<char>, pos: int, e: SpecEdge)
    requires
        e.chain.len() >= 2,
        forall|i: int| 0 <= i < e.chain.len() ==> mml_ident(#[trigger] e.chain[i]),
        placed(s, pos, print_edge_spec(e, true)),
    ensures
        stmt_at(s, pos) == Attempt::Done(
            seq![reparsed_stmt(SpecStmt::Edge(e))],
            trivia_end(s, pos + print_edge_spec(e, true).len()),
        ),
{
    reveal_strlit("(");
    reveal_strlit(")");
    reveal_strlit(" ");
    reveal_strlit(" \"");
    reveal_strlit("\")");
    let w = arrow_keyword(e.arrow);
    let c = e.chain;
    let j = join(c, " "@);
    let t = print_edge_spec(e, true);
    let a1 = seq!['('] + w;
    let a2 = a1 + seq![' '];
    let a3 = a2 + j;
    let pj = pos + a2.len();
    let pe = pos + a3.len();
    lemma_placed_char(s, pos, t, 0);
    assert(t[0] == '(');
    assert(t =~= a3 + t.skip(a3.len() as int));
    lemma_placed_split(s, pos, a3, t.skip(a3.len() as int));
    lemma_placed_split(s, pos, a2, j);
    lemma_placed_split(s, pos, a1, seq![' ']);
    lemma_placed_split(s, pos, seq!['('], w);
    reveal_strlit("->");
    reveal_strlit("-->");
    reveal_strlit("=>");
    reveal_strlit("-o");
    reveal_strlit("-x");
    assert(w.len() >= 2 && (w[0] == '-' || w[0] == '='));
    lemma_placed_char(s, pos + 1, w, 0);
    lemma_trivia_stop(s, pos + 1);
    lemma_arrow_at(s, pos + 1, e.arrow);
    lemma_placed_char(s, pos + a1.len(), seq![' '], 0);
    lemma_trivia_skip(s, pos + a1.len());
    assert(mml_ident(c[0]));
    crate::mml::readback::lemma_ident_solid(c[0]);
    lemma_join_front(c, " "@);
    assert(j[0] == c[0][0]);
    lemma_placed_char(s, pj, j, 0);
    lemma_trivia_stop(s, pj);
    assert(trivia_end(s, pos + 1 + w.len()) == pj);
    let rest = t.skip(a3.len() as int);
    match e.label {
        None => {
            assert(rest =~= seq![')']);
            lemma_placed_char(s, pe, rest, 0);
            lemma_trivia_stop(s, pe);
            lemma_endpoints(s, pj, c, seq![], seq![]);
            assert(seq![] + c =~= c);
            assert(string_at(s, pe) is None);
            assert(t.len() == pe + 1 - pos);
        },
        Some(l) => {
            let x = escape_label(l, true);
            assert(rest =~= seq![' ', '"'] + x + seq!['"', ')']);
            lemma_placed_split(s, pe, seq![' ', '"'] + x, seq!['"', ')']);
            lemma_placed_split(s, pe, seq![' ', '"'], x);
            lemma_placed_char(s, pe, seq![' ', '"'], 0);
            lemma_placed_char(s, pe, seq![' ', '"'], 1);
            let pc = pe + 2 + x.len();
            lemma_placed_char(s, pc, seq!['"', ')'], 0);
            lemma_placed_char(s, pc, seq!['"', ')'], 1);
            lemma_trivia_skip(s, pe);
            lemma_trivia_stop(s, pe + 1);
            lemma_endpoints(s, pj, c, seq![], seq![]);
            assert(seq![] + c =~= c);
            lemma_string_at(s, pe + 1, l);
            lemma_trivia_stop(s, pc + 1);
            assert(t.len() == pc + 2 - pos);
        },
    }
    assert(Seq::<SpecStmt>::empty().push(SpecStmt::Edge(e)) =~= seq![reparsed_stmt(SpecStmt::Edge(e))]);
}

proof fn lemma_print_stmts_append(a: Seq<SpecStmt>, b: Seq<SpecStmt>, controls: bool)
    ensures
        print_stmts_spec(a + b, controls) == print_stmts_spec(a, controls) + print_stmts_spec(b, controls),
    decreases b.len(),
{
    if b.len() == 0 {
        assert(a + b =~= a);
        assert(print_stmts_spec(b, controls) =~= Seq::<char>::empty());
        assert(print_stmts_spec(a, controls) + print_stmts_spec(b, controls) =~= print_stmts_spec(a, controls));
    } else {
        assert((a + b).drop_last() =~= a + b.drop_last());
        lemma_print_stmts_append(a, b.drop_last(), controls);
        assert((a + b).last() == b.last());
    }
}

/// Printed statements, up to the graph's closing parenthesis, read back as the statements.
#[verifier::spinoff_prover]
#[verifier::rlimit(30)]
proof fn lemma_stmts_at(s: Seq<char>, pos: int, ss: Seq<SpecStmt>, acc: Seq<SpecStmt>)
    requires
        forall|i: int| 0 <= i < ss.len() ==> crate::gph_readback::ids_ok(#[trigger] ss[i]),
        placed(s, pos, print_stmts_spec(ss, true)),
        pos + print_stmts_spec(ss, true).len() < s.len(),
        s[pos + print_stmts_spec(ss, true).len()] == ')',
    ensures
        stmts_at(s, trivia_end(s, pos), acc) == Ok::<_, int>(
            (acc + ss.map_values(|x: SpecStmt| reparsed_stmt(x)), pos + print_stmts_spec(ss, true).len()),
        ),
    decreases ss.len(),
{
    reveal_strlit("\n  ");
    let body = print_stmts_spec(ss, true);
    if ss.len() == 0 {
        lemma_trivia_stop(s, pos);
        assert(stmt_at(s, pos) is Fail);
        assert(acc + ss.map_values(|x: SpecStmt| reparsed_stmt(x)) =~= acc);
    } else {
        let x = ss[0];
        let r = ss.skip(1);
        assert(ss =~= seq![x] + r);
        lemma_print_stmts_append(seq![x], r, true);
        assert(seq![x].drop_last() =~= Seq::<SpecStmt>::empty());
        let t = print_stmt_spec(x, true);
        assert(print_stmts_spec(Seq::<SpecStmt>::empty(), true) =~= Seq::<char>::empty());
        assert(seq![x].last() == x);
        assert(print_stmts_spec(seq![x], true) =~= "\n  "@ + t);
        let br = print_stmts_spec(r, true);
        assert(body == "\n  "@ + t + br);
        lemma_placed_split(s, pos, "\n  "@ + t, br);
        lemma_placed_split(s, pos, "\n  "@, t);
        lemma_placed_char(s, pos, "\n  "@, 0);
        lemma_placed_char(s, pos, "\n  "@, 1);
        lemma_placed_char(s, pos, "\n  "@, 2);
        lemma_trivia_skip(s, pos);
        lemma_trivia_skip(s, pos + 1);
        lemma_trivia_skip(s, pos + 2);
        assert(t[0] == '(') by {
            reveal_strlit("(");
        }
        lemma_placed_char(s, pos + 3, t, 0);
        lemma_trivia_stop(s, pos + 3);
        assert(crate::gph_readback::ids_ok(ss[0]));
        match x {
            SpecStmt::Node(n) => lemma_node_at(s, pos + 3, n),
            SpecStmt::Edge(e) => lemma_edge_at(s, pos + 3, e),
        }
        let pr = pos + 3 + t.len();
        lemma_trivia_bound(s, pr);
        assert forall|i: int| 0 <= i < r.len() implies crate::gph_readback::ids_ok(#[trigger] r[i]) by {
            assert(r[i] == ss[i + 1]);
        }
        let acc2 = acc + seq![reparsed_stmt(x)];
        lemma_stmts_at(s, pr, r, acc2);
        assert(stmts_at(s, pos + 3, acc) == stmts_at(s, trivia_end(s, pr), acc2));
        assert(acc2 + r.map_values(|y: SpecStmt| reparsed_stmt(y)) =~= acc + ss.map_values(|y: SpecStmt| reparsed_stmt(y)));
    }
}

/// The header `(graph <dir>` of a printed graph reads as its direction.
#[verifier::spinoff_prover]
#[verifier::rlimit(30)]
proof fn lemma_header_at(s: Seq<char>, d: Direction)
    requires
        placed(s, 0, "(graph "@ + dir_keyword(d)),
    ensures
        trivia_end(s, 0) == 0,
        0 < s.len() && s[0] == '(',
        trivia_end(s, 1) == 1,
        ident_at(s, 1) == Some(("graph"@, 6int)),
        trivia_end(s, 6) == 7,
        direction_at(s, 7) == Some((d, 9int)),
{
    reveal_strlit("(graph ");
    reveal_strlit("graph");
    reveal_strlit("lr");
    reveal_strlit("rl");
    reveal_strlit("td");
    reveal_strlit("bt");
    let w = dir_keyword(d);
    assert("(graph "@ =~= seq!['('] + "graph"@ + seq![' ']);
    lemma_placed_split(s, 0, "(graph "@, w);
    lemma_placed_split(s, 0, seq!['('] + "graph"@, seq![' ']);
    lemma_placed_split(s, 0, seq!['('], "graph"@);
    lemma_placed_char(s, 0, seq!['('], 0);
    lemma_trivia_stop(s, 0);
    lemma_placed_char(s, 1, "graph"@, 0);
    lemma_trivia_stop(s, 1);
    assert(mml_ident("graph"@)) by {
        assert forall|i: int| 1 <= i < 5 implies is_mml_ident_continue(#[trigger] "graph"@[i]) by {}
    }
    lemma_placed_char(s, 6, seq![' '], 0);
    lemma_ident_at(s, 1, "graph"@);
    lemma_trivia_skip(s, 6);
    lemma_placed_char(s, 7, w, 0);
    lemma_trivia_stop(s, 7);
    lemma_direction_at(s, 7, d);
}

proof fn lemma_graph_from_parts(s: Seq<char>, d: Direction, stmts: Seq<SpecStmt>, pend: int)
    requires
        trivia_end(s, 0) == 0,
        0 < s.len() && s[0] == '(',
        trivia_end(s, 1) == 1,
        ident_at(s, 1) == Some(("graph"@, 6int)),
        trivia_end(s, 6) == 7,
        direction_at(s, 7) == Some((d, 9int)),
        stmts_at(s, trivia_end(s, 9), seq![]) == Ok::<_, int>((stmts, pend)),
        0 <= pend < s.len(),
        s[pend] == ')',
        pend + 1 == s.len(),
    ensures
        mml_graph(s) == Ok::<SpecGraph, int>(SpecGraph { direction: d, stmts }),
{
    lemma_trivia_stop(s, pend + 1);
}

/// The canonical MML text of a graph whose statements name nodes by
/// identifiers, each edge two of them or more, parses back to that graph, with
/// the shape of a node without a label read as the default box.
#[verifier::spinoff_prover]
pub proof fn law_printed_mml_reparses(g: SpecGraph)
    requires
        forall|i: int| 0 <= i < g.stmts.len() ==> crate::gph_readback::ids_ok(#[trigger] g.stmts[i]),
    ensures
        mml_graph(print_spec(g, true)) == Ok::<SpecGraph, int>(reparsed(g)),
{
    reveal_strlit(")");
    reveal_strlit("(graph ");
    reveal_strlit("graph");
    let s = print_spec(g, true);
    let d = dir_keyword(g.direction);
    let body = print_stmts_spec(g.stmts, true);
    let a1 = "(graph "@ + d;
    assert(a1.len() == 9) by {
        reveal_strlit("lr");
        reveal_strlit("rl");
        reveal_strlit("td");
        reveal_strlit("bt");
    }
    assert(s == a1 + body + ")"@);
    assert(placed(s, 0, s));
    lemma_placed_split(s, 0, a1 + body, ")"@);
    lemma_placed_split(s, 0, a1, body);
    let pend = (a1.len() + body.len()) as int;
    lemma_placed_char(s, pend, ")"@, 0);
    lemma_header_at(s, g.direction);
    lemma_stmts_at(s, 9, g.stmts, seq![]);
    let rs = g.stmts.map_values(|x: SpecStmt| reparsed_stmt(x));
    assert(seq![] + rs =~= rs);
    lemma_graph_from_parts(s, g.direction, rs, pend);
}

/// `to_mermaid`, `from_mermaid`, `to_mermaid` ends where the first `to_mermaid`
/// did: the MML that `from_mermaid` writes for Mermaid from MML converts back to
/// the same Mermaid text, for all MML.
#[verifier::spinoff_prover]
pub proof fn law_mml_round_trip(source: Seq<char>)
    requires
        mml_graph(source) is Ok,
    ensures
        to_mermaid_spec(source) matches Ok(m) && (from_mermaid_spec(m) matches Ok(t) && to_mermaid_spec(t)
            == Ok::<Seq<char>, Seq<char>>(m)),
{
    crate::mml::readback::law_mermaid_of_mml_reads_back(source);
    let m = to_mermaid_spec(source)->Ok_0;
    let g3 = crate::mml::mml_mermaid_read(m)->Ok_0;
    law_printed_mml_reparses(g3);
    crate::mml::breaks::lemma_breaks_reparsed(g3, true);
    crate::reparse::lemma_reparsed_mermaid(crate::mml::breaks::graph_breaks(g3, true));
}

} // verus!
