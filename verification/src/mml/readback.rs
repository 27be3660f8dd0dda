//! The strict Mermaid reader accepts every Mermaid flowchart that `to_mermaid`
//! writes for an MML graph, and reads it as a graph with the same Mermaid text.
use vstd::prelude::*;
use crate::ast::{Arrow, Direction, Shape, SpecEdge, SpecGraph, SpecNode, SpecStmt};
use crate::codegen::{
    arrow_text, direction_name, edge_lines, escape_edge_label, escape_node_label, header_line,
    labeled_hop, lemma_stmts_lines_push, link, mermaid_lines, mermaid_text, node_lines, shape_close,
    shape_open, shaped_label, stmt_lines, stmts_lines,
};
use crate::mermaid_parser::{
    bar_end, can_extend, edge_stmt, first_nonblank, flushed, has_at, hop_chain, initial_state, link_at,
    unescape_edge_label, unescape_node_label, ws_end, DState, SpecHop,
};
use crate::mml::from_mermaid::{
    delimited_at, mml_mermaid_graph, node_shape_at, only_last_labelled, quote_end, quoted_at, same_arrow,
    strict_arrow_at, strict_edge_line, strict_fold, strict_header, strict_node_line, strict_step, tail_hops,
};
use crate::mml::parser::{
    arrow_at, direction_at, edge_at, endpoints_at, ident_at, ident_tail, is_mml_ident_continue,
    is_mml_ident_start, mml_graph, node_at, stmt_at, stmts_at, trivia_end, Attempt,
};
use crate::readback::{
    join_off, lemma_arrow_text_shape, lemma_bar_end, lemma_edge_label_clean, lemma_edge_label_round_trip,
    lemma_join_ends, lemma_join_first, lemma_join_segment, lemma_link_at, lemma_link_at_end,
    lemma_lines_of_join, lemma_node_label_round_trip, lemma_node_label_unquoted, lemma_trim_indented,
    lemma_trim_solid, lemma_ws_end_none, lemma_ws_end_one, plain_line,
};
use crate::text::{is_white_space, join, lines, starts_with, trim};
use crate::mml::{from_mermaid_spec, mml_mermaid_read, to_mermaid_spec};
use crate::mml::breaks::{graph_breaks, lemma_breaks_back, lemma_breaks_ids, lemma_escaped_one_line, lemma_read_labels_one_line};

use crate::gph_readback::{ids_ok, lemma_flushed_ids, lemma_ids_push, state_ids_ok};

verus! {

/// An MML identifier: a letter or `_`, then letters, digits, `_` and `-`.
pub open spec fn mml_ident(id: Seq<char>) -> bool {
    &&& id.len() > 0
    &&& is_mml_ident_start(id[0])
    &&& forall|i: int| 1 <= i < id.len() ==> is_mml_ident_continue(#[trigger] id[i])
}

#[verifier::spinoff_prover]
pub proof fn lemma_ident_tail(l: Seq<char>, q: int, e: int)
    requires
        0 <= q <= e <= l.len(),
        forall|i: int| q <= i < e ==> is_mml_ident_continue(#[trigger] l[i]),
        e == l.len() || !is_mml_ident_continue(l[e]),
    ensures
        ident_tail(l, q) == e,
    decreases e - q,
{
    if q < e {
        lemma_ident_tail(l, q + 1, e);
    }
}

/// An identifier written at `p` and not followed by an identifier character reads back.
#[verifier::spinoff_prover]
pub proof fn lemma_ident_at(l: Seq<char>, p: int, id: Seq<char>)
    requires
        0 <= p,
        p + id.len() <= l.len(),
        forall|i: int| 0 <= i < id.len() ==> l[p + i] == id[i],
        mml_ident(id),
        p + id.len() == l.len() || !is_mml_ident_continue(l[p + id.len()]),
    ensures
        ident_at(l, p) == Some((id, p + id.len())),
{
    assert forall|i: int| p + 1 <= i < p + id.len() implies is_mml_ident_continue(#[trigger] l[i]) by {
        assert(l[p + (i - p)] == id[i - p]);
    }
    lemma_ident_tail(l, p + 1, p + id.len());
    assert(l.subrange(p, p + id.len()) =~= id);
}

#[verifier::spinoff_prover]
pub proof fn lemma_ident_solid(id: Seq<char>)
    requires
        mml_ident(id),
    ensures
        !is_white_space(id[0]),
        !is_white_space(id.last()),
        forall|i: int| 0 <= i < id.len() ==> (#[trigger] id[i]) != '\n' && id[i] != '\r' && id[i] != ' '
            && id[i] != '\t' && id[i] != '|' && id[i] != '"',
        !id.contains('\n'),
{
    assert forall|i: int| 0 <= i < id.len() implies (#[trigger] id[i]) != '\n' && id[i] != '\r' && id[i] != ' '
        && id[i] != '\t' && id[i] != '|' && id[i] != '"' by {
        if i > 0 {
            assert(is_mml_ident_continue(id[i]));
        }
    }
    if id.len() > 1 {
        assert(is_mml_ident_continue(id[id.len() - 1]));
    }
}

/// The first `"` at or after `p` is the one after a run without `"`.
#[verifier::spinoff_prover]
pub proof fn lemma_quote_end(l: Seq<char>, p: int, e: Seq<char>)
    requires
        0 <= p,
        p + e.len() < l.len(),
        forall|i: int| 0 <= i < e.len() ==> l[p + i] == e[i],
        !e.contains('"'),
        l[p + e.len()] == '"',
    ensures
        quote_end(l, p) == p + e.len(),
    decreases e.len(),
{
    if e.len() > 0 {
        assert(l[p] != '"') by {
            assert(e.contains(e[0]));
        }
        assert(!e.skip(1).contains('"')) by {
            if e.skip(1).contains('"') {
                let i = choose|i: int| 0 <= i < e.skip(1).len() && e.skip(1)[i] == '"';
                assert(e[i + 1] == '"');
            }
        }
        assert forall|i: int| 0 <= i < e.skip(1).len() implies l[p + 1 + i] == e.skip(1)[i] by {
            assert(l[p + (i + 1)] == e[i + 1]);
        }
        lemma_quote_end(l, p + 1, e.skip(1));
    }
}

/// A statement the reader can take back: identifiers, at least two nodes per
/// chain, and labels without line breaks.
pub open spec fn readable_stmt(s: SpecStmt) -> bool {
    match s {
        SpecStmt::Node(n) => mml_ident(n.id) && (n.label matches Some(l) ==> !l.contains('\n')),
        SpecStmt::Edge(e) => e.chain.len() >= 2 && (forall|i: int| 0 <= i < e.chain.len() ==> mml_ident(#[trigger] e.chain[i]))
            && (e.label matches Some(l) ==> !l.contains('\n')),
    }
}

pub open spec fn readable_graph(g: SpecGraph) -> bool {
    forall|i: int| 0 <= i < g.stmts.len() ==> readable_stmt(#[trigger] g.stmts[i])
}

/// The node text `open` and `close` delimit in the reader's terms (`"` excluded).
pub open spec fn reader_open(shape: Shape) -> Seq<char> {
    match shape {
        Shape::Box => "["@,
        Shape::Round => "("@,
        Shape::Diamond => "{"@,
        Shape::Stadium => "(["@,
        Shape::Hex => "{{"@,
        Shape::Sub => "[["@,
    }
}

pub open spec fn reader_close(shape: Shape) -> Seq<char> {
    match shape {
        Shape::Box => "]"@,
        Shape::Round => ")"@,
        Shape::Diamond => "}"@,
        Shape::Stadium => "])"@,
        Shape::Hex => "}}"@,
        Shape::Sub => "]]"@,
    }
}

#[verifier::spinoff_prover]
pub proof fn lemma_shape_literals(shape: Shape)
    ensures
        shape_open(shape) == reader_open(shape) + seq!['"'],
        shape_close(shape) == seq!['"'] + reader_close(shape),
        1 <= reader_open(shape).len() <= 2,
        reader_open(shape).len() == reader_close(shape).len(),
        reader_open(shape)[0] == '[' || reader_open(shape)[0] == '(' || reader_open(shape)[0] == '{',
        reader_close(shape).last() == ']' || reader_close(shape).last() == ')' || reader_close(shape).last() == '}',
        forall|i: int| 0 <= i < reader_close(shape).len() ==> (#[trigger] reader_close(shape)[i]) != '\n',
        forall|i: int| 0 <= i < reader_open(shape).len() ==> (#[trigger] reader_open(shape)[i]) != '\n',
        "[["@ == seq!['[', '['],
        "(["@ == seq!['(', '['],
        "{{"@ == seq!['{', '{'],
        "["@ == seq!['['],
        "("@ == seq!['('],
        "{"@ == seq!['{'],
        "]]"@ == seq![']', ']'],
        "])"@ == seq![']', ')'],
        "}}"@ == seq!['}', '}'],
        "]"@ == seq![']'],
        ")"@ == seq![')'],
        "}"@ == seq!['}'],
{
    reveal_strlit("[\"");
    reveal_strlit("(\"");
    reveal_strlit("{\"");
    reveal_strlit("([\"");
    reveal_strlit("{{\"");
    reveal_strlit("[[\"");
    reveal_strlit("\"]");
    reveal_strlit("\")");
    reveal_strlit("\"}");
    reveal_strlit("\"])");
    reveal_strlit("\"}}");
    reveal_strlit("\"]]");
    reveal_strlit("[[");
    reveal_strlit("([");
    reveal_strlit("{{");
    reveal_strlit("[");
    reveal_strlit("(");
    reveal_strlit("{");
    reveal_strlit("]]");
    reveal_strlit("])");
    reveal_strlit("}}");
    reveal_strlit("]");
    reveal_strlit(")");
    reveal_strlit("}");
    assert(shape_open(shape) =~= reader_open(shape) + seq!['"']);
    assert(shape_close(shape) =~= seq!['"'] + reader_close(shape));
}

/// A quoted label between delimiters at `p` reads back.
#[verifier::spinoff_prover]
proof fn lemma_delimited(x: Seq<char>, p: int, o: Seq<char>, c: Seq<char>, e: Seq<char>)
    requires
        0 <= p,
        x.len() == p + o.len() + e.len() + 2 + c.len(),
        forall|i: int| 0 <= i < o.len() ==> x[p + i] == o[i],
        x[p + o.len()] == '"',
        forall|i: int| 0 <= i < e.len() ==> x[p + o.len() + 1 + i] == e[i],
        x[p + o.len() + 1 + e.len()] == '"',
        forall|i: int| 0 <= i < c.len() ==> x[p + o.len() + e.len() + 2 + i] == c[i],
        !e.contains('"'),
    ensures
        delimited_at(x, p, o, c) == Some((unescape_node_label(e), x.len() as int)),
{
    let qs = p + o.len();
    let ls = qs + 1;
    let le = ls + e.len();
    lemma_quote_end(x, ls, e);
    assert(x.subrange(ls, le) =~= e);
    assert(quoted_at(x, qs) == Some((unescape_node_label(e), le + 1)));
    assert(x.subrange(p, p + o.len()) =~= o);
    assert(x.subrange(le + 1, le + 1 + c.len()) =~= c);
}

/// The first delimiter form that matches a generated node is its own.
#[verifier::spinoff_prover]
proof fn lemma_shape_choice(x: Seq<char>, p: int, shape: Shape, r: (Seq<char>, int))
    requires
        0 <= p,
        p + 2 <= x.len(),
        x[p] == reader_open(shape)[0],
        x[p + 1] == if reader_open(shape).len() == 2 {
            reader_open(shape)[1]
        } else {
            '"'
        },
        delimited_at(x, p, reader_open(shape), reader_close(shape)) == Some(r),
    ensures
        node_shape_at(x, p) == Some((shape, r.0, r.1)),
{
    lemma_shape_literals(shape);
    assert(x.subrange(p, p + 2)[0] == x[p]);
    assert(x.subrange(p, p + 2)[1] == x[p + 1]);
    assert(x.subrange(p, p + 1)[0] == x[p]);
    match shape {
        Shape::Sub => {},
        Shape::Stadium => {
            assert(!has_at(x, p, "[["@));
        },
        Shape::Hex => {
            assert(!has_at(x, p, "[["@));
            assert(!has_at(x, p, "(["@));
        },
        Shape::Box => {
            assert(!has_at(x, p, "[["@));
            assert(!has_at(x, p, "(["@));
            assert(!has_at(x, p, "{{"@));
        },
        Shape::Round => {
            assert(!has_at(x, p, "[["@));
            assert(!has_at(x, p, "(["@));
            assert(!has_at(x, p, "{{"@));
            assert(!has_at(x, p, "["@));
        },
        Shape::Diamond => {
            assert(!has_at(x, p, "[["@));
            assert(!has_at(x, p, "(["@));
            assert(!has_at(x, p, "{{"@));
            assert(!has_at(x, p, "["@));
            assert(!has_at(x, p, "("@));
        },
    }
}

/// The reader takes a generated node line back as the node, with a label that escapes the same.
#[verifier::spinoff_prover]
pub proof fn lemma_node_line(id: Seq<char>, l: Seq<char>, shape: Shape)
    requires
        mml_ident(id),
        !l.contains('\n'),
    ensures
        strict_node_line(shaped_label(id, l, shape)) matches Some(n) && (n.id == id && n.shape == shape
            && (n.label matches Some(l2) && escape_node_label(l2) == escape_node_label(l))),
        plain_line(shaped_label(id, l, shape)),
        !is_white_space(shaped_label(id, l, shape)[0]),
        !is_white_space(shaped_label(id, l, shape).last()),
{
    lemma_shape_literals(shape);
    lemma_ident_solid(id);
    lemma_node_label_unquoted(l);
    let e = escape_node_label(l);
    let o = reader_open(shape);
    let c = reader_close(shape);
    let x = shaped_label(id, l, shape);
    let p = id.len() as int;
    assert(x =~= id + o + seq!['"'] + e + seq!['"'] + c);
    assert(forall|i: int| 0 <= i < id.len() ==> x[i] == id[i]);
    assert(x[p] == o[0]);
    lemma_ident_at(x, 0, id);
    lemma_delimited(x, p, o, c, e);
    lemma_shape_choice(x, p, shape, (unescape_node_label(e), x.len() as int));
    lemma_ws_end_none(x, x.len() as int);
    lemma_node_label_round_trip(e);
    let qs = p + o.len();
    let ls = qs + 1;
    let le = ls + e.len();
    assert(!x.contains('\n')) by {
        if x.contains('\n') {
            let i = choose|i: int| 0 <= i < x.len() && x[i] == '\n';
            if i < p {
                assert(id[i] == '\n');
            } else if i < qs {
                assert(o[i - p] == '\n');
            } else if ls <= i < le {
                assert(e[i - ls] == '\n');
                assert(e.contains('\n'));
            } else if le + 1 <= i {
                assert(c[i - le - 1] == '\n');
            }
        }
    }
    assert(x.last() == c.last());
}


/// No node form starts at `p` when the character there opens none.
#[verifier::spinoff_prover]
pub proof fn lemma_no_shape(x: Seq<char>, p: int)
    requires
        0 <= p <= x.len(),
        p == x.len() || (x[p] != '[' && x[p] != '(' && x[p] != '{'),
    ensures
        node_shape_at(x, p) is None,
{
    lemma_shape_literals(Shape::Box);
    if p + 1 <= x.len() {
        assert(x.subrange(p, p + 1)[0] == x[p]);
    }
    if p + 2 <= x.len() {
        assert(x.subrange(p, p + 2)[0] == x[p]);
    }
}

/// The hops a chain of nodes stands for.
pub open spec fn chain_hops(c: Seq<Seq<char>>, a: Arrow) -> Seq<SpecHop> {
    Seq::new((c.len() - 1) as nat, |i: int| SpecHop { from: c[i], arrow: a, to: c[i + 1], label: None })
}

#[verifier::spinoff_prover]
pub proof fn lemma_chain_hops(c: Seq<Seq<char>>, a: Arrow)
    requires
        c.len() >= 2,
    ensures
        hop_chain(chain_hops(c, a)) == c,
        same_arrow(chain_hops(c, a), a),
        only_last_labelled(chain_hops(c, a)),
        chain_hops(c, a).last().label is None,
        chain_hops(c, a).len() == c.len() - 1,
        !(chain_hops(c, a).len() == 1 && chain_hops(c, a)[0].label is Some),
{
    let h = chain_hops(c, a);
    assert(hop_chain(h) =~= c) by {
        assert forall|i: int| 0 <= i < c.len() implies hop_chain(h)[i] == c[i] by {
            if i > 0 {
                assert(h.map_values(|x: SpecHop| x.to)[i - 1] == h[i - 1].to);
            }
        }
    }
}

/// One hop of a generated chain line, starting where its first `k` names end.
#[verifier::spinoff_prover]
#[verifier::rlimit(50)]
pub proof fn lemma_chain_hop_at(c: Seq<Seq<char>>, a: Arrow, k: int)
    requires
        1 <= k < c.len(),
        forall|i: int| 0 <= i < c.len() ==> mml_ident(#[trigger] c[i]),
    ensures
        ws_end(join(c, link(a)), join_off(c, link(a), k)) == join_off(c, link(a), k) + 1,
        strict_arrow_at(join(c, link(a)), join_off(c, link(a), k) + 1) == Some(
            (a, None::<Seq<char>>, join_off(c, link(a), k) + 1 + arrow_text(a).len()),
        ),
        ws_end(join(c, link(a)), join_off(c, link(a), k) + 1 + arrow_text(a).len()) == join_off(c, link(a), k)
            + link(a).len(),
        ident_at(join(c, link(a)), join_off(c, link(a), k) + link(a).len()) == Some(
            (c[k], join_off(c, link(a), k + 1)),
        ),
{
    reveal_strlit(" ");
    let x = join(c, link(a));
    let sep = link(a);
    let t = arrow_text(a);
    let o = join_off(c, sep, k);
    lemma_arrow_text_shape(a);
    lemma_join_segment(c, sep, k);
    lemma_join_first(c, sep);
    assert(sep =~= seq![' '] + t + seq![' ']);
    assert(sep[0] == ' ');
    assert(x[o] == sep[0]);
    assert(sep[1] == t[0]);
    assert(x[o + 1] == sep[1]);
    lemma_ws_end_one(x, o);
    assert forall|i: int| 0 <= i < t.len() implies x[o + 1 + i] == t[i] by {
        assert(x[o + (1 + i)] == sep[1 + i]);
    }
    lemma_link_at(x, o + 1, a);
    let q = o + 1 + t.len();
    assert(x[q] == sep[1 + t.len() as int]);
    assert(x[q] == ' ');
    lemma_ident_solid(c[k]);
    assert(x[q + 1] == c[k][0]);
    lemma_ws_end_one(x, q);
    let off2 = join_off(c, sep, k + 1);
    if k + 1 < c.len() {
        lemma_join_segment(c, sep, k + 1);
        assert(x[off2] == sep[0]);
    }
    lemma_ident_at(x, o + sep.len(), c[k]);
}

#[verifier::spinoff_prover]
proof fn lemma_chain_tail(c: Seq<Seq<char>>, a: Arrow, k: int)
    requires
        2 <= k <= c.len(),
        forall|i: int| 0 <= i < c.len() ==> mml_ident(#[trigger] c[i]),
    ensures
        tail_hops(join(c, link(a)), join_off(c, link(a), k), c[k - 1], chain_hops(c, a).take(k - 1)) == (
            chain_hops(c, a),
            join(c, link(a)).len() as int,
        ),
    decreases c.len() - k,
{
    let x = join(c, link(a));
    let h = chain_hops(c, a);
    lemma_join_first(c, link(a));
    if k == c.len() {
        lemma_ws_end_none(x, x.len() as int);
        lemma_link_at_end(x);
        assert(h.take(k - 1) =~= h);
    } else {
        lemma_chain_hop_at(c, a, k);
        lemma_join_segment(c, link(a), k);
        assert(h.take(k - 1).push(h[k - 1]) =~= h.take(k));
        lemma_chain_tail(c, a, k + 1);
    }
}

/// The reader takes a generated chain line back as its hops.
#[verifier::spinoff_prover]
pub proof fn lemma_chain_line(c: Seq<Seq<char>>, a: Arrow)
    requires
        c.len() >= 2,
        forall|i: int| 0 <= i < c.len() ==> mml_ident(#[trigger] c[i]),
    ensures
        strict_node_line(join(c, link(a))) is None,
        strict_edge_line(join(c, link(a))) == Some(chain_hops(c, a)),
        plain_line(join(c, link(a))),
        !is_white_space(join(c, link(a))[0]),
        !is_white_space(join(c, link(a)).last()),
{
    lemma_chain_line_reads(c, a);
    lemma_chain_line_plain(c, a);
}

#[verifier::spinoff_prover]
proof fn lemma_chain_line_reads(c: Seq<Seq<char>>, a: Arrow)
    requires
        c.len() >= 2,
        forall|i: int| 0 <= i < c.len() ==> mml_ident(#[trigger] c[i]),
    ensures
        strict_node_line(join(c, link(a))) is None,
        strict_edge_line(join(c, link(a))) == Some(chain_hops(c, a)),
{
    reveal_strlit(" ");
    let x = join(c, link(a));
    let sep = link(a);
    let h = chain_hops(c, a);
    lemma_join_first(c, sep);
    lemma_join_segment(c, sep, 1);
    lemma_ident_solid(c[0]);
    assert(sep =~= seq![' '] + arrow_text(a) + seq![' ']);
    assert(sep[0] == ' ');
    assert(x[join_off(c, sep, 1) + 0] == sep[0]);
    lemma_ident_at(x, 0, c[0]);
    lemma_no_shape(x, c[0].len() as int);
    lemma_chain_hop_at(c, a, 1);
    assert(h.take(1) =~= seq![SpecHop { from: c[0], arrow: a, to: c[1], label: None }]);
    lemma_chain_tail(c, a, 2);
}

#[verifier::spinoff_prover]
proof fn lemma_chain_line_plain(c: Seq<Seq<char>>, a: Arrow)
    requires
        c.len() >= 2,
        forall|i: int| 0 <= i < c.len() ==> mml_ident(#[trigger] c[i]),
    ensures
        plain_line(join(c, link(a))),
        !is_white_space(join(c, link(a))[0]),
        !is_white_space(join(c, link(a)).last()),
{
    reveal_strlit(" ");
    let x = join(c, link(a));
    let sep = link(a);
    assert forall|i: int| 0 <= i < c.len() implies (#[trigger] c[i]).len() > 0 by {
        assert(mml_ident(c[i]));
    }
    lemma_join_ends(c, sep);
    assert(c.last() == c[c.len() - 1]);
    assert(mml_ident(c[c.len() - 1]));
    lemma_ident_solid(c[c.len() - 1]);
    lemma_ident_solid(c[0]);
    lemma_arrow_text_shape(a);
    assert(sep =~= seq![' '] + arrow_text(a) + seq![' ']);
    lemma_join_lacks(c, sep, '\n');
}

#[verifier::spinoff_prover]
pub proof fn lemma_join_lacks(c: Seq<Seq<char>>, sep: Seq<char>, ch: char)
    requires
        forall|i: int| 0 <= i < c.len() ==> mml_ident(#[trigger] c[i]),
        forall|i: int| 0 <= i < sep.len() ==> sep[i] != ch,
        ch == '\n',
    ensures
        !join(c, sep).contains(ch),
    decreases c.len(),
{
    if c.len() == 0 {
    } else if c.len() == 1 {
        lemma_ident_solid(c[0]);
    } else {
        assert forall|i: int| 0 <= i < c.drop_last().len() implies mml_ident(#[trigger] c.drop_last()[i]) by {
            assert(c.drop_last()[i] == c[i]);
        }
        lemma_join_lacks(c.drop_last(), sep, ch);
        assert(mml_ident(c[c.len() - 1]));
        lemma_ident_solid(c[c.len() - 1]);
        let j = join(c, sep);
        let a = join(c.drop_last(), sep);
        assert(j == a + sep + c.last());
        if j.contains(ch) {
            let i = choose|i: int| 0 <= i < j.len() && j[i] == ch;
            if i < a.len() {
                assert(a[i] == ch);
                assert(a.contains(ch));
            } else if i < a.len() + sep.len() {
                assert(sep[i - a.len()] == ch);
            } else {
                assert(c.last()[i - a.len() - sep.len()] == ch);
            }
        }
    }
}


/// A labelled hop line without its indentation.
pub open spec fn hop_text(x: Seq<char>, a: Arrow, l: Seq<char>, y: Seq<char>) -> Seq<char> {
    x + seq![' '] + arrow_text(a) + seq!['|'] + escape_edge_label(l) + seq!['|', ' '] + y
}

/// The reader takes a generated labelled hop line back as that hop.
#[verifier::spinoff_prover]
pub proof fn lemma_hop_line(x: Seq<char>, a: Arrow, l: Seq<char>, y: Seq<char>)
    requires
        mml_ident(x),
        mml_ident(y),
        !l.contains('\n'),
    ensures
        labeled_hop(x, a, l, y) == "  "@ + hop_text(x, a, l, y),
        strict_node_line(hop_text(x, a, l, y)) is None,
        strict_edge_line(hop_text(x, a, l, y)) matches Some(hops) && (hops.len() == 1 && hops[0].from == x
            && hops[0].arrow == a && hops[0].to == y && (hops[0].label matches Some(l2) && escape_edge_label(l2)
            == escape_edge_label(l))),
        plain_line(hop_text(x, a, l, y)),
        !is_white_space(hop_text(x, a, l, y)[0]),
        !is_white_space(hop_text(x, a, l, y).last()),
{
    reveal_strlit("  ");
    reveal_strlit(" ");
    reveal_strlit("|");
    reveal_strlit("| ");
    let t = arrow_text(a);
    let e = escape_edge_label(l);
    let z = hop_text(x, a, l, y);
    assert(labeled_hop(x, a, l, y) =~= "  "@ + z);
    lemma_arrow_text_shape(a);
    lemma_edge_label_clean(l);
    lemma_ident_solid(x);
    lemma_ident_solid(y);
    let p0 = x.len() as int;
    let q = p0 + 1 + t.len();
    let be = q + 1 + e.len();
    let pos = be + 1;
    assert(z.len() == pos + 1 + y.len());
    assert(forall|i: int| 0 <= i < x.len() ==> z[i] == x[i]);
    assert(z[p0] == ' ');
    assert(z[p0 + 1] == t[0]);
    assert(forall|i: int| 0 <= i < t.len() ==> z[p0 + 1 + i] == t[i]);
    assert(z[q] == '|');
    assert(forall|i: int| 0 <= i < e.len() ==> z[q + 1 + i] == e[i]);
    assert(z[be] == '|');
    assert(z[pos] == ' ');
    assert(forall|i: int| 0 <= i < y.len() ==> z[pos + 1 + i] == y[i]);
    lemma_ident_at(z, 0, x);
    lemma_no_shape(z, p0);
    lemma_ws_end_one(z, p0);
    lemma_link_at(z, p0 + 1, a);
    lemma_bar_end(z, q + 1, e);
    assert(z.subrange(q + 1, be) =~= e);
    assert(strict_arrow_at(z, p0 + 1) == Some((a, Some(unescape_edge_label(e)), pos)));
    lemma_ws_end_one(z, pos);
    lemma_ident_at(z, pos + 1, y);
    lemma_ws_end_none(z, z.len() as int);
    lemma_link_at_end(z);
    lemma_edge_label_round_trip(e);
    assert(!z.contains('\n')) by {
        if z.contains('\n') {
            let i = choose|i: int| 0 <= i < z.len() && z[i] == '\n';
            if i < p0 {
                assert(x[i] == '\n');
            } else if p0 + 1 <= i < q {
                assert(t[i - p0 - 1] == '\n');
            } else if q + 1 <= i < be {
                assert(e[i - q - 1] == '\n');
                assert(e.contains('\n'));
            } else if pos + 1 <= i {
                assert(y[i - pos - 1] == '\n');
            }
        }
    }
    assert(z.last() == y.last());
}


/// The Mermaid lines a reader state stands for once its pending chain is emitted.
pub open spec fn emitted(st: DState) -> Seq<Seq<char>> {
    stmts_lines(flushed(st))
}

/// A pending chain names at least two nodes.
pub open spec fn pending_ok(st: DState) -> bool {
    st.pending matches Some((c, a)) ==> c.len() >= 2
}

#[verifier::spinoff_prover]
pub proof fn lemma_not_comment(x: Seq<char>)
    requires
        x.len() > 0,
        x[0] != '%',
    ensures
        !starts_with(x, "%%"@),
{
    reveal_strlit("%%");
    if starts_with(x, "%%"@) {
        assert(x.take(2)[0] == x[0]);
    }
}

#[verifier::spinoff_prover]
proof fn lemma_step_node(st: DState, n: SpecNode, no: nat)
    requires
        pending_ok(st),
        state_ids_ok(st),
        mml_ident(n.id),
        n.label matches Some(l) && !l.contains('\n'),
    ensures
        strict_step(st, node_lines(n)[0], no) matches Ok(st2) && (pending_ok(st2) && emitted(st2)
            == emitted(st).push(node_lines(n)[0]) && state_ids_ok(st2)),
{
    let l = n.label->0;
    let x = shaped_label(n.id, l, n.shape);
    lemma_node_line(n.id, l, n.shape);
    lemma_trim_indented(x);
    assert(node_lines(n)[0] == "  "@ + x);
    lemma_ident_solid(n.id);
    assert(x[0] == n.id[0]);
    lemma_not_comment(x);
    let n2 = strict_node_line(x)->0;
    let st2 = DState { stmts: flushed(st).push(SpecStmt::Node(n2)), pending: None };
    assert(strict_step(st, node_lines(n)[0], no) == Ok::<DState, Seq<char>>(st2));
    lemma_flushed_ids(st);
    lemma_ids_push(flushed(st), SpecStmt::Node(n2));
    lemma_stmts_lines_push(flushed(st), SpecStmt::Node(n2));
    assert(flushed(st2) == st2.stmts);
    assert(shaped_label(n2.id, n2.label->0, n2.shape) == x);
    assert(node_lines(n2) =~= seq![node_lines(n)[0]]);
}

#[verifier::spinoff_prover]
proof fn lemma_step_chain(st: DState, c: Seq<Seq<char>>, a: Arrow, no: nat)
    requires
        pending_ok(st),
        state_ids_ok(st),
        c.len() >= 2,
        forall|i: int| 0 <= i < c.len() ==> mml_ident(#[trigger] c[i]),
    ensures
        strict_step(st, "  "@ + join(c, link(a)), no) matches Ok(st2) && (pending_ok(st2) && emitted(st2)
            == emitted(st).push("  "@ + join(c, link(a))) && state_ids_ok(st2)),
{
    let x = join(c, link(a));
    lemma_chain_line(c, a);
    lemma_trim_indented(x);
    lemma_join_first(c, link(a));
    assert(mml_ident(c[0]));
    lemma_ident_solid(c[0]);
    assert(x[0] == c[0][0]);
    lemma_not_comment(x);
    lemma_chain_hops(c, a);
    let h = chain_hops(c, a);
    assert(h[0].arrow == a);
    let st2 = DState { stmts: flushed(st), pending: Some((c, a)) };
    assert(strict_step(st, "  "@ + x, no) == Ok::<DState, Seq<char>>(st2));
    lemma_flushed_ids(st);
    let e = SpecStmt::Edge(SpecEdge { chain: c, label: None, arrow: a });
    assert(flushed(st2) == flushed(st).push(e));
    lemma_stmts_lines_push(flushed(st), e);
    assert(edge_lines(SpecEdge { chain: c, label: None, arrow: a }) =~= seq!["  "@ + x]);
}

#[verifier::spinoff_prover]
#[verifier::rlimit(40)]
proof fn lemma_step_hop(st: DState, x: Seq<char>, a: Arrow, l: Seq<char>, y: Seq<char>, no: nat)
    requires
        pending_ok(st),
        state_ids_ok(st),
        mml_ident(x),
        mml_ident(y),
        !l.contains('\n'),
    ensures
        strict_step(st, labeled_hop(x, a, l, y), no) matches Ok(st2) && (pending_ok(st2) && emitted(st2)
            == emitted(st).push(labeled_hop(x, a, l, y)) && state_ids_ok(st2)),
{
    let z = hop_text(x, a, l, y);
    lemma_hop_line(x, a, l, y);
    lemma_trim_indented(z);
    lemma_ident_solid(x);
    assert(z[0] == x[0]);
    lemma_not_comment(z);
    let hops = strict_edge_line(z)->0;
    let h = hops[0];
    let l2 = h.label->0;
    assert(labeled_hop(x, a, l2, y) == labeled_hop(x, a, l, y));
    if can_extend(st.pending, h) {
        let p = (st.pending->0).0;
        let e2 = SpecEdge { chain: p.push(y), label: Some(l2), arrow: a };
        let st2 = DState { stmts: st.stmts.push(SpecStmt::Edge(e2)), pending: None };
        assert(strict_step(st, labeled_hop(x, a, l, y), no) == Ok::<DState, Seq<char>>(st2));
        assert forall|i: int| 0 <= i < p.push(y).len() implies mml_ident(#[trigger] p.push(y)[i]) by {
            if i < p.len() {
                assert(p.push(y)[i] == p[i]);
            }
        }
        lemma_ids_push(st.stmts, SpecStmt::Edge(e2));
        lemma_stmts_lines_push(st.stmts, SpecStmt::Edge(e2));
        let e1 = SpecEdge { chain: p, label: None, arrow: a };
        lemma_stmts_lines_push(st.stmts, SpecStmt::Edge(e1));
        assert(flushed(st) == st.stmts.push(SpecStmt::Edge(e1)));
        assert(p.push(y).take(p.len() as int) =~= p);
        assert(p.push(y)[p.len() - 1] == x);
        assert(edge_lines(e2) =~= edge_lines(e1).push(labeled_hop(x, a, l, y)));
        assert(flushed(st2) == st2.stmts);
    } else {
        let e2 = SpecEdge { chain: seq![x, y], label: Some(l2), arrow: a };
        let st2 = DState { stmts: flushed(st).push(SpecStmt::Edge(e2)), pending: None };
        assert(strict_step(st, labeled_hop(x, a, l, y), no) == Ok::<DState, Seq<char>>(st2));
        lemma_flushed_ids(st);
        assert(ids_ok(SpecStmt::Edge(e2)));
        lemma_ids_push(flushed(st), SpecStmt::Edge(e2));
        lemma_stmts_lines_push(flushed(st), SpecStmt::Edge(e2));
        assert(edge_lines(e2) =~= seq![labeled_hop(x, a, l, y)]);
        assert(flushed(st2) == st2.stmts);
    }
}

#[verifier::spinoff_prover]
pub proof fn lemma_fold_push(ls: Seq<Seq<char>>, m: Seq<char>, first: nat)
    ensures
        strict_fold(ls.push(m), first) == match strict_fold(ls, first) {
            Err(e) => Err(e),
            Ok(st) => strict_step(st, m, (first + ls.len()) as nat),
        },
{
    assert(ls.push(m).drop_last() =~= ls);
}

/// The reader folds the lines of readable statements into a state that emits them again.
#[verifier::spinoff_prover]
pub proof fn lemma_fold_stmts(ss: Seq<SpecStmt>, first: nat)
    requires
        forall|i: int| 0 <= i < ss.len() ==> readable_stmt(#[trigger] ss[i]),
    ensures
        strict_fold(stmts_lines(ss), first) matches Ok(st) && (pending_ok(st) && emitted(st) == stmts_lines(ss)
            && state_ids_ok(st)),
    decreases ss.len(),
{
    if ss.len() == 0 {
        assert(emitted(initial_state()) =~= Seq::<Seq<char>>::empty());
    } else {
        let prev = ss.drop_last();
        assert forall|i: int| 0 <= i < prev.len() implies readable_stmt(#[trigger] prev[i]) by {
            assert(prev[i] == ss[i]);
        }
        lemma_fold_stmts(prev, first);
        let lp = stmts_lines(prev);
        let st = strict_fold(lp, first)->Ok_0;
        let s = ss.last();
        assert(readable_stmt(ss[ss.len() - 1]));
        assert(stmts_lines(ss) == lp + stmt_lines(s));
        match s {
            SpecStmt::Node(n) => {
                if n.label is Some {
                    let m = node_lines(n)[0];
                    assert(stmt_lines(s) =~= seq![m]);
                    assert(lp + stmt_lines(s) =~= lp.push(m));
                    lemma_fold_push(lp, m, first);
                    lemma_step_node(st, n, (first + lp.len()) as nat);
                } else {
                    assert(lp + stmt_lines(s) =~= lp);
                }
            },
            SpecStmt::Edge(e) => {
                let c = e.chain;
                let n = c.len() as int;
                match e.label {
                    None => {
                        let m = "  "@ + join(c, link(e.arrow));
                        assert(lp + stmt_lines(s) =~= lp.push(m));
                        lemma_fold_push(lp, m, first);
                        lemma_step_chain(st, c, e.arrow, (first + lp.len()) as nat);
                    },
                    Some(l) => {
                        let hop = labeled_hop(c[n - 2], e.arrow, l, c[n - 1]);
                        assert(mml_ident(c[n - 2]) && mml_ident(c[n - 1]));
                        if n > 2 {
                            let head = c.take(n - 1);
                            let m1 = "  "@ + join(head, link(e.arrow));
                            assert forall|i: int| 0 <= i < head.len() implies mml_ident(#[trigger] head[i]) by {
                                assert(head[i] == c[i]);
                            }
                            assert(lp + stmt_lines(s) =~= lp.push(m1).push(hop));
                            lemma_fold_push(lp, m1, first);
                            lemma_step_chain(st, head, e.arrow, (first + lp.len()) as nat);
                            let st1 = strict_fold(lp.push(m1), first)->Ok_0;
                            lemma_fold_push(lp.push(m1), hop, first);
                            lemma_step_hop(st1, c[n - 2], e.arrow, l, c[n - 1], (first + lp.len() + 1) as nat);
                        } else {
                            assert(lp + stmt_lines(s) =~= lp.push(hop));
                            lemma_fold_push(lp, hop, first);
                            lemma_step_hop(st, c[n - 2], e.arrow, l, c[n - 1], (first + lp.len()) as nat);
                        }
                    },
                }
            },
        }
    }
}


#[verifier::spinoff_prover]
pub proof fn lemma_header(d: Direction)
    ensures
        trim(header_line(d)) == header_line(d),
        strict_header(header_line(d)) == Some(d),
        plain_line(header_line(d)),
{
    reveal_strlit("flowchart ");
    reveal_strlit("flowchart");
    reveal_strlit("LR");
    reveal_strlit("RL");
    reveal_strlit("TD");
    reveal_strlit("TB");
    reveal_strlit("BT");
    let h = header_line(d);
    assert(h.len() == 12);
    assert(h.subrange(0, 9) =~= "flowchart"@);
    lemma_ws_end_one(h, 9);
    assert(h.subrange(10, 12) =~= direction_name(d));
    lemma_ws_end_none(h, 12);
    assert(h[10] == direction_name(d)[0]);
    assert(h[11] == direction_name(d)[1]);
    match d {
        Direction::LR => {},
        Direction::RL => {
            assert(!has_at(h, 10, "LR"@)) by {
                assert(h.subrange(10, 12)[0] == h[10]);
            }
        },
        Direction::TD => {
            assert(!has_at(h, 10, "LR"@)) by {
                assert(h.subrange(10, 12)[0] == h[10]);
            }
            assert(!has_at(h, 10, "RL"@)) by {
                assert(h.subrange(10, 12)[0] == h[10]);
            }
        },
        Direction::BT => {
            assert(!has_at(h, 10, "LR"@)) by {
                assert(h.subrange(10, 12)[0] == h[10]);
            }
            assert(!has_at(h, 10, "RL"@)) by {
                assert(h.subrange(10, 12)[0] == h[10]);
            }
            assert(!has_at(h, 10, "TD"@)) by {
                assert(h.subrange(10, 12)[0] == h[10]);
            }
            assert(!has_at(h, 10, "TB"@)) by {
                assert(h.subrange(10, 12)[0] == h[10]);
            }
        },
    }
    assert(!h.contains('\n')) by {
        if h.contains('\n') {
            let i = choose|i: int| 0 <= i < h.len() && h[i] == '\n';
            assert(h[i] == '\n');
        }
    }
}

#[verifier::spinoff_prover]
pub proof fn lemma_indent_plain(x: Seq<char>)
    requires
        plain_line(x),
    ensures
        plain_line("  "@ + x),
{
    reveal_strlit("  ");
    let y = "  "@ + x;
    assert(y.last() == x.last());
    if y.contains('\n') {
        let i = choose|i: int| 0 <= i < y.len() && y[i] == '\n';
        assert(i >= 2);
        assert(x[i - 2] == '\n');
        assert(x.contains('\n'));
    }
}

#[verifier::spinoff_prover]
pub proof fn lemma_chain_text_plain(c: Seq<Seq<char>>, a: Arrow)
    requires
        c.len() >= 2,
        forall|i: int| 0 <= i < c.len() ==> mml_ident(#[trigger] c[i]),
    ensures
        plain_line("  "@ + join(c, link(a))),
{
    lemma_chain_line(c, a);
    lemma_indent_plain(join(c, link(a)));
}

#[verifier::spinoff_prover]
pub proof fn lemma_hop_text_plain(x: Seq<char>, a: Arrow, l: Seq<char>, y: Seq<char>)
    requires
        mml_ident(x),
        mml_ident(y),
        !l.contains('\n'),
    ensures
        plain_line(labeled_hop(x, a, l, y)),
{
    lemma_hop_line(x, a, l, y);
    lemma_indent_plain(hop_text(x, a, l, y));
}

/// Every line written for a readable statement is one line.
#[verifier::spinoff_prover]
pub proof fn lemma_stmt_lines_plain(s: SpecStmt)
    requires
        readable_stmt(s),
    ensures
        forall|i: int| 0 <= i < stmt_lines(s).len() ==> plain_line(#[trigger] stmt_lines(s)[i]),
{
    match s {
        SpecStmt::Node(n) => {
            if n.label is Some {
                let l = n.label->0;
                lemma_node_line(n.id, l, n.shape);
                lemma_indent_plain(shaped_label(n.id, l, n.shape));
                assert(stmt_lines(s) =~= seq!["  "@ + shaped_label(n.id, l, n.shape)]);
            }
        },
        SpecStmt::Edge(e) => {
            let c = e.chain;
            let k = c.len() as int;
            match e.label {
                None => {
                    lemma_chain_text_plain(c, e.arrow);
                    assert(stmt_lines(s) =~= seq!["  "@ + join(c, link(e.arrow))]);
                },
                Some(l) => {
                    assert(mml_ident(c[k - 2]) && mml_ident(c[k - 1]));
                    lemma_hop_text_plain(c[k - 2], e.arrow, l, c[k - 1]);
                    let hop = labeled_hop(c[k - 2], e.arrow, l, c[k - 1]);
                    if k > 2 {
                        let head = c.take(k - 1);
                        assert forall|j: int| 0 <= j < head.len() implies mml_ident(#[trigger] head[j]) by {
                            assert(head[j] == c[j]);
                        }
                        lemma_chain_text_plain(head, e.arrow);
                        assert(stmt_lines(s) =~= seq!["  "@ + join(head, link(e.arrow)), hop]);
                    } else {
                        assert(stmt_lines(s) =~= seq![hop]);
                    }
                },
            }
        },
    }
}

/// Every line written for readable statements is one line.
#[verifier::spinoff_prover]
pub proof fn lemma_stmts_lines_plain(ss: Seq<SpecStmt>)
    requires
        forall|i: int| 0 <= i < ss.len() ==> readable_stmt(#[trigger] ss[i]),
    ensures
        forall|i: int| 0 <= i < stmts_lines(ss).len() ==> plain_line(#[trigger] stmts_lines(ss)[i]),
    decreases ss.len(),
{
    if ss.len() > 0 {
        let prev = ss.drop_last();
        assert forall|i: int| 0 <= i < prev.len() implies readable_stmt(#[trigger] prev[i]) by {
            assert(prev[i] == ss[i]);
        }
        lemma_stmts_lines_plain(prev);
        assert(readable_stmt(ss[ss.len() - 1]));
        let m = stmt_lines(ss.last());
        lemma_stmt_lines_plain(ss.last());
        let all = stmts_lines(ss);
        assert(all == stmts_lines(prev) + m);
        assert forall|i: int| 0 <= i < all.len() implies plain_line(#[trigger] all[i]) by {
            if i < stmts_lines(prev).len() {
                assert(all[i] == stmts_lines(prev)[i]);
            } else {
                assert(all[i] == m[i - stmts_lines(prev).len()]);
            }
        }
    }
}

/// The strict Mermaid reader accepts the Mermaid text of every readable graph,
/// and reads it as a graph whose Mermaid text is the same.
#[verifier::spinoff_prover]
#[verifier::rlimit(40)]
pub proof fn lemma_reads_generated(g: SpecGraph)
    requires
        readable_graph(g),
    ensures
        mml_mermaid_graph(mermaid_text(g)) matches Ok(g2) && mermaid_text(g2) == mermaid_text(g)
            && forall|i: int| 0 <= i < g2.stmts.len() ==> ids_ok(#[trigger] g2.stmts[i]),
{
    let ls = mermaid_lines(g);
    let body = stmts_lines(g.stmts);
    lemma_header(g.direction);
    lemma_stmts_lines_plain(g.stmts);
    assert forall|i: int| 0 <= i < ls.len() implies plain_line(#[trigger] ls[i]) by {
        if i > 0 {
            assert(ls[i] == body[i - 1]);
        }
    }
    lemma_lines_of_join(ls);
    assert(lines(mermaid_text(g)) == ls);
    assert(first_nonblank(ls) == 0);
    assert(ls.skip(1) =~= body);
    lemma_fold_stmts(g.stmts, 2);
    let st = strict_fold(body, 2)->Ok_0;
    let g2 = SpecGraph { direction: g.direction, stmts: flushed(st) };
    lemma_flushed_ids(st);
    assert(mml_mermaid_graph(mermaid_text(g)) == Ok::<SpecGraph, Seq<char>>(g2));
    assert(mermaid_lines(g2) =~= ls);
}


/// The identifiers of a statement are MML identifiers.
pub open spec fn ids_valid(s: SpecStmt) -> bool {
    match s {
        SpecStmt::Node(n) => mml_ident(n.id),
        SpecStmt::Edge(e) => forall|i: int| 0 <= i < e.chain.len() ==> mml_ident(#[trigger] e.chain[i]),
    }
}

/// No label of the statements holds a line break.
pub open spec fn labels_one_line(stmts: Seq<SpecStmt>) -> bool {
    forall|i: int| 0 <= i < stmts.len() ==> match #[trigger] stmts[i] {
        SpecStmt::Node(n) => n.label matches Some(l) ==> !l.contains('\n'),
        SpecStmt::Edge(e) => e.label matches Some(l) ==> !l.contains('\n'),
    }
}

#[verifier::spinoff_prover]
proof fn lemma_ident_tail_chars(s: Seq<char>, p: int)
    requires
        0 <= p,
    ensures
        p <= ident_tail(s, p) <= if p <= s.len() { s.len() as int } else { p },
        forall|i: int| p <= i < ident_tail(s, p) ==> is_mml_ident_continue(#[trigger] s[i]),
    decreases s.len() - p,
{
    if 0 <= p < s.len() && is_mml_ident_continue(s[p]) {
        lemma_ident_tail_chars(s, p + 1);
    }
}

#[verifier::spinoff_prover]
proof fn lemma_ident_at_valid(s: Seq<char>, pos: int)
    ensures
        ident_at(s, pos) matches Some((id, _)) ==> mml_ident(id),
{
    if 0 <= pos < s.len() && is_mml_ident_start(s[pos]) {
        lemma_ident_tail_chars(s, pos + 1);
        let id = s.subrange(pos, ident_tail(s, pos + 1));
        assert forall|i: int| 1 <= i < id.len() implies is_mml_ident_continue(#[trigger] id[i]) by {
            assert(id[i] == s[pos + i]);
        }
    }
}

#[verifier::spinoff_prover]
proof fn lemma_node_at_valid(s: Seq<char>, pos: int)
    ensures
        node_at(s, pos) matches Some((n, _)) ==> mml_ident(n.id),
{
    if 0 <= pos < s.len() && s[pos] == '(' {
        lemma_ident_at_valid(s, trivia_end(s, pos + 1));
    }
}

#[verifier::spinoff_prover]
proof fn lemma_endpoints_valid(s: Seq<char>, pos: int, chain: Seq<Seq<char>>, nodes: Seq<SpecStmt>)
    requires
        forall|i: int| 0 <= i < chain.len() ==> mml_ident(#[trigger] chain[i]),
        forall|i: int| 0 <= i < nodes.len() ==> ids_valid(#[trigger] nodes[i]),
    ensures
        forall|i: int| 0 <= i < endpoints_at(s, pos, chain, nodes).0.len() ==> mml_ident(
            #[trigger] endpoints_at(s, pos, chain, nodes).0[i],
        ),
        forall|i: int| 0 <= i < endpoints_at(s, pos, chain, nodes).1.len() ==> ids_valid(
            #[trigger] endpoints_at(s, pos, chain, nodes).1[i],
        ),
    decreases s.len() - pos,
{
    lemma_node_at_valid(s, pos);
    lemma_ident_at_valid(s, pos);
    let r = endpoints_at(s, pos, chain, nodes);
    match node_at(s, pos) {
        Some((n, q)) => if pos < trivia_end(s, q) <= s.len() {
            let c2 = chain.push(n.id);
            let n2 = nodes.push(SpecStmt::Node(n));
            assert forall|i: int| 0 <= i < c2.len() implies mml_ident(#[trigger] c2[i]) by {
                if i < chain.len() {
                    assert(c2[i] == chain[i]);
                }
            }
            assert forall|i: int| 0 <= i < n2.len() implies ids_valid(#[trigger] n2[i]) by {
                if i < nodes.len() {
                    assert(n2[i] == nodes[i]);
                }
            }
            lemma_endpoints_valid(s, trivia_end(s, q), c2, n2);
            assert(r == endpoints_at(s, trivia_end(s, q), c2, n2));
        } else {
            assert(r == (chain, nodes, pos));
        },
        None => match ident_at(s, pos) {
            Some((id, q)) => if pos < trivia_end(s, q) <= s.len() {
                let c2 = chain.push(id);
                assert forall|i: int| 0 <= i < c2.len() implies mml_ident(#[trigger] c2[i]) by {
                    if i < chain.len() {
                        assert(c2[i] == chain[i]);
                    }
                }
                lemma_endpoints_valid(s, trivia_end(s, q), c2, nodes);
                assert(r == endpoints_at(s, trivia_end(s, q), c2, nodes));
            } else {
                assert(r == (chain, nodes, pos));
            },
            None => {
                assert(r == (chain, nodes, pos));
            },
        },
    }
    assert forall|i: int| 0 <= i < r.0.len() implies mml_ident(#[trigger] r.0[i]) by {}
    assert forall|i: int| 0 <= i < r.1.len() implies ids_valid(#[trigger] r.1[i]) by {}
}

#[verifier::spinoff_prover]
proof fn lemma_stmt_valid(s: Seq<char>, pos: int)
    ensures
        stmt_at(s, pos) matches Attempt::Done(ss, _) ==> forall|i: int|
            0 <= i < ss.len() ==> ids_valid(#[trigger] ss[i]),
{
    lemma_node_at_valid(s, pos);
    match edge_at(s, pos) {
        Attempt::Fail => {
            if let Some((n, q)) = node_at(s, pos) {
                assert(seq![SpecStmt::Node(n)][0] == SpecStmt::Node(n));
            }
        },
        _ => {
            if 0 <= pos < s.len() && s[pos] == '(' {
                if let Some((arrow, p2)) = arrow_at(s, trivia_end(s, pos + 1)) {
                    lemma_endpoints_valid(s, trivia_end(s, p2), seq![], seq![]);
                    let (chain, nodes, p4) = endpoints_at(s, trivia_end(s, p2), seq![], seq![]);
                    if let Attempt::Done(ss, _) = edge_at(s, pos) {
                        assert forall|i: int| 0 <= i < ss.len() implies ids_valid(#[trigger] ss[i]) by {
                            if i < nodes.len() {
                                assert(ss[i] == nodes[i]);
                            }
                        }
                    }
                }
            }
        },
    }
}

#[verifier::spinoff_prover]
proof fn lemma_stmts_valid(s: Seq<char>, pos: int, acc: Seq<SpecStmt>)
    requires
        forall|i: int| 0 <= i < acc.len() ==> ids_valid(#[trigger] acc[i]),
    ensures
        stmts_at(s, pos, acc) matches Ok((stmts, _)) ==> forall|i: int| 0 <= i < stmts.len()
            ==> ids_valid(#[trigger] stmts[i]),
    decreases s.len() - pos,
{
    lemma_stmt_valid(s, pos);
    match stmt_at(s, pos) {
        Attempt::Done(ss, q) => if pos < q <= s.len() {
            let next = acc + ss;
            assert forall|i: int| 0 <= i < next.len() implies ids_valid(#[trigger] next[i]) by {
                if i < acc.len() {
                    assert(next[i] == acc[i]);
                } else {
                    assert(next[i] == ss[i - acc.len()]);
                }
            }
            lemma_stmts_valid(s, q, next);
        },
        _ => {},
    }
}

/// Every parsed MML graph names nodes by identifiers and chains by two or more of them.
#[verifier::spinoff_prover]
pub proof fn lemma_parsed_ids(src: Seq<char>)
    ensures
        mml_graph(src) matches Ok(g) ==> forall|i: int| 0 <= i < g.stmts.len() ==> ids_valid(
            #[trigger] g.stmts[i],
        ),
{
    let p0 = trivia_end(src, 0);
    if 0 <= p0 < src.len() && src[p0] == '(' {
        let p1 = trivia_end(src, p0 + 1);
        if let Some((kw, p2)) = ident_at(src, p1) {
            let p3 = trivia_end(src, p2);
            if let Some((direction, p4)) = direction_at(src, p3) {
                lemma_stmts_valid(src, trivia_end(src, p4), seq![]);
            }
        }
    }
}


/// `parse_mermaid` accepts all the Mermaid that `to_mermaid` writes, and
/// reads it as a graph whose Mermaid text is the same; `from_mermaid`
/// therefore succeeds on it.
#[verifier::spinoff_prover]
pub proof fn law_mermaid_of_mml_reads_back(source: Seq<char>)
    requires
        mml_graph(source) is Ok,
    ensures
        to_mermaid_spec(source) matches Ok(m) && (mml_mermaid_read(m) matches Ok(g3) && mermaid_text(
            graph_breaks(g3, true),
        ) == m && forall|i: int| 0 <= i < g3.stmts.len() ==> ids_ok(#[trigger] g3.stmts[i])),
        from_mermaid_spec(to_mermaid_spec(source)->Ok_0) is Ok,
{
    let g = mml_graph(source)->Ok_0;
    let e = graph_breaks(g, true);
    lemma_parsed_ids(source);
    crate::mml::parser::lemma_graph_chains(source);
    assert forall|i: int| 0 <= i < e.stmts.len() implies readable_stmt(#[trigger] e.stmts[i]) by {
        assert(ids_valid(g.stmts[i]));
        assert(g.stmts[i] matches SpecStmt::Edge(x) ==> x.chain.len() >= 2);
        match g.stmts[i] {
            SpecStmt::Node(n) => if let Some(l) = n.label {
                lemma_escaped_one_line(l);
            },
            SpecStmt::Edge(x) => if let Some(l) = x.label {
                lemma_escaped_one_line(l);
            },
        }
    }
    lemma_reads_generated(e);
    let m = mermaid_text(e);
    let g2 = mml_mermaid_graph(m)->Ok_0;
    lemma_read_labels_one_line(m);
    lemma_breaks_back(g2);
    lemma_breaks_ids(g2, false);
}

} // verus!
