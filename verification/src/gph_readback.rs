//! `decompile` reads every Mermaid flowchart that `compile` writes, as a graph
//! whose Mermaid text is the same.
use vstd::prelude::*;
use crate::ast::{Arrow, Direction, Shape, SpecEdge, SpecGraph, SpecNode, SpecStmt};
use crate::codegen::{
    arrow_text, direction_name, edge_lines, escape_edge_label, escape_node_label, header_line, labeled_hop,
    lemma_stmts_lines_push, link, mermaid_lines, mermaid_text, node_lines, shaped_label, stmt_lines,
    stmts_lines,
};
use crate::mermaid_parser::{
    bar_end, can_extend, decompile_fold, decompile_graph, decompile_step, eat_arrow_spec, eat_id_spec,
    edge_hops, edge_stmt, first_nonblank, flushed, header_direction, hop_chain, id_end, initial_state,
    is_ascii_ws, is_id_char, link_at, more_hops, next_word, node_decl_spec, shape_body, skip_ascii_ws,
    strip_balanced, unescape_edge_label, unescape_node_label, word_end, ws_end, DState, SpecHop,
};
use crate::mml::readback::{
    chain_hops, emitted, hop_text, lemma_chain_hops, lemma_ident_solid, lemma_indent_plain, lemma_not_comment,
    lemma_quote_end, lemma_shape_literals, lemma_stmts_lines_plain, mml_ident, pending_ok, readable_graph,
    readable_stmt, reader_close, reader_open, labels_one_line,
};
use crate::readback::{
    join_off, lemma_arrow_text_shape, lemma_bar_end, lemma_edge_label_clean, lemma_edge_label_round_trip,
    lemma_join_first, lemma_join_segment, lemma_link_at, lemma_lines_of_join, lemma_node_label_round_trip,
    lemma_node_label_unquoted, lemma_trim_indented, lemma_ws_end_none, lemma_ws_end_one, plain_line,
};
use crate::text::{is_white_space, join, lines, starts_with, trim};
use crate::lexer::{ident_end, is_ident_continue_char, lex_from, lex_spec, lex_step, SpecStep, SpecToken, SpecTokenKind};
use crate::parser::{kind_at, parse_endpoints, parse_node_spec, parse_stmt_spec, parse_stmts_spec};
use crate::pipeline::{compile_spec, lex_and_parse_spec};
use crate::gph_printer::print_spec;
use crate::{decompile_spec};

verus! {

#[verifier::spinoff_prover]
pub proof fn lemma_id_end(l: Seq<char>, q: int, e: int)
    requires
        0 <= q <= e <= l.len(),
        forall|i: int| q <= i < e ==> is_id_char(#[trigger] l[i]),
        e == l.len() || !is_id_char(l[e]),
    ensures
        id_end(l, q) == e,
    decreases e - q,
{
    if q < e {
        lemma_id_end(l, q + 1, e);
    }
}

/// An identifier written at `p` and not followed by an id character reads back.
#[verifier::spinoff_prover]
pub proof fn lemma_eat_id(l: Seq<char>, p: int, id: Seq<char>)
    requires
        0 <= p,
        p + id.len() <= l.len(),
        forall|i: int| 0 <= i < id.len() ==> l[p + i] == id[i],
        mml_ident(id),
        p + id.len() == l.len() || !is_id_char(l[p + id.len()]),
    ensures
        eat_id_spec(l, p) == Some((id, p + id.len())),
{
    assert forall|i: int| p <= i < p + id.len() implies is_id_char(#[trigger] l[i]) by {
        assert(l[p + (i - p)] == id[i - p]);
        if i > p {
            assert(crate::mml::parser::is_mml_ident_continue(id[i - p]));
        }
    }
    lemma_id_end(l, p, p + id.len());
    assert(l.subrange(p, p + id.len()) =~= id);
}

/// A link followed by a space reads without a label.
#[verifier::spinoff_prover]
pub proof fn lemma_eat_arrow_plain(l: Seq<char>, p: int, a: Arrow)
    requires
        0 <= p,
        p + arrow_text(a).len() < l.len(),
        forall|i: int| 0 <= i < arrow_text(a).len() ==> l[p + i] == arrow_text(a)[i],
        l[p + arrow_text(a).len()] == ' ',
    ensures
        eat_arrow_spec(l, p) == Some((a, None::<Seq<char>>, p + arrow_text(a).len())),
{
    lemma_link_at(l, p, a);
}

/// A link followed by `|label|` reads with the label unescaped.
#[verifier::spinoff_prover]
pub proof fn lemma_eat_arrow_labeled(l: Seq<char>, p: int, a: Arrow, e: Seq<char>)
    requires
        0 <= p,
        p + arrow_text(a).len() + e.len() + 1 < l.len(),
        forall|i: int| 0 <= i < arrow_text(a).len() ==> l[p + i] == arrow_text(a)[i],
        l[p + arrow_text(a).len()] == '|',
        forall|i: int| 0 <= i < e.len() ==> l[p + arrow_text(a).len() + 1 + i] == e[i],
        !e.contains('|'),
        l[p + arrow_text(a).len() + 1 + e.len()] == '|',
    ensures
        eat_arrow_spec(l, p) == Some(
            (a, Some(unescape_edge_label(e)), p + arrow_text(a).len() + e.len() + 2),
        ),
{
    let q = p + arrow_text(a).len();
    lemma_link_at(l, p, a);
    lemma_bar_end(l, q + 1, e);
    assert(l.subrange(q + 1, q + 1 + e.len()) =~= e);
}

#[verifier::spinoff_prover]
#[verifier::rlimit(50)]
proof fn lemma_chain_hop_lenient(c: Seq<Seq<char>>, a: Arrow, k: int)
    requires
        1 <= k < c.len(),
        forall|i: int| 0 <= i < c.len() ==> mml_ident(#[trigger] c[i]),
    ensures
        ws_end(join(c, link(a)), join_off(c, link(a), k)) == join_off(c, link(a), k) + 1,
        join_off(c, link(a), k) + 1 < join(c, link(a)).len(),
        eat_arrow_spec(join(c, link(a)), join_off(c, link(a), k) + 1) == Some(
            (a, None::<Seq<char>>, join_off(c, link(a), k) + 1 + arrow_text(a).len()),
        ),
        ws_end(join(c, link(a)), join_off(c, link(a), k) + 1 + arrow_text(a).len()) == join_off(c, link(a), k)
            + link(a).len(),
        eat_id_spec(join(c, link(a)), join_off(c, link(a), k) + link(a).len()) == Some(
            (c[k], join_off(c, link(a), k + 1)),
        ),
{
    reveal_strlit(" ");
    let x = join(c, link(a));
    let sep = link(a);
    let t = arrow_text(a);
    let o = join_off(c, sep, k);
    lemma_arrow_text_shape(a);
    lemma_join_segment(c, sep, k);
    lemma_join_first(c, sep);
    assert(sep =~= seq![' '] + t + seq![' ']);
    assert(sep[0] == ' ');
    assert(x[o] == sep[0]);
    assert(sep[1] == t[0]);
    assert(x[o + 1] == sep[1]);
    lemma_ws_end_one(x, o);
    assert forall|i: int| 0 <= i < t.len() implies x[o + 1 + i] == t[i] by {
        assert(x[o + (1 + i)] == sep[1 + i]);
    }
    let q = o + 1 + t.len();
    assert(x[q] == sep[1 + t.len() as int]);
    assert(x[q] == ' ');
    lemma_eat_arrow_plain(x, o + 1, a);
    lemma_ident_solid(c[k]);
    assert(x[q + 1] == c[k][0]);
    lemma_ws_end_one(x, q);
    let off2 = join_off(c, sep, k + 1);
    if k + 1 < c.len() {
        lemma_join_segment(c, sep, k + 1);
        assert(x[off2] == sep[0]);
    }
    lemma_eat_id(x, o + sep.len(), c[k]);
}

#[verifier::spinoff_prover]
proof fn lemma_more_hops_chain(c: Seq<Seq<char>>, a: Arrow, k: int)
    requires
        2 <= k <= c.len(),
        forall|i: int| 0 <= i < c.len() ==> mml_ident(#[trigger] c[i]),
    ensures
        more_hops(join(c, link(a)), join_off(c, link(a), k), c[k - 1], chain_hops(c, a).take(k - 1)) == chain_hops(c, a),
    decreases c.len() - k,
{
    let x = join(c, link(a));
    let h = chain_hops(c, a);
    lemma_join_first(c, link(a));
    if k == c.len() {
        lemma_ws_end_none(x, x.len() as int);
        assert(h.take(k - 1) =~= h);
    } else {
        lemma_chain_hop_lenient(c, a, k);
        lemma_join_segment(c, link(a), k);
        assert(h.take(k - 1).push(h[k - 1]) =~= h.take(k));
        lemma_more_hops_chain(c, a, k + 1);
    }
}

/// No node declaration starts with an identifier followed by a space.
#[verifier::spinoff_prover]
proof fn lemma_no_decl(x: Seq<char>, id: Seq<char>)
    requires
        mml_ident(id),
        id.len() < x.len(),
        forall|i: int| 0 <= i < id.len() ==> x[i] == id[i],
        x[id.len() as int] == ' ',
    ensures
        node_decl_spec(x) is None,
{
    lemma_eat_id(x, 0, id);
}

/// The lenient reader takes a generated chain line back as its hops.
#[verifier::spinoff_prover]
pub proof fn lemma_chain_line_lenient(c: Seq<Seq<char>>, a: Arrow)
    requires
        c.len() >= 2,
        forall|i: int| 0 <= i < c.len() ==> mml_ident(#[trigger] c[i]),
    ensures
        node_decl_spec(join(c, link(a))) is None,
        edge_hops(join(c, link(a))) == Some(chain_hops(c, a)),
{
    reveal_strlit(" ");
    let x = join(c, link(a));
    let sep = link(a);
    let h = chain_hops(c, a);
    lemma_join_first(c, sep);
    lemma_join_segment(c, sep, 1);
    lemma_ident_solid(c[0]);
    assert(sep =~= seq![' '] + arrow_text(a) + seq![' ']);
    assert(sep[0] == ' ');
    assert(x[join_off(c, sep, 1) + 0] == sep[0]);
    lemma_eat_id(x, 0, c[0]);
    lemma_no_decl(x, c[0]);
    lemma_chain_hop_lenient(c, a, 1);
    assert(h.take(1) =~= seq![SpecHop { from: c[0], arrow: a, to: c[1], label: None }]);
    lemma_more_hops_chain(c, a, 2);
}

/// The lenient reader takes a generated labelled hop line back as that hop.
#[verifier::spinoff_prover]
pub proof fn lemma_hop_line_lenient(x: Seq<char>, a: Arrow, l: Seq<char>, y: Seq<char>)
    requires
        mml_ident(x),
        mml_ident(y),
    ensures
        node_decl_spec(hop_text(x, a, l, y)) is None,
        edge_hops(hop_text(x, a, l, y)) matches Some(hops) && (hops.len() == 1 && hops[0].from == x
            && hops[0].arrow == a && hops[0].to == y && (hops[0].label matches Some(l2) && escape_edge_label(l2)
            == escape_edge_label(l))),
{
    let t = arrow_text(a);
    let e = escape_edge_label(l);
    let z = hop_text(x, a, l, y);
    lemma_arrow_text_shape(a);
    lemma_edge_label_clean(l);
    lemma_ident_solid(x);
    lemma_ident_solid(y);
    let p0 = x.len() as int;
    let q = p0 + 1 + t.len();
    let be = q + 1 + e.len();
    let pos = be + 1;
    assert(z.len() == pos + 1 + y.len());
    assert(forall|i: int| 0 <= i < x.len() ==> z[i] == x[i]);
    assert(z[p0] == ' ');
    assert(z[p0 + 1] == t[0]);
    assert(forall|i: int| 0 <= i < t.len() ==> z[p0 + 1 + i] == t[i]);
    assert(z[q] == '|');
    assert(forall|i: int| 0 <= i < e.len() ==> z[q + 1 + i] == e[i]);
    assert(z[be] == '|');
    assert(z[pos] == ' ');
    assert(forall|i: int| 0 <= i < y.len() ==> z[pos + 1 + i] == y[i]);
    lemma_eat_id(z, 0, x);
    lemma_no_decl(z, x);
    lemma_ws_end_one(z, p0);
    lemma_eat_arrow_labeled(z, p0 + 1, a, e);
    lemma_ws_end_one(z, pos);
    lemma_eat_id(z, pos + 1, y);
    lemma_ws_end_none(z, z.len() as int);
    lemma_edge_label_round_trip(e);
}

/// The lenient reader takes a generated node line back as the node.
#[verifier::spinoff_prover]
pub proof fn lemma_node_decl(id: Seq<char>, l: Seq<char>, shape: Shape)
    requires
        mml_ident(id),
    ensures
        node_decl_spec(shaped_label(id, l, shape)) matches Some(n) && (n.id == id && n.shape == shape
            && (n.label matches Some(l2) && escape_node_label(l2) == escape_node_label(l))),
{
    lemma_shape_literals(shape);
    lemma_ident_solid(id);
    lemma_node_label_unquoted(l);
    let e = escape_node_label(l);
    let o = reader_open(shape);
    let c = reader_close(shape);
    let x = shaped_label(id, l, shape);
    let p = id.len() as int;
    assert(x =~= id + o + seq!['"'] + e + seq!['"'] + c);
    assert(forall|i: int| 0 <= i < id.len() ==> x[i] == id[i]);
    assert(x[p] == o[0]);
    lemma_eat_id(x, 0, id);
    let rest = x.skip(p);
    assert(rest =~= o + seq!['"'] + e + seq!['"'] + c);
    let inner = seq!['"'] + e + seq!['"'];
    assert(strip_balanced(rest, o, c) == Some(inner)) by {
        assert(rest.take(o.len() as int) =~= o);
        assert(rest.skip(rest.len() - c.len()) =~= c);
        assert(rest.subrange(o.len() as int, rest.len() - c.len()) =~= inner);
    }
    lemma_shape_body_choice(rest, shape, inner);
    assert(inner.subrange(1, inner.len() - 1) =~= e);
    lemma_node_label_round_trip(e);
}

#[verifier::spinoff_prover]
proof fn lemma_shape_body_choice(rest: Seq<char>, shape: Shape, inner: Seq<char>)
    requires
        rest.len() >= reader_open(shape).len() + 2,
        rest[0] == reader_open(shape)[0],
        rest[1] == if reader_open(shape).len() == 2 {
            reader_open(shape)[1]
        } else {
            '"'
        },
        strip_balanced(rest, reader_open(shape), reader_close(shape)) == Some(inner),
    ensures
        shape_body(rest) == Some((shape, inner)),
{
    lemma_shape_literals(shape);
    assert(rest.take(2)[0] == rest[0]);
    assert(rest.take(2)[1] == rest[1]);
    assert(rest.take(1)[0] == rest[0]);
    match shape {
        Shape::Sub => {},
        Shape::Stadium => {
            assert(!starts_with(rest, "[["@));
        },
        Shape::Hex => {
            assert(!starts_with(rest, "[["@));
            assert(!starts_with(rest, "(["@));
        },
        Shape::Box => {
            assert(!starts_with(rest, "[["@));
            assert(!starts_with(rest, "(["@));
            assert(!starts_with(rest, "{{"@));
        },
        Shape::Round => {
            assert(!starts_with(rest, "[["@));
            assert(!starts_with(rest, "(["@));
            assert(!starts_with(rest, "{{"@));
            assert(!starts_with(rest, "["@));
        },
        Shape::Diamond => {
            assert(!starts_with(rest, "[["@));
            assert(!starts_with(rest, "(["@));
            assert(!starts_with(rest, "{{"@));
            assert(!starts_with(rest, "["@));
            assert(!starts_with(rest, "("@));
        },
    }
}


#[verifier::spinoff_prover]
proof fn lemma_word_end(t: Seq<char>, i: int, j: int)
    requires
        0 <= i <= j <= t.len(),
        forall|k: int| i <= k < j ==> !is_ascii_ws(#[trigger] t[k]),
        j == t.len() || is_ascii_ws(t[j]),
    ensures
        word_end(t, i) == j,
    decreases j - i,
{
    if i < j {
        lemma_word_end(t, i + 1, j);
    }
}

/// The lenient reader reads a generated header line as its direction.
#[verifier::spinoff_prover]
proof fn lemma_header_lenient(d: Direction)
    ensures
        header_direction(header_line(d)) == Ok::<Direction, Seq<char>>(d),
{
    reveal_strlit("flowchart ");
    reveal_strlit("flowchart");
    reveal_strlit("LR");
    reveal_strlit("RL");
    reveal_strlit("TD");
    reveal_strlit("TB");
    reveal_strlit("BT");
    let h = header_line(d);
    assert(h.len() == 12);
    assert(!is_ascii_ws(h[0]));
    assert(skip_ascii_ws(h, 0) == 0);
    lemma_word_end(h, 0, 9);
    assert(h.subrange(0, 9) =~= "flowchart"@);
    assert(is_ascii_ws(h[9]));
    assert(!is_ascii_ws(h[10]));
    assert(skip_ascii_ws(h, 10) == 10);
    assert(skip_ascii_ws(h, 9) == 10);
    lemma_word_end(h, 10, 12);
    assert(h.subrange(10, 12) =~= direction_name(d));
}

/// The statements read so far, and the chain still pending, name nodes by
/// identifiers, and each edge two nodes or more.
pub open spec fn state_ids_ok(st: DState) -> bool {
    &&& forall|i: int| 0 <= i < st.stmts.len() ==> ids_ok(#[trigger] st.stmts[i])
    &&& st.pending matches Some((c, a)) ==> c.len() >= 2 && forall|i: int| 0 <= i < c.len() ==> mml_ident(
        #[trigger] c[i],
    )
}

pub proof fn lemma_ids_push(ss: Seq<SpecStmt>, x: SpecStmt)
    requires
        forall|i: int| 0 <= i < ss.len() ==> ids_ok(#[trigger] ss[i]),
        ids_ok(x),
    ensures
        forall|i: int| 0 <= i < ss.push(x).len() ==> ids_ok(#[trigger] ss.push(x)[i]),
{
    assert forall|i: int| 0 <= i < ss.push(x).len() implies ids_ok(#[trigger] ss.push(x)[i]) by {
        if i < ss.len() {
            assert(ss.push(x)[i] == ss[i]);
        }
    }
}

pub proof fn lemma_flushed_ids(st: DState)
    requires
        state_ids_ok(st),
    ensures
        forall|i: int| 0 <= i < flushed(st).len() ==> ids_ok(#[trigger] flushed(st)[i]),
{
    if let Some((c, a)) = st.pending {
        lemma_ids_push(st.stmts, SpecStmt::Edge(SpecEdge { chain: c, label: None, arrow: a }));
    }
}

#[verifier::spinoff_prover]
proof fn lemma_lenient_step_node(st: DState, n: SpecNode)
    requires
        mml_ident(n.id),
        n.label matches Some(l) && !l.contains('\n'),
        state_ids_ok(st),
    ensures
        state_ids_ok(decompile_step(st, node_lines(n)[0])),
        pending_ok(decompile_step(st, node_lines(n)[0])) || true,
        emitted(decompile_step(st, node_lines(n)[0])) == emitted(st).push(node_lines(n)[0]),
        decompile_step(st, node_lines(n)[0]).pending is None,
{
    let l = n.label->0;
    let x = shaped_label(n.id, l, n.shape);
    crate::mml::readback::lemma_node_line(n.id, l, n.shape);
    lemma_node_decl(n.id, l, n.shape);
    lemma_trim_indented(x);
    assert(node_lines(n)[0] == "  "@ + x);
    lemma_ident_solid(n.id);
    assert(x[0] == n.id[0]);
    lemma_not_comment(x);
    let n2 = node_decl_spec(x)->0;
    let st2 = DState { stmts: flushed(st).push(SpecStmt::Node(n2)), pending: None };
    assert(decompile_step(st, node_lines(n)[0]) == st2);
    lemma_flushed_ids(st);
    lemma_ids_push(flushed(st), SpecStmt::Node(n2));
    lemma_stmts_lines_push(flushed(st), SpecStmt::Node(n2));
    assert(flushed(st2) == st2.stmts);
    assert(shaped_label(n2.id, n2.label->0, n2.shape) == x);
    assert(node_lines(n2) =~= seq![node_lines(n)[0]]);
}

#[verifier::spinoff_prover]
proof fn lemma_lenient_step_chain(st: DState, c: Seq<Seq<char>>, a: Arrow)
    requires
        c.len() >= 2,
        forall|i: int| 0 <= i < c.len() ==> mml_ident(#[trigger] c[i]),
        state_ids_ok(st),
    ensures
        state_ids_ok(decompile_step(st, "  "@ + join(c, link(a)))),
        pending_ok(decompile_step(st, "  "@ + join(c, link(a)))),
        emitted(decompile_step(st, "  "@ + join(c, link(a)))) == emitted(st).push("  "@ + join(c, link(a))),
{
    let x = join(c, link(a));
    crate::mml::readback::lemma_chain_line(c, a);
    lemma_chain_line_lenient(c, a);
    lemma_trim_indented(x);
    lemma_join_first(c, link(a));
    assert(mml_ident(c[0]));
    lemma_ident_solid(c[0]);
    assert(x[0] == c[0][0]);
    lemma_not_comment(x);
    lemma_chain_hops(c, a);
    let h = chain_hops(c, a);
    assert(h[0].arrow == a);
    let st2 = DState { stmts: flushed(st), pending: Some((c, a)) };
    assert(decompile_step(st, "  "@ + x) == st2);
    lemma_flushed_ids(st);
    let e = SpecStmt::Edge(SpecEdge { chain: c, label: None, arrow: a });
    assert(flushed(st2) == flushed(st).push(e));
    lemma_stmts_lines_push(flushed(st), e);
    assert(edge_lines(SpecEdge { chain: c, label: None, arrow: a }) =~= seq!["  "@ + x]);
}

#[verifier::spinoff_prover]
proof fn lemma_hop_text_ends(x: Seq<char>, a: Arrow, l: Seq<char>, y: Seq<char>)
    requires
        mml_ident(x),
        mml_ident(y),
    ensures
        labeled_hop(x, a, l, y) == "  "@ + hop_text(x, a, l, y),
        hop_text(x, a, l, y).len() > 0,
        hop_text(x, a, l, y)[0] == x[0],
        hop_text(x, a, l, y)[0] != '%',
        !is_white_space(hop_text(x, a, l, y)[0]),
        !is_white_space(hop_text(x, a, l, y).last()),
{
    reveal_strlit("  ");
    reveal_strlit(" ");
    reveal_strlit("|");
    reveal_strlit("| ");
    lemma_ident_solid(x);
    lemma_ident_solid(y);
    let z = hop_text(x, a, l, y);
    assert(labeled_hop(x, a, l, y) =~= "  "@ + z);
    assert(z[0] == x[0]);
    assert(z.last() == y.last());
}

#[verifier::spinoff_prover]
#[verifier::rlimit(40)]
proof fn lemma_lenient_step_hop(st: DState, x: Seq<char>, a: Arrow, l: Seq<char>, y: Seq<char>)
    requires
        pending_ok(st),
        mml_ident(x),
        mml_ident(y),
        !l.contains('\n'),
        state_ids_ok(st),
    ensures
        state_ids_ok(decompile_step(st, labeled_hop(x, a, l, y))),
        decompile_step(st, labeled_hop(x, a, l, y)).pending is None,
        emitted(decompile_step(st, labeled_hop(x, a, l, y))) == emitted(st).push(labeled_hop(x, a, l, y)),
{
    let z = hop_text(x, a, l, y);
    lemma_hop_text_ends(x, a, l, y);
    lemma_hop_line_lenient(x, a, l, y);
    lemma_trim_indented(z);
    lemma_not_comment(z);
    let hops = edge_hops(z)->0;
    let h = hops[0];
    let l2 = h.label->0;
    assert(labeled_hop(x, a, l2, y) == labeled_hop(x, a, l, y));
    if can_extend(st.pending, h) {
        let p = (st.pending->0).0;
        let e2 = SpecEdge { chain: p.push(y), label: Some(l2), arrow: a };
        let st2 = DState { stmts: st.stmts.push(SpecStmt::Edge(e2)), pending: None };
        assert(decompile_step(st, labeled_hop(x, a, l, y)) == st2);
        assert forall|i: int| 0 <= i < p.push(y).len() implies mml_ident(#[trigger] p.push(y)[i]) by {
            if i < p.len() {
                assert(p.push(y)[i] == p[i]);
            }
        }
        lemma_ids_push(st.stmts, SpecStmt::Edge(e2));
        lemma_stmts_lines_push(st.stmts, SpecStmt::Edge(e2));
        let e1 = SpecEdge { chain: p, label: None, arrow: a };
        lemma_stmts_lines_push(st.stmts, SpecStmt::Edge(e1));
        assert(flushed(st) == st.stmts.push(SpecStmt::Edge(e1)));
        assert(p.push(y).take(p.len() as int) =~= p);
        assert(p.push(y)[p.len() - 1] == x);
        assert(edge_lines(e2) =~= edge_lines(e1).push(labeled_hop(x, a, l, y)));
        assert(flushed(st2) == st2.stmts);
    } else {
        let e2 = SpecEdge { chain: seq![x, y], label: Some(l2), arrow: a };
        let st2 = DState { stmts: flushed(st).push(SpecStmt::Edge(e2)), pending: None };
        assert(decompile_step(st, labeled_hop(x, a, l, y)) == st2);
        lemma_flushed_ids(st);
        assert(ids_ok(SpecStmt::Edge(e2)));
        lemma_ids_push(flushed(st), SpecStmt::Edge(e2));
        lemma_stmts_lines_push(flushed(st), SpecStmt::Edge(e2));
        assert(edge_lines(e2) =~= seq![labeled_hop(x, a, l, y)]);
        assert(flushed(st2) == st2.stmts);
    }
}

#[verifier::spinoff_prover]
proof fn lemma_lenient_fold_push(ls: Seq<Seq<char>>, m: Seq<char>)
    ensures
        decompile_fold(initial_state(), ls.push(m)) == decompile_step(decompile_fold(initial_state(), ls), m),
{
    assert(ls.push(m).drop_last() =~= ls);
}

/// The lenient reader folds the lines of readable statements into a state that emits them again.
#[verifier::spinoff_prover]
pub proof fn lemma_lenient_fold(ss: Seq<SpecStmt>)
    requires
        forall|i: int| 0 <= i < ss.len() ==> readable_stmt(#[trigger] ss[i]),
    ensures
        pending_ok(decompile_fold(initial_state(), stmts_lines(ss))),
        emitted(decompile_fold(initial_state(), stmts_lines(ss))) == stmts_lines(ss),
        state_ids_ok(decompile_fold(initial_state(), stmts_lines(ss))),
    decreases ss.len(),
{
    if ss.len() == 0 {
        assert(emitted(initial_state()) =~= Seq::<Seq<char>>::empty());
    } else {
        let prev = ss.drop_last();
        assert forall|i: int| 0 <= i < prev.len() implies readable_stmt(#[trigger] prev[i]) by {
            assert(prev[i] == ss[i]);
        }
        lemma_lenient_fold(prev);
        let lp = stmts_lines(prev);
        let st = decompile_fold(initial_state(), lp);
        let s = ss.last();
        assert(readable_stmt(ss[ss.len() - 1]));
        assert(stmts_lines(ss) == lp + stmt_lines(s));
        match s {
            SpecStmt::Node(n) => {
                if n.label is Some {
                    let m = node_lines(n)[0];
                    assert(stmt_lines(s) =~= seq![m]);
                    assert(lp + stmt_lines(s) =~= lp.push(m));
                    lemma_lenient_fold_push(lp, m);
                    lemma_lenient_step_node(st, n);
                } else {
                    assert(lp + stmt_lines(s) =~= lp);
                }
            },
            SpecStmt::Edge(e) => {
                let c = e.chain;
                let n = c.len() as int;
                match e.label {
                    None => {
                        let m = "  "@ + join(c, link(e.arrow));
                        assert(lp + stmt_lines(s) =~= lp.push(m));
                        lemma_lenient_fold_push(lp, m);
                        lemma_lenient_step_chain(st, c, e.arrow);
                    },
                    Some(l) => {
                        let hop = labeled_hop(c[n - 2], e.arrow, l, c[n - 1]);
                        assert(mml_ident(c[n - 2]) && mml_ident(c[n - 1]));
                        if n > 2 {
                            let head = c.take(n - 1);
                            let m1 = "  "@ + join(head, link(e.arrow));
                            assert forall|i: int| 0 <= i < head.len() implies mml_ident(#[trigger] head[i]) by {
                                assert(head[i] == c[i]);
                            }
                            assert(lp + stmt_lines(s) =~= lp.push(m1).push(hop));
                            lemma_lenient_fold_push(lp, m1);
                            lemma_lenient_step_chain(st, head, e.arrow);
                            lemma_lenient_fold_push(lp.push(m1), hop);
                            lemma_lenient_step_hop(decompile_fold(initial_state(), lp.push(m1)), c[n - 2], e.arrow, l, c[n - 1]);
                        } else {
                            assert(lp + stmt_lines(s) =~= lp.push(hop));
                            lemma_lenient_fold_push(lp, hop);
                            lemma_lenient_step_hop(st, c[n - 2], e.arrow, l, c[n - 1]);
                        }
                    },
                }
            },
        }
    }
}

/// `decompile` reads the Mermaid text of every readable graph as a graph whose
/// Mermaid text is the same.
#[verifier::spinoff_prover]
#[verifier::rlimit(40)]
pub proof fn lemma_decompiles_generated(g: SpecGraph)
    requires
        readable_graph(g),
    ensures
        decompile_graph(mermaid_text(g)) matches Ok(g2) && mermaid_text(g2) == mermaid_text(g)
            && forall|i: int| 0 <= i < g2.stmts.len() ==> ids_ok(#[trigger] g2.stmts[i]),
{
    let ls = mermaid_lines(g);
    let body = stmts_lines(g.stmts);
    crate::mml::readback::lemma_header(g.direction);
    lemma_header_lenient(g.direction);
    lemma_stmts_lines_plain(g.stmts);
    assert forall|i: int| 0 <= i < ls.len() implies plain_line(#[trigger] ls[i]) by {
        if i > 0 {
            assert(ls[i] == body[i - 1]);
        }
    }
    lemma_lines_of_join(ls);
    assert(lines(mermaid_text(g)) == ls);
    assert(first_nonblank(ls) == 0);
    assert(ls.skip(1) =~= body);
    lemma_lenient_fold(g.stmts);
    let st = decompile_fold(initial_state(), body);
    let g2 = SpecGraph { direction: g.direction, stmts: flushed(st) };
    lemma_flushed_ids(st);
    assert(decompile_graph(mermaid_text(g)) == Ok::<SpecGraph, Seq<char>>(g2));
    assert(mermaid_lines(g2) =~= ls);
}


/// Every identifier token is an identifier.
pub open spec fn ident_tokens_ok(toks: Seq<SpecToken>) -> bool {
    forall|i: int| 0 <= i < toks.len() ==> ((#[trigger] toks[i]).kind matches SpecTokenKind::Ident(s) ==> mml_ident(s))
}

#[verifier::spinoff_prover]
proof fn lemma_lex_ident_end(chars: Seq<char>, p: int)
    requires
        0 <= p,
    ensures
        p <= ident_end(chars, p),
        p <= chars.len() ==> ident_end(chars, p) <= chars.len(),
        forall|i: int| p <= i < ident_end(chars, p) ==> is_ident_continue_char(#[trigger] chars[i]),
    decreases chars.len() - p,
{
    if !(p >= chars.len() || !is_ident_continue_char(chars[p])) {
        lemma_lex_ident_end(chars, p + 1);
    }
}

#[verifier::spinoff_prover]
proof fn lemma_lex_idents(chars: Seq<char>, pos: int, line: int, col: int)
    ensures
        lex_from(chars, pos, line, col) matches Ok(toks) ==> ident_tokens_ok(toks),
    decreases chars.len() - pos,
{
    if !(pos < 0 || pos >= chars.len()) {
        match lex_step(chars, pos, line, col) {
            SpecStep::Skip { pos: p, line: l, col: k } => if pos < p <= chars.len() {
                lemma_lex_idents(chars, p, l, k);
            },
            SpecStep::Emit { tok, pos: p, line: l, col: k } => if pos < p <= chars.len() {
                lemma_lex_idents(chars, p, l, k);
                if tok.kind is Ident {
                    let c = chars[pos];
                    lemma_lex_ident_end(chars, pos);
                    let id = chars.subrange(pos, ident_end(chars, pos));
                    assert(tok.kind == SpecTokenKind::Ident(id));
                    assert forall|i: int| 1 <= i < id.len() implies crate::mml::parser::is_mml_ident_continue(#[trigger] id[i]) by {
                        assert(id[i] == chars[pos + i]);
                    }
                    assert(mml_ident(id));
                }
                if let Ok(ts) = lex_from(chars, p, l, k) {
                    let all = seq![tok] + ts;
                    assert forall|i: int| 0 <= i < all.len() implies ((#[trigger] all[i]).kind matches SpecTokenKind::Ident(s) ==> mml_ident(s)) by {
                        if i > 0 {
                            assert(all[i] == ts[i - 1]);
                        }
                    }
                }
            },
            SpecStep::Fail(_) => {},
        }
    }
}

#[verifier::spinoff_prover]
proof fn lemma_node_spec_ids(toks: Seq<SpecToken>, pos: int)
    requires
        ident_tokens_ok(toks),
    ensures
        parse_node_spec(toks, pos) matches Ok((n, _)) ==> mml_ident(n.id),
{
    if 0 <= pos < toks.len() {
        assert(toks[pos].kind matches SpecTokenKind::Ident(s) ==> mml_ident(s));
    }
}

#[verifier::spinoff_prover]
proof fn lemma_endpoints_ids(toks: Seq<SpecToken>, pos: int, chain: Seq<Seq<char>>, nodes: Seq<SpecStmt>)
    requires
        ident_tokens_ok(toks),
        forall|i: int| 0 <= i < chain.len() ==> mml_ident(#[trigger] chain[i]),
        forall|i: int| 0 <= i < nodes.len() ==> ids_ok(#[trigger] nodes[i]),
    ensures
        parse_endpoints(toks, pos, chain, nodes) matches Ok((c, ns, _)) ==> (forall|i: int| 0 <= i < c.len()
            ==> mml_ident(#[trigger] c[i])) && (forall|i: int| 0 <= i < ns.len() ==> ids_ok(#[trigger] ns[i])),
    decreases toks.len() - pos,
{
    if 0 <= pos < toks.len() {
        assert(toks[pos].kind matches SpecTokenKind::Ident(s) ==> mml_ident(s));
        match toks[pos].kind {
            SpecTokenKind::Ident(s) => {
                let c2 = chain.push(s);
                assert forall|i: int| 0 <= i < c2.len() implies mml_ident(#[trigger] c2[i]) by {
                    if i < chain.len() {
                        assert(c2[i] == chain[i]);
                    }
                }
                lemma_endpoints_ids(toks, pos + 1, c2, nodes);
            },
            SpecTokenKind::LParen => match parse_node_spec(toks, pos + 1) {
                Ok((n, q)) => if pos < q <= toks.len() {
                    lemma_node_spec_ids(toks, pos + 1);
                    let c2 = chain.push(n.id);
                    let n2 = nodes.push(SpecStmt::Node(n));
                    assert forall|i: int| 0 <= i < c2.len() implies mml_ident(#[trigger] c2[i]) by {
                        if i < chain.len() {
                            assert(c2[i] == chain[i]);
                        }
                    }
                    assert forall|i: int| 0 <= i < n2.len() implies ids_ok(#[trigger] n2[i]) by {
                        if i < nodes.len() {
                            assert(n2[i] == nodes[i]);
                        }
                    }
                    lemma_endpoints_ids(toks, q, c2, n2);
                },
                Err(_) => {},
            },
            _ => {},
        }
    }
}

/// The identifiers of a statement are identifiers, and an edge names two nodes or more.
pub open spec fn ids_ok(s: SpecStmt) -> bool {
    match s {
        SpecStmt::Node(n) => mml_ident(n.id),
        SpecStmt::Edge(e) => e.chain.len() >= 2 && forall|i: int| 0 <= i < e.chain.len() ==> mml_ident(#[trigger] e.chain[i]),
    }
}

#[verifier::spinoff_prover]
proof fn lemma_stmt_spec_ids(toks: Seq<SpecToken>, pos: int)
    requires
        ident_tokens_ok(toks),
    ensures
        parse_stmt_spec(toks, pos) matches Ok((ss, _)) ==> forall|i: int| 0 <= i < ss.len() ==> ids_ok(#[trigger] ss[i]),
{
    lemma_node_spec_ids(toks, pos + 1);
    if let Ok((ss, q)) = parse_stmt_spec(toks, pos) {
        if crate::pipeline::kind_is_arrow(toks, pos + 1) {
            lemma_endpoints_ids(toks, pos + 2, seq![], seq![]);
            let (chain, nodes, p) = parse_endpoints(toks, pos + 2, seq![], seq![])->Ok_0;
            assert forall|i: int| 0 <= i < ss.len() implies ids_ok(#[trigger] ss[i]) by {
                if i < nodes.len() {
                    assert(ss[i] == nodes[i]);
                }
            }
        } else {
            assert(ss.len() == 1);
        }
    }
}

#[verifier::spinoff_prover]
proof fn lemma_stmts_spec_ids(toks: Seq<SpecToken>, pos: int, acc: Seq<SpecStmt>)
    requires
        ident_tokens_ok(toks),
        forall|i: int| 0 <= i < acc.len() ==> ids_ok(#[trigger] acc[i]),
    ensures
        parse_stmts_spec(toks, pos, acc) matches Ok((ss, _)) ==> forall|i: int| 0 <= i < ss.len() ==> ids_ok(#[trigger] ss[i]),
    decreases toks.len() - pos,
{
    match kind_at(toks, pos) {
        Some(SpecTokenKind::LParen) => match parse_stmt_spec(toks, pos) {
            Ok((ss, q)) => if pos < q <= toks.len() {
                lemma_stmt_spec_ids(toks, pos);
                let next = acc + ss;
                assert forall|i: int| 0 <= i < next.len() implies ids_ok(#[trigger] next[i]) by {
                    if i < acc.len() {
                        assert(next[i] == acc[i]);
                    } else {
                        assert(next[i] == ss[i - acc.len()]);
                    }
                }
                lemma_stmts_spec_ids(toks, q, next);
            },
            Err(_) => {},
        },
        _ => {},
    }
}

/// Every graph a gph source spells names nodes by identifiers, and each edge two nodes or more.
#[verifier::spinoff_prover]
pub proof fn lemma_source_ids(src: Seq<char>)
    ensures
        lex_and_parse_spec(src) matches Ok(g) ==> forall|i: int| 0 <= i < g.stmts.len() ==> ids_ok(#[trigger] g.stmts[i]),
{
    lemma_lex_idents(src, 0, 1, 1);
    if let Ok(toks) = lex_spec(src) {
        lemma_stmts_spec_ids(toks, 3, seq![]);
    }
}

/// `decompile` reads back every Mermaid flowchart that `compile` writes for gph
/// whose labels hold no line break, as gph for a graph with the same Mermaid text.
#[verifier::spinoff_prover]
pub proof fn law_decompile_reads_compiled(src: Seq<char>)
    requires
        lex_and_parse_spec(src) matches Ok(g) && labels_one_line(g.stmts),
    ensures
        compile_spec(src) matches Ok(m) && (decompile_graph(m) matches Ok(g2) && (mermaid_text(g2) == m
            && decompile_spec(m) == Ok::<Seq<char>, Seq<char>>(print_spec(g2, false))
            && forall|i: int| 0 <= i < g2.stmts.len() ==> ids_ok(#[trigger] g2.stmts[i]))),
{
    let g = lex_and_parse_spec(src)->Ok_0;
    lemma_source_ids(src);
    assert forall|i: int| 0 <= i < g.stmts.len() implies readable_stmt(#[trigger] g.stmts[i]) by {
        assert(ids_ok(g.stmts[i]));
        assert(match g.stmts[i] {
            SpecStmt::Node(n) => n.label matches Some(l) ==> !l.contains('\n'),
            SpecStmt::Edge(e) => e.label matches Some(l) ==> !l.contains('\n'),
        });
    }
    lemma_decompiles_generated(g);
}

} // verus!
