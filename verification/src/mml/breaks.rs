//! Line breaks in MML labels on their way through Mermaid: a Mermaid statement
//! is one line, so a label's line break is written as the entity `#10;` and
//! read back as a line break.
use vstd::prelude::*;
use crate::ast::{copy_string, opt_view, EdgeDecl, Graph, NodeDecl, SpecEdge, SpecGraph, SpecNode, SpecStmt, Stmt};
use crate::text::{chars_of, first_index, lines, replace, replace_all, strip_cr, string_of, trim, trim_end, trim_start};
use crate::mermaid_parser::{bar_end, flushed, unescape_edge_label, unescape_node_label, DState, SpecHop};
use crate::mml::from_mermaid::{
    delimited_at, mml_mermaid_graph, node_shape_at, quote_end, quoted_at, strict_arrow_at, strict_edge_line,
    strict_fold, strict_node_line, strict_step, tail_hops,
};
use crate::mml::readback::labels_one_line;

verus! {

/// The entity that stands for a line break in a Mermaid label.
pub open spec fn break_entity() -> Seq<char> {
    seq!['#', '1', '0', ';']
}

/// A label with each line break written as `#10;`.
pub open spec fn escape_breaks(l: Seq<char>) -> Seq<char> {
    replace(l, seq!['\n'], break_entity())
}

/// A label with each `#10;` read as a line break.
pub open spec fn unescape_breaks(l: Seq<char>) -> Seq<char> {
    replace(l, break_entity(), seq!['\n'])
}

/// A label with its line breaks written (`esc`) or read back.
pub open spec fn label_breaks(o: Option<Seq<char>>, esc: bool) -> Option<Seq<char>> {
    match o {
        Some(l) => Some(if esc { escape_breaks(l) } else { unescape_breaks(l) }),
        None => None,
    }
}

/// A statement with its label's line breaks written or read back.
pub open spec fn stmt_breaks(s: SpecStmt, esc: bool) -> SpecStmt {
    match s {
        SpecStmt::Node(n) => SpecStmt::Node(SpecNode { id: n.id, label: label_breaks(n.label, esc), shape: n.shape }),
        SpecStmt::Edge(e) => SpecStmt::Edge(SpecEdge { chain: e.chain, label: label_breaks(e.label, esc), arrow: e.arrow }),
    }
}

/// A graph with the line breaks of its labels written (`esc`) or read back.
pub open spec fn graph_breaks(g: SpecGraph, esc: bool) -> SpecGraph {
    SpecGraph { direction: g.direction, stmts: g.stmts.map_values(|s: SpecStmt| stmt_breaks(s, esc)) }
}

/// Writing the line breaks of a label without any gives back what reading took.
pub proof fn lemma_escape_unescape(l: Seq<char>)
    requires
        !l.contains('\n'),
    ensures
        escape_breaks(unescape_breaks(l)) == l,
    decreases l.len(),
{
    let p = break_entity();
    if l.len() > 0 {
        if 0 < p.len() <= l.len() && l.take(p.len() as int) == p {
            let rest = l.skip(4);
            assert(!rest.contains('\n')) by {
                if rest.contains('\n') {
                    let j = choose|j: int| 0 <= j < rest.len() && rest[j] == '\n';
                    assert(l[j + 4] == '\n');
                }
            }
            lemma_escape_unescape(rest);
            let u = unescape_breaks(rest);
            assert(unescape_breaks(l) == seq!['\n'] + u);
            let t = seq!['\n'] + u;
            assert(t.take(1) =~= seq!['\n']);
            assert(t.skip(1) =~= u);
            assert(escape_breaks(t) == p + escape_breaks(u));
            assert(l =~= p + rest);
        } else {
            let rest = l.skip(1);
            assert(!rest.contains('\n')) by {
                if rest.contains('\n') {
                    let j = choose|j: int| 0 <= j < rest.len() && rest[j] == '\n';
                    assert(l[j + 1] == '\n');
                }
            }
            lemma_escape_unescape(rest);
            let u = unescape_breaks(rest);
            assert(unescape_breaks(l) == seq![l[0]] + u);
            let t = seq![l[0]] + u;
            assert(l[0] != '\n');
            assert(t.take(1) =~= seq![l[0]]);
            assert(t.take(1) != seq!['\n']) by {
                assert(t.take(1)[0] != seq!['\n'][0]);
            }
            assert(t.skip(1) =~= u);
            assert(escape_breaks(t) == seq![l[0]] + escape_breaks(u));
            assert(l =~= seq![l[0]] + rest);
        }
    }
}

/// A written label holds no line break.
pub proof fn lemma_escaped_one_line(l: Seq<char>)
    ensures
        !escape_breaks(l).contains('\n'),
{
    crate::readback::lemma_replace_removes(l, '\n', break_entity());
}

fn map_label(l: &Option<String>, esc: bool) -> (r: Option<String>)
    ensures
        opt_view(r) == label_breaks(opt_view(*l), esc),
{
    match l {
        None => None,
        Some(s) => {
            let v = chars_of(s.as_str());
            let nl: Vec<char> = vec!['\n'];
            let ent: Vec<char> = vec!['#', '1', '0', ';'];
            proof {
                assert(nl@ =~= seq!['\n']);
                assert(ent@ =~= break_entity());
            }
            let out = if esc {
                replace_all(v.as_slice(), nl.as_slice(), ent.as_slice())
            } else {
                replace_all(v.as_slice(), ent.as_slice(), nl.as_slice())
            };
            Some(string_of(out.as_slice()))
        },
    }
}

/// The graph with the line breaks of its labels written as `#10;` (`esc`) or
/// `#10;` read back as line breaks.
pub fn map_breaks(graph: &Graph, esc: bool) -> (r: Graph)
    ensures
        r@ == graph_breaks(graph@, esc),
{
    let n = graph.stmts.len();
    let mut stmts: Vec<Stmt> = Vec::new();
    let mut i: usize = 0;
    while i < n
        invariant
            i <= n,
            n == graph.stmts@.len(),
            stmts@.len() == i,
            forall|k: int| 0 <= k < i ==> (#[trigger] stmts@[k])@ == stmt_breaks(graph.stmts@[k]@, esc),
        decreases n - i,
    {
        let s = match &graph.stmts[i] {
            Stmt::Node(nd) => Stmt::Node(
                NodeDecl { id: copy_string(&nd.id), label: map_label(&nd.label, esc), shape: nd.shape },
            ),
            Stmt::Edge(e) => {
                let c = e.chain.len();
                let mut chain: Vec<String> = Vec::new();
                let mut k: usize = 0;
                while k < c
                    invariant
                        k <= c,
                        c == e.chain@.len(),
                        chain@.len() == k,
                        forall|t: int| 0 <= t < k ==> (#[trigger] chain@[t])@ == e.chain@[t]@,
                    decreases c - k,
                {
                    chain.push(copy_string(&e.chain[k]));
                    k += 1;
                }
                let d = EdgeDecl { chain: chain, label: map_label(&e.label, esc), arrow: e.arrow };
                proof {
                    assert(d@.chain =~= e@.chain);
                }
                Stmt::Edge(d)
            },
        };
        stmts.push(s);
        i += 1;
    }
    let r = Graph { direction: graph.direction, stmts: stmts };
    proof {
        assert(r@.stmts =~= graph_breaks(graph@, esc).stmts);
    }
    r
}

proof fn lemma_sub_one_line(l: Seq<char>, a: int, b: int)
    requires
        !l.contains('\n'),
        0 <= a <= b <= l.len(),
    ensures
        !l.subrange(a, b).contains('\n'),
{
    if l.subrange(a, b).contains('\n') {
        let j = choose|j: int| 0 <= j < b - a && l.subrange(a, b)[j] == '\n';
        assert(l[a + j] == '\n');
    }
}

proof fn lemma_lines_one_line(s: Seq<char>)
    ensures
        forall|i: int| 0 <= i < lines(s).len() ==> !(#[trigger] lines(s)[i]).contains('\n'),
    decreases s.len(),
{
    if s.len() > 0 {
        let k = first_index(s, '\n');
        crate::text::lemma_first_index_bound(s, '\n');
        if k >= s.len() {
            assert(lines(s) == seq![s]);
            assert(!s.contains('\n'));
        } else {
            let head = s.take(k as int);
            assert(!head.contains('\n'));
            let h = strip_cr(head);
            assert(!h.contains('\n')) by {
                if head.len() > 0 && head.last() == '\r' {
                    lemma_sub_one_line(head, 0, head.len() - 1);
                    assert(head.subrange(0, head.len() - 1) =~= head.drop_last());
                }
            }
            lemma_lines_one_line(s.skip(k + 1 as int));
            let rest = lines(s.skip(k + 1 as int));
            assert(lines(s) == seq![h] + rest);
            assert forall|i: int| 0 <= i < lines(s).len() implies !(#[trigger] lines(s)[i]).contains('\n') by {
                if i > 0 {
                    assert(lines(s)[i] == rest[i - 1]);
                }
            }
        }
    }
}

proof fn lemma_trim_one_line(l: Seq<char>)
    requires
        !l.contains('\n'),
    ensures
        !trim_start(l).contains('\n'),
        !trim_end(l).contains('\n'),
        !trim(l).contains('\n'),
    decreases l.len(),
{
    if l.len() > 0 {
        lemma_sub_one_line(l, 1, l.len() as int);
        assert(l.subrange(1, l.len() as int) =~= l.skip(1));
        lemma_sub_one_line(l, 0, l.len() - 1);
        assert(l.subrange(0, l.len() - 1) =~= l.drop_last());
        lemma_trim_one_line(l.skip(1));
        lemma_trim_one_line(l.drop_last());
    }
    lemma_trim_end_one_line(trim_start(l));
}

proof fn lemma_trim_end_one_line(l: Seq<char>)
    requires
        !l.contains('\n'),
    ensures
        !trim_end(l).contains('\n'),
    decreases l.len(),
{
    if l.len() > 0 {
        lemma_sub_one_line(l, 0, l.len() - 1);
        assert(l.subrange(0, l.len() - 1) =~= l.drop_last());
        lemma_trim_end_one_line(l.drop_last());
    }
}

proof fn lemma_unescapes_one_line(t: Seq<char>)
    requires
        !t.contains('\n'),
    ensures
        !unescape_node_label(t).contains('\n'),
        !unescape_edge_label(t).contains('\n'),
{
    reveal_strlit("\"");
    reveal_strlit("|");
    assert(!"\""@.contains('\n')) by {
        assert forall|i: int| 0 <= i < "\""@.len() implies "\""@[i] != '\n' by {}
    }
    assert(!"|"@.contains('\n')) by {
        assert forall|i: int| 0 <= i < "|"@.len() implies "|"@[i] != '\n' by {}
    }
    crate::readback::lemma_replace_lacks(t, "#quot;"@, "\""@, '\n');
    crate::readback::lemma_replace_lacks(t, "#124;"@, "|"@, '\n');
    crate::readback::lemma_replace_lacks(replace(t, "#124;"@, "|"@), "#quot;"@, "\""@, '\n');
}

proof fn lemma_quote_end_ge(l: Seq<char>, p: int)
    requires
        0 <= p,
    ensures
        quote_end(l, p) >= p,
    decreases l.len() - p,
{
    if 0 <= p < l.len() && l[p] != '"' {
        lemma_quote_end_ge(l, p + 1);
    }
}

proof fn lemma_bar_end_ge(l: Seq<char>, p: int)
    requires
        0 <= p,
    ensures
        bar_end(l, p) >= p,
    decreases l.len() - p,
{
    if 0 <= p < l.len() && l[p] != '|' {
        lemma_bar_end_ge(l, p + 1);
    }
}

proof fn lemma_quoted_one_line(l: Seq<char>, p: int)
    requires
        !l.contains('\n'),
    ensures
        quoted_at(l, p) matches Some((t, _)) ==> !t.contains('\n'),
{
    if 0 <= p < l.len() && l[p] == '"' && quote_end(l, p + 1) < l.len() {
        lemma_quote_end_ge(l, p + 1);
        lemma_sub_one_line(l, p + 1, quote_end(l, p + 1));
        lemma_unescapes_one_line(l.subrange(p + 1, quote_end(l, p + 1)));
    }
}

proof fn lemma_delimited_one_line(l: Seq<char>, p: int, o: Seq<char>, c: Seq<char>)
    requires
        !l.contains('\n'),
    ensures
        delimited_at(l, p, o, c) matches Some((t, _)) ==> !t.contains('\n'),
{
    lemma_quoted_one_line(l, p + o.len());
}

proof fn lemma_node_line_one_line(l: Seq<char>)
    requires
        !l.contains('\n'),
    ensures
        strict_node_line(l) matches Some(n) ==> (n.label matches Some(t) ==> !t.contains('\n')),
{
    if let Some((id, p)) = crate::mml::parser::ident_at(l, 0) {
        lemma_delimited_one_line(l, p, "[["@, "]]"@);
        lemma_delimited_one_line(l, p, "(["@, "])"@);
        lemma_delimited_one_line(l, p, "{{"@, "}}"@);
        lemma_delimited_one_line(l, p, "["@, "]"@);
        lemma_delimited_one_line(l, p, "("@, ")"@);
        lemma_delimited_one_line(l, p, "{"@, "}"@);
    }
}

/// Every hop's label holds no line break.
pub open spec fn hops_one_line(hops: Seq<SpecHop>) -> bool {
    forall|i: int| 0 <= i < hops.len() ==> ((#[trigger] hops[i]).label matches Some(t) ==> !t.contains('\n'))
}

proof fn lemma_arrow_one_line(l: Seq<char>, p: int)
    requires
        !l.contains('\n'),
    ensures
        strict_arrow_at(l, p) matches Some((_, Some(t), _)) ==> !t.contains('\n'),
{
    match crate::mermaid_parser::link_at(l, p) {
        None => {},
        Some((a, n)) => {
            let q = p + n;
            if 0 <= q < l.len() && l[q] == '|' && bar_end(l, q + 1) < l.len() {
                lemma_bar_end_ge(l, q + 1);
                lemma_sub_one_line(l, q + 1, bar_end(l, q + 1));
                lemma_unescapes_one_line(l.subrange(q + 1, bar_end(l, q + 1)));
            }
        },
    }
}

proof fn lemma_tail_one_line(l: Seq<char>, pos: int, last: Seq<char>, hops: Seq<SpecHop>)
    requires
        !l.contains('\n'),
        hops_one_line(hops),
    ensures
        hops_one_line(tail_hops(l, pos, last, hops).0),
        tail_hops(l, pos, last, hops).0.len() >= hops.len(),
    decreases l.len() - pos,
{
    let w = crate::mermaid_parser::ws_end(l, pos);
    lemma_arrow_one_line(l, w);
    match strict_arrow_at(l, w) {
        None => {},
        Some((a, label, q)) => match crate::mml::parser::ident_at(l, crate::mermaid_parser::ws_end(l, q)) {
            None => {},
            Some((id, s)) => if pos < s <= l.len() {
                let h = SpecHop { from: last, arrow: a, to: id, label };
                assert(hops_one_line(hops.push(h))) by {
                    assert forall|i: int| 0 <= i < hops.push(h).len() implies ((#[trigger] hops.push(h)[i]).label matches Some(t)
                        ==> !t.contains('\n')) by {
                        if i < hops.len() {
                            assert(hops.push(h)[i] == hops[i]);
                        }
                    }
                }
                lemma_tail_one_line(l, s, id, hops.push(h));
            },
        },
    }
}

proof fn lemma_edge_line_one_line(l: Seq<char>)
    requires
        !l.contains('\n'),
    ensures
        strict_edge_line(l) matches Some(hops) ==> hops_one_line(hops) && hops.len() >= 1,
{
    match crate::mml::parser::ident_at(l, 0) {
        None => {},
        Some((from, p)) => {
            lemma_arrow_one_line(l, crate::mermaid_parser::ws_end(l, p));
            match strict_arrow_at(l, crate::mermaid_parser::ws_end(l, p)) {
                None => {},
                Some((a, label, q)) => match crate::mml::parser::ident_at(l, crate::mermaid_parser::ws_end(l, q)) {
                    None => {},
                    Some((to, s)) => {
                        let h0 = seq![SpecHop { from, arrow: a, to, label }];
                        assert(hops_one_line(h0)) by {
                            assert forall|i: int| 0 <= i < h0.len() implies ((#[trigger] h0[i]).label matches Some(t)
                                ==> !t.contains('\n')) by {}
                        }
                        lemma_tail_one_line(l, s, to, h0);
                    },
                },
            }
        },
    }
}

proof fn lemma_push_one_line(ss: Seq<SpecStmt>, x: SpecStmt)
    requires
        labels_one_line(ss),
        labels_one_line(seq![x]),
    ensures
        labels_one_line(ss.push(x)),
{
    assert forall|i: int| 0 <= i < ss.push(x).len() implies match #[trigger] ss.push(x)[i] {
        SpecStmt::Node(n) => n.label matches Some(l) ==> !l.contains('\n'),
        SpecStmt::Edge(e) => e.label matches Some(l) ==> !l.contains('\n'),
    } by {
        if i < ss.len() {
            assert(ss.push(x)[i] == ss[i]);
        } else {
            assert(ss.push(x)[i] == seq![x][0]);
        }
    }
}

proof fn lemma_step_one_line(st: DState, raw: Seq<char>, no: nat)
    requires
        !raw.contains('\n'),
        labels_one_line(st.stmts),
    ensures
        strict_step(st, raw, no) matches Ok(st2) ==> labels_one_line(st2.stmts),
{
    let line = trim(raw);
    lemma_trim_one_line(raw);
    lemma_node_line_one_line(line);
    lemma_edge_line_one_line(line);
    assert(labels_one_line(flushed(st))) by {
        if let Some((c, a)) = st.pending {
            let e = SpecStmt::Edge(SpecEdge { chain: c, label: None, arrow: a });
            assert(labels_one_line(seq![e]));
            lemma_push_one_line(st.stmts, e);
        }
    }
    if strict_step(st, raw, no) is Ok {
        let st2 = strict_step(st, raw, no)->Ok_0;
        if line.len() == 0 || crate::text::starts_with(line, "%%"@) {
        } else if let Some(node) = strict_node_line(line) {
            let x = SpecStmt::Node(node);
            assert(labels_one_line(seq![x]));
            lemma_push_one_line(flushed(st), x);
            assert(labels_one_line(st2.stmts));
        } else {
            let hops = strict_edge_line(line)->0;
            assert(hops_one_line(hops));
            if hops.len() == 1 && hops[0].label is Some {
                let h = hops[0];
                let x = crate::mermaid_parser::edge_stmt(seq![h.from, h.to], h.arrow, h.label);
                assert(labels_one_line(seq![x]));
                if crate::mermaid_parser::can_extend(st.pending, h) {
                    let y = crate::mermaid_parser::edge_stmt((st.pending->0).0.push(h.to), h.arrow, h.label);
                    assert(labels_one_line(seq![y]));
                    lemma_push_one_line(st.stmts, y);
                    assert(labels_one_line(st2.stmts));
                } else {
                    lemma_push_one_line(flushed(st), x);
                    assert(labels_one_line(st2.stmts));
                }
            } else if hops.len() > 0 {
                let last = hops[hops.len() - 1];
                assert(hops.last() == last);
                let x = crate::mermaid_parser::edge_stmt(
                    crate::mermaid_parser::hop_chain(hops),
                    hops[0].arrow,
                    last.label,
                );
                assert(labels_one_line(seq![x]));
                lemma_push_one_line(flushed(st), x);
                assert(labels_one_line(st2.stmts));
            } else {
                assert(labels_one_line(st2.stmts));
            }
        }
    }
}

proof fn lemma_fold_one_line(ls: Seq<Seq<char>>, first: nat)
    requires
        forall|i: int| 0 <= i < ls.len() ==> !(#[trigger] ls[i]).contains('\n'),
    ensures
        strict_fold(ls, first) matches Ok(st) ==> labels_one_line(st.stmts),
    decreases ls.len(),
{
    if ls.len() > 0 {
        let d = ls.drop_last();
        assert forall|i: int| 0 <= i < d.len() implies !(#[trigger] d[i]).contains('\n') by {
            assert(d[i] == ls[i]);
        }
        lemma_fold_one_line(d, first);
        if let Ok(st) = strict_fold(d, first) {
            assert(ls[ls.len() - 1] == ls.last());
            lemma_step_one_line(st, ls.last(), (first + ls.len() - 1) as nat);
        }
    } else {
        assert(labels_one_line(Seq::<SpecStmt>::empty()));
    }
}

/// No label the Mermaid reader gives back holds a line break: every statement
/// stands on one line.
pub proof fn lemma_read_labels_one_line(src: Seq<char>)
    ensures
        mml_mermaid_graph(src) matches Ok(g) ==> labels_one_line(g.stmts),
{
    let ls = lines(src);
    lemma_lines_one_line(src);
    let k = crate::mermaid_parser::first_nonblank(ls);
    if mml_mermaid_graph(src) is Ok {
        let rest = ls.skip(k + 1 as int);
        assert forall|i: int| 0 <= i < rest.len() implies !(#[trigger] rest[i]).contains('\n') by {
            assert(rest[i] == ls[k + 1 + i]);
        }
        lemma_fold_one_line(rest, (k + 2) as nat);
        let st = strict_fold(rest, (k + 2) as nat)->Ok_0;
        if let Some((c, a)) = st.pending {
            let e = SpecStmt::Edge(SpecEdge { chain: c, label: None, arrow: a });
            assert(labels_one_line(seq![e]));
            lemma_push_one_line(st.stmts, e);
        }
    }
}

/// Reading back the line breaks of one-line labels and writing them again
/// gives the graph back.
pub proof fn lemma_breaks_back(g: SpecGraph)
    requires
        labels_one_line(g.stmts),
    ensures
        graph_breaks(graph_breaks(g, false), true) == g,
{
    let g3 = graph_breaks(g, false);
    assert forall|i: int| 0 <= i < g.stmts.len() implies #[trigger] graph_breaks(g3, true).stmts[i] == g.stmts[i] by {
        let s = g.stmts[i];
        assert(g3.stmts[i] == stmt_breaks(s, false));
        match s {
            SpecStmt::Node(n) => {
                if let Some(l) = n.label {
                    lemma_escape_unescape(l);
                }
            },
            SpecStmt::Edge(e) => {
                if let Some(l) = e.label {
                    lemma_escape_unescape(l);
                }
            },
        }
    }
    assert(graph_breaks(g3, true).stmts =~= g.stmts);
}

/// Writing or reading line breaks keeps the identifiers.
pub proof fn lemma_breaks_ids(g: SpecGraph, esc: bool)
    requires
        forall|i: int| 0 <= i < g.stmts.len() ==> crate::gph_readback::ids_ok(#[trigger] g.stmts[i]),
    ensures
        forall|i: int| 0 <= i < graph_breaks(g, esc).stmts.len() ==> crate::gph_readback::ids_ok(
            #[trigger] graph_breaks(g, esc).stmts[i],
        ),
{
    assert forall|i: int| 0 <= i < graph_breaks(g, esc).stmts.len() implies crate::gph_readback::ids_ok(
        #[trigger] graph_breaks(g, esc).stmts[i],
    ) by {
        assert(crate::gph_readback::ids_ok(g.stmts[i]));
    }
}

/// Writing or reading line breaks commutes with the parser's normal form.
pub proof fn lemma_breaks_reparsed(g: SpecGraph, esc: bool)
    ensures
        graph_breaks(crate::reparse::reparsed(g), esc) == crate::reparse::reparsed(graph_breaks(g, esc)),
{
    assert(graph_breaks(crate::reparse::reparsed(g), esc).stmts =~= crate::reparse::reparsed(graph_breaks(g, esc)).stmts);
}

} // verus!
