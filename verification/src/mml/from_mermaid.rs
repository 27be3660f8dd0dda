//! Strict reader of the Mermaid flowchart subset that MML can represent.
//!
//! Every non-blank line after the `flowchart <DIR>` header must be a `%%`
//! comment, a node declaration or an edge chain; anything else is an error
//! rather than being skipped, and chains MML cannot represent are refused.
use vstd::prelude::*;
use crate::ast::{opt_view, strings_view, Arrow, Direction, EdgeDecl, Graph, NodeDecl, Shape, SpecEdge, SpecGraph, SpecNode, SpecStmt, Stmt, stmts_view};
use crate::mermaid_parser::{
    bar_end, can_extend, chars_opt_view, edge_stmt, first_nonblank, flushed, has_at, hop_chain, hops_view,
    initial_state, link_at, state_view, unescape_edge_label, unescape_node_label, ws_end, DState, Hop,
    SpecHop, copy_chars, eat_ws, flush_pending, has_text_at, last_is, link_at_exec, opt_string,
    strings_of_chars, unescape_edge, unescape_node,
};
use crate::mml::parser::{ident, ident_at};
use crate::mml::Error;
use crate::text::{append_str, chars_of, decimal, lines, push_all, push_decimal, replace, slice_chars, starts_with, string_of, trim, trim_chars, split_lines};

verus! {

/// The message of a Mermaid error on a line.
pub open spec fn mermaid_error(line: nat, message: Seq<char>) -> Seq<char> {
    "Mermaid parse error on line "@ + decimal(line) + ": "@ + message
}

pub open spec fn invalid_syntax() -> Seq<char> {
    "invalid or unsupported Mermaid syntax"@
}

pub open spec fn mixed_arrows() -> Seq<char> {
    "mixed arrow styles cannot be represented by MML"@
}

pub open spec fn inner_label() -> Seq<char> {
    "only a chain's final edge may have a label in MML"@
}

/// The first `"` at or after `p`, or the end of the line.
pub open spec fn quote_end(l: Seq<char>, p: int) -> int
    decreases l.len() - p,
{
    if 0 <= p < l.len() && l[p] != '"' {
        quote_end(l, p + 1)
    } else {
        p
    }
}

/// A quoted label at `p`, with `#quot;` read as `"`, and the position after it.
pub open spec fn quoted_at(l: Seq<char>, p: int) -> Option<(Seq<char>, int)> {
    if 0 <= p < l.len() && l[p] == '"' && quote_end(l, p + 1) < l.len() {
        Some((unescape_node_label(l.subrange(p + 1, quote_end(l, p + 1))), quote_end(l, p + 1) + 1))
    } else {
        None
    }
}

/// A quoted label between `open` and `close` at `p`, and the position after it.
pub open spec fn delimited_at(l: Seq<char>, p: int, open: Seq<char>, close: Seq<char>) -> Option<(Seq<char>, int)> {
    if has_at(l, p, open) {
        match quoted_at(l, p + open.len()) {
            Some((label, q)) => if has_at(l, q, close) {
                Some((label, q + close.len()))
            } else {
                None
            },
            None => None,
        }
    } else {
        None
    }
}

/// The first of the shape forms that reads at `p`, longest delimiters first.
pub open spec fn node_shape_at(l: Seq<char>, p: int) -> Option<(Shape, Seq<char>, int)> {
    if let Some((t, q)) = delimited_at(l, p, "[["@, "]]"@) {
        Some((Shape::Sub, t, q))
    } else if let Some((t, q)) = delimited_at(l, p, "(["@, "])"@) {
        Some((Shape::Stadium, t, q))
    } else if let Some((t, q)) = delimited_at(l, p, "{{"@, "}}"@) {
        Some((Shape::Hex, t, q))
    } else if let Some((t, q)) = delimited_at(l, p, "["@, "]"@) {
        Some((Shape::Box, t, q))
    } else if let Some((t, q)) = delimited_at(l, p, "("@, ")"@) {
        Some((Shape::Round, t, q))
    } else if let Some((t, q)) = delimited_at(l, p, "{"@, "}"@) {
        Some((Shape::Diamond, t, q))
    } else {
        None
    }
}

/// A whole line that declares a node: an identifier, a shaped label, trailing blanks.
pub open spec fn strict_node_line(l: Seq<char>) -> Option<SpecNode> {
    match ident_at(l, 0) {
        None => None,
        Some((id, p)) => match node_shape_at(l, p) {
            None => None,
            Some((shape, label, q)) => if ws_end(l, q) == l.len() {
                Some(SpecNode { id, label: Some(label), shape })
            } else {
                None
            },
        },
    }
}

/// A link at `p` with an optional closed `|label|`, and the position after them.
pub open spec fn strict_arrow_at(l: Seq<char>, p: int) -> Option<(Arrow, Option<Seq<char>>, int)> {
    match link_at(l, p) {
        None => None,
        Some((a, n)) => {
            let q = p + n;
            if 0 <= q < l.len() && l[q] == '|' && bar_end(l, q + 1) < l.len() {
                Some((a, Some(unescape_edge_label(l.subrange(q + 1, bar_end(l, q + 1)))), bar_end(l, q + 1) + 1))
            } else {
                Some((a, None, q))
            }
        },
    }
}

/// Hops after `pos` (each: blanks, a link, blanks, an identifier) appended to
/// `hops`, and the position where the last one ends; `last` is the previous target.
pub open spec fn tail_hops(l: Seq<char>, pos: int, last: Seq<char>, hops: Seq<SpecHop>) -> (Seq<SpecHop>, int)
    decreases l.len() - pos,
{
    match strict_arrow_at(l, ws_end(l, pos)) {
        None => (hops, pos),
        Some((a, label, q)) => match ident_at(l, ws_end(l, q)) {
            None => (hops, pos),
            Some((id, s)) => if pos < s <= l.len() {
                tail_hops(l, s, id, hops.push(SpecHop { from: last, arrow: a, to: id, label }))
            } else {
                (hops, pos)
            },
        },
    }
}

/// A whole line that is an edge chain: `<id> <link> <id>` and further hops, to its end.
pub open spec fn strict_edge_line(l: Seq<char>) -> Option<Seq<SpecHop>> {
    match ident_at(l, 0) {
        None => None,
        Some((from, p)) => match strict_arrow_at(l, ws_end(l, p)) {
            None => None,
            Some((a, label, q)) => match ident_at(l, ws_end(l, q)) {
                None => None,
                Some((to, s)) => {
                    let (hops, e) = tail_hops(l, s, to, seq![SpecHop { from, arrow: a, to, label }]);
                    if e == l.len() {
                        Some(hops)
                    } else {
                        None
                    }
                },
            },
        },
    }
}

/// The direction of a whole `flowchart <DIR>` header line (`TB` reads as `TD`).
pub open spec fn strict_header(l: Seq<char>) -> Option<Direction> {
    let p = ws_end(l, 9);
    if !has_at(l, 0, "flowchart"@) || p == 9 {
        None
    } else {
        let d = if has_at(l, p, "LR"@) {
            Some(Direction::LR)
        } else if has_at(l, p, "RL"@) {
            Some(Direction::RL)
        } else if has_at(l, p, "TD"@) || has_at(l, p, "TB"@) {
            Some(Direction::TD)
        } else if has_at(l, p, "BT"@) {
            Some(Direction::BT)
        } else {
            None
        };
        if d is Some && ws_end(l, p + 2) == l.len() {
            d
        } else {
            None
        }
    }
}

/// Whether every hop uses `a`.
pub open spec fn same_arrow(hops: Seq<SpecHop>, a: Arrow) -> bool {
    forall|i: int| 0 <= i < hops.len() ==> (#[trigger] hops[i]).arrow == a
}

/// Whether no hop but the last has a label.
pub open spec fn only_last_labelled(hops: Seq<SpecHop>) -> bool {
    forall|i: int| 0 <= i < hops.len() - 1 ==> (#[trigger] hops[i]).label is None
}

/// The state after line `raw`, numbered `line_no`, or the error it raises.
pub open spec fn strict_step(st: DState, raw: Seq<char>, line_no: nat) -> Result<DState, Seq<char>> {
    let line = trim(raw);
    if line.len() == 0 || starts_with(line, "%%"@) {
        Ok(st)
    } else if let Some(node) = strict_node_line(line) {
        Ok(DState { stmts: flushed(st).push(SpecStmt::Node(node)), pending: None })
    } else {
        match strict_edge_line(line) {
            None => Err(mermaid_error(line_no, invalid_syntax())),
            Some(hops) => if hops.len() == 1 && hops[0].label is Some {
                let h = hops[0];
                if can_extend(st.pending, h) {
                    Ok(
                        DState {
                            stmts: st.stmts.push(edge_stmt((st.pending->0).0.push(h.to), h.arrow, h.label)),
                            pending: None,
                        },
                    )
                } else {
                    Ok(
                        DState {
                            stmts: flushed(st).push(edge_stmt(seq![h.from, h.to], h.arrow, h.label)),
                            pending: None,
                        },
                    )
                }
            } else if !same_arrow(hops, hops[0].arrow) {
                Err(mermaid_error(line_no, mixed_arrows()))
            } else if !only_last_labelled(hops) {
                Err(mermaid_error(line_no, inner_label()))
            } else {
                let chain = hop_chain(hops);
                let arrow = hops[0].arrow;
                match hops.last().label {
                    Some(l) => Ok(
                        DState { stmts: flushed(st).push(edge_stmt(chain, arrow, Some(l))), pending: None },
                    ),
                    None => Ok(DState { stmts: flushed(st), pending: Some((chain, arrow)) }),
                }
            },
        }
    }
}

/// The state after the lines `ls`, the first of them numbered `first`, or the first error.
pub open spec fn strict_fold(ls: Seq<Seq<char>>, first: nat) -> Result<DState, Seq<char>>
    decreases ls.len(),
{
    if ls.len() == 0 {
        Ok(initial_state())
    } else {
        match strict_fold(ls.drop_last(), first) {
            Err(e) => Err(e),
            Ok(st) => strict_step(st, ls.last(), (first + ls.len() - 1) as nat),
        }
    }
}

/// The graph of a Mermaid flowchart in the MML subset, or the error message.
pub open spec fn mml_mermaid_graph(src: Seq<char>) -> Result<SpecGraph, Seq<char>> {
    let ls = lines(src);
    let k = first_nonblank(ls);
    if k >= ls.len() {
        Err(mermaid_error(1, "empty input"@))
    } else {
        match strict_header(trim(ls[k as int])) {
            None => Err(mermaid_error(k + 1, invalid_syntax())),
            Some(direction) => match strict_fold(ls.skip(k + 1 as int), k + 2) {
                Err(e) => Err(e),
                Ok(st) => Ok(SpecGraph { direction, stmts: flushed(st) }),
            },
        }
    }
}


fn quoted(l: &Vec<char>, p: usize) -> (r: Option<(Vec<char>, usize)>)
    requires
        p <= l@.len(),
    ensures
        match r {
            Some((t, q)) => quoted_at(l@, p as int) == Some((t@, q as int)) && p < q <= l@.len(),
            None => quoted_at(l@, p as int) is None,
        },
{
    if p >= l.len() || l[p] != '"' {
        return None;
    }
    let mut e = p + 1;
    while e < l.len() && l[e] != '"'
        invariant
            p + 1 <= e <= l@.len(),
            quote_end(l@, p + 1) == quote_end(l@, e as int),
        decreases l@.len() - e,
    {
        e += 1;
    }
    if e >= l.len() {
        return None;
    }
    let raw = slice_chars(l.as_slice(), p + 1, e);
    Some((unescape_node(raw.as_slice()), e + 1))
}

fn delimited(l: &Vec<char>, p: usize, open: &str, close: &str) -> (r: Option<(Vec<char>, usize)>)
    requires
        p <= l@.len(),
    ensures
        match r {
            Some((t, q)) => delimited_at(l@, p as int, open@, close@) == Some((t@, q as int)) && p < q
                <= l@.len(),
            None => delimited_at(l@, p as int, open@, close@) is None,
        },
{
    let n = l.len();
    let o = chars_of(open);
    if !crate::text::matches_at(l.as_slice(), p, o.as_slice()) {
        return None;
    }
    let (t, q) = quoted(l, p + o.len())?;
    let c = chars_of(close);
    if !crate::text::matches_at(l.as_slice(), q, c.as_slice()) {
        return None;
    }
    assert(q + c@.len() <= n);
    Some((t, q + c.len()))
}

fn node_shape(l: &Vec<char>, p: usize) -> (r: Option<(Shape, Vec<char>, usize)>)
    requires
        p <= l@.len(),
    ensures
        match r {
            Some((sh, t, q)) => node_shape_at(l@, p as int) == Some((sh, t@, q as int)) && p < q <= l@.len(),
            None => node_shape_at(l@, p as int) is None,
        },
{
    if let Some((t, q)) = delimited(l, p, "[[", "]]") {
        Some((Shape::Sub, t, q))
    } else if let Some((t, q)) = delimited(l, p, "([", "])") {
        Some((Shape::Stadium, t, q))
    } else if let Some((t, q)) = delimited(l, p, "{{", "}}") {
        Some((Shape::Hex, t, q))
    } else if let Some((t, q)) = delimited(l, p, "[", "]") {
        Some((Shape::Box, t, q))
    } else if let Some((t, q)) = delimited(l, p, "(", ")") {
        Some((Shape::Round, t, q))
    } else if let Some((t, q)) = delimited(l, p, "{", "}") {
        Some((Shape::Diamond, t, q))
    } else {
        None
    }
}

fn node_line(l: &Vec<char>) -> (r: Option<NodeDecl>)
    ensures
        match r {
            Some(nd) => strict_node_line(l@) == Some(nd@),
            None => strict_node_line(l@) is None,
        },
{
    let (id, p) = ident(l, 0)?;
    let (shape, t, q) = node_shape(l, p)?;
    if eat_ws(l, q) == l.len() {
        Some(NodeDecl { id: string_of(id.as_slice()), label: Some(string_of(t.as_slice())), shape })
    } else {
        None
    }
}

fn strict_arrow(l: &Vec<char>, p: usize) -> (r: Option<(Arrow, Option<Vec<char>>, usize)>)
    requires
        p <= l@.len(),
    ensures
        match r {
            Some((a, label, q)) => strict_arrow_at(l@, p as int) == Some((a, chars_opt_view(label), q as int))
                && p < q <= l@.len(),
            None => strict_arrow_at(l@, p as int) is None,
        },
{
    let len = l.len();
    let (arrow, n) = link_at_exec(l, p)?;
    proof {
        reveal_strlit("==>");
        reveal_strlit("-.->");
        reveal_strlit("-->");
        reveal_strlit("--o");
        reveal_strlit("--x");
    }
    let q = p + n;
    if q < l.len() && l[q] == '|' {
        let mut e = q + 1;
        while e < l.len() && l[e] != '|'
            invariant
                q + 1 <= e <= l@.len(),
                bar_end(l@, q + 1) == bar_end(l@, e as int),
            decreases l@.len() - e,
        {
            e += 1;
        }
        if e < l.len() {
            let raw = slice_chars(l.as_slice(), q + 1, e);
            return Some((arrow, Some(unescape_edge(raw.as_slice())), e + 1));
        }
    }
    Some((arrow, None, q))
}

fn edge_line(l: &Vec<char>) -> (r: Option<Vec<Hop>>)
    ensures
        match r {
            Some(hops) => strict_edge_line(l@) == Some(hops_view(hops@)),
            None => strict_edge_line(l@) is None,
        },
{
    let (from, p) = ident(l, 0)?;
    let p = eat_ws(l, p);
    let (arrow, label, q) = strict_arrow(l, p)?;
    let q = eat_ws(l, q);
    let (to, s) = ident(l, q)?;
    let mut last = copy_chars(&to);
    let mut hops: Vec<Hop> = Vec::new();
    let ghost hop0 = SpecHop { from: from@, arrow, to: to@, label: chars_opt_view(label) };
    let ghost start = s;
    hops.push(Hop { from, arrow, to, label });
    assert(hops_view(hops@) =~= seq![hop0]);
    let mut pos = s;
    loop
        invariant
            start <= pos <= l@.len(),
            tail_hops(l@, start as int, to@, seq![hop0]) == tail_hops(l@, pos as int, last@, hops_view(hops@)),
        ensures
            tail_hops(l@, start as int, to@, seq![hop0]) == (hops_view(hops@), pos as int),
        decreases l@.len() - pos,
    {
        let p = eat_ws(l, pos);
        let (arrow, label, q) = match strict_arrow(l, p) {
            Some(x) => x,
            None => {
                break;
            },
        };
        let q = eat_ws(l, q);
        let (next, s) = match ident(l, q) {
            Some(x) => x,
            None => {
                break;
            },
        };
        let hop = Hop { from: last, arrow, to: copy_chars(&next), label };
        proof {
            assert(hops_view(hops@.push(hop)) =~= hops_view(hops@).push(hop@));
        }
        hops.push(hop);
        last = next;
        pos = s;
    }
    if pos == l.len() {
        Some(hops)
    } else {
        None
    }
}

fn header(l: &Vec<char>) -> (r: Option<Direction>)
    ensures
        r == strict_header(l@),
{
    proof {
        reveal_strlit("flowchart");
        reveal_strlit("LR");
        reveal_strlit("RL");
        reveal_strlit("TD");
        reveal_strlit("TB");
        reveal_strlit("BT");
    }
    let len = l.len();
    if !has_text_at_start(l) {
        return None;
    }
    let p = eat_ws(l, 9);
    if p == 9 {
        return None;
    }
    let d = if has_text_at(l, p, "LR") {
        Some(Direction::LR)
    } else if has_text_at(l, p, "RL") {
        Some(Direction::RL)
    } else if has_text_at(l, p, "TD") || has_text_at(l, p, "TB") {
        Some(Direction::TD)
    } else if has_text_at(l, p, "BT") {
        Some(Direction::BT)
    } else {
        None
    };
    match d {
        Some(dir) => {
            assert(p + 2 <= l@.len());
            if eat_ws(l, p + 2) == len {
                Some(dir)
            } else {
                None
            }
        },
        None => None,
    }
}

fn has_text_at_start(l: &Vec<char>) -> (b: bool)
    ensures
        b == has_at(l@, 0, "flowchart"@),
        b ==> 9 <= l@.len(),
{
    proof {
        reveal_strlit("flowchart");
    }
    has_text_at(l, 0, "flowchart")
}


fn same_arrows(hops: &Vec<Hop>, a: Arrow) -> (b: bool)
    ensures
        b == same_arrow(hops_view(hops@), a),
{
    let mut i: usize = 0;
    while i < hops.len()
        invariant
            i <= hops@.len(),
            forall|j: int| 0 <= j < i ==> (#[trigger] hops_view(hops@)[j]).arrow == a,
        decreases hops@.len() - i,
    {
        if hops[i].arrow != a {
            assert(hops_view(hops@)[i as int].arrow != a);
            return false;
        }
        i += 1;
    }
    true
}

fn only_final_label(hops: &Vec<Hop>) -> (b: bool)
    requires
        hops@.len() > 0,
    ensures
        b == only_last_labelled(hops_view(hops@)),
{
    let mut i: usize = 0;
    while i < hops.len() - 1
        invariant
            i <= hops@.len() - 1,
            forall|j: int| 0 <= j < i ==> (#[trigger] hops_view(hops@)[j]).label is None,
        decreases hops@.len() - i,
    {
        if hops[i].label.is_some() {
            assert(hops_view(hops@)[i as int].label is Some);
            return false;
        }
        i += 1;
    }
    true
}

/// Read one more raw line, numbered `line_no`, into the statements and the pending chain.
fn apply_strict_line(
    stmts: &mut Vec<Stmt>,
    pending: &mut Option<(Vec<String>, Arrow)>,
    raw: &Vec<char>,
    line_no: usize,
) -> (r: Result<(), Error>)
    ensures
        match strict_step(state_view(*old(stmts), *old(pending)), raw@, line_no as nat) {
            Ok(st) => r is Ok && state_view(*final(stmts), *final(pending)) == st,
            Err(e) => r matches Err(x) && x@ == e,
        },
{
    let line = trim_chars(raw.as_slice());
    proof {
        reveal_strlit("%%");
    }
    if line.len() == 0 || (line.len() >= 2 && line[0] == '%' && line[1] == '%') {
        assert(line@.len() >= 2 ==> (line@.take(2) =~= "%%"@) == (line@[0] == '%' && line@[1]
            == '%'));
        return Ok(());
    }
    assert(!starts_with(line@, "%%"@)) by {
        if line@.len() >= 2 {
            assert(line@.take(2)[0] == line@[0]);
            assert(line@.take(2)[1] == line@[1]);
        }
    }
    if let Some(node) = node_line(&line) {
        flush_pending(pending, stmts);
        let s = Stmt::Node(node);
        proof {
            assert(stmts_view(stmts@.push(s)) =~= stmts_view(stmts@).push(s@));
        }
        stmts.push(s);
        return Ok(());
    }
    let hops = match edge_line(&line) {
        Some(h) => h,
        None => {
            return Err(Error::mermaid(line_no, "invalid or unsupported Mermaid syntax"));
        },
    };
    let ghost hv = hops_view(hops@);
    proof {
        lemma_edge_line_nonempty(line@);
    }
    assert(hv[0] == hops@[0]@);
    if hops.len() == 1 && hops[0].label.is_some() {
        let h = &hops[0];
        let extend = match pending {
            Some((chain, arrow)) => *arrow == h.arrow && last_is(chain, &h.from),
            None => false,
        };
        if extend {
            let (mut chain, arrow) = pending.take().unwrap();
            chain.push(string_of(h.to.as_slice()));
            let s = Stmt::Edge(EdgeDecl { chain, arrow, label: opt_string(&h.label) });
            proof {
                assert(stmts_view(stmts@.push(s)) =~= stmts_view(stmts@).push(s@));
                assert(strings_view(chain@) =~= (old(pending)->0).0@.map_values(|s: String| s@).push(
                    h.to@,
                ));
            }
            stmts.push(s);
        } else {
            flush_pending(pending, stmts);
            let mut chain: Vec<String> = Vec::new();
            chain.push(string_of(h.from.as_slice()));
            chain.push(string_of(h.to.as_slice()));
            let s = Stmt::Edge(EdgeDecl { chain, arrow: h.arrow, label: opt_string(&h.label) });
            proof {
                assert(strings_view(chain@) =~= seq![h.from@, h.to@]);
                assert(stmts_view(stmts@.push(s)) =~= stmts_view(stmts@).push(s@));
            }
            stmts.push(s);
        }
        return Ok(());
    }
    let arrow = hops[0].arrow;
    if !same_arrows(&hops, arrow) {
        return Err(Error::mermaid(line_no, "mixed arrow styles cannot be represented by MML"));
    }
    if !only_final_label(&hops) {
        return Err(Error::mermaid(line_no, "only a chain's final edge may have a label in MML"));
    }
    flush_pending(pending, stmts);
    let mut chain_chars: Vec<Vec<char>> = Vec::new();
    chain_chars.push(copy_chars(&hops[0].from));
    let mut i: usize = 0;
    while i < hops.len()
        invariant
            i <= hops@.len(),
            hv == hops_view(hops@),
            hops@.len() > 0,
            chain_chars@.map_values(|c: Vec<char>| c@) == seq![hv[0].from] + hv.take(
                i as int,
            ).map_values(|h: SpecHop| h.to),
        decreases hops@.len() - i,
    {
        let t = copy_chars(&hops[i].to);
        proof {
            assert(hv[i as int] == hops@[i as int]@);
            assert(chain_chars@.push(t).map_values(|c: Vec<char>| c@) =~= chain_chars@.map_values(
                |c: Vec<char>| c@,
            ).push(t@));
            assert(hv.take(i + 1).map_values(|h: SpecHop| h.to) =~= hv.take(i as int).map_values(
                |h: SpecHop| h.to,
            ).push(hv[i as int].to));
        }
        chain_chars.push(t);
        i += 1;
    }
    assert(hv.take(hv.len() as int) =~= hv);
    let chain = strings_of_chars(&chain_chars);
    assert(strings_view(chain@) =~= hop_chain(hv));
    let last = hops.len() - 1;
    assert(hv.last() == hops@[last as int]@);
    match &hops[last].label {
        Some(l) => {
            let s = Stmt::Edge(EdgeDecl { chain, arrow, label: Some(string_of(l.as_slice())) });
            proof {
                assert(stmts_view(stmts@.push(s)) =~= stmts_view(stmts@).push(s@));
            }
            stmts.push(s);
        },
        None => {
            *pending = Some((chain, arrow));
        },
    }
    Ok(())
}

/// An edge line has at least one hop.
pub proof fn lemma_edge_line_nonempty(l: Seq<char>)
    ensures
        strict_edge_line(l) matches Some(hops) ==> hops.len() >= 1,
{
    match ident_at(l, 0) {
        None => {},
        Some((from, p)) => match strict_arrow_at(l, ws_end(l, p)) {
            None => {},
            Some((a, label, q)) => match ident_at(l, ws_end(l, q)) {
                None => {},
                Some((to, s)) => {
                    lemma_tail_hops_grow(l, s, to, seq![SpecHop { from, arrow: a, to, label }]);
                },
            },
        },
    }
}

pub proof fn lemma_tail_hops_grow(l: Seq<char>, pos: int, last: Seq<char>, hops: Seq<SpecHop>)
    ensures
        tail_hops(l, pos, last, hops).0.len() >= hops.len(),
    decreases l.len() - pos,
{
    match strict_arrow_at(l, ws_end(l, pos)) {
        None => {},
        Some((a, label, q)) => match ident_at(l, ws_end(l, q)) {
            None => {},
            Some((id, s)) => if pos < s <= l.len() {
                lemma_tail_hops_grow(l, s, id, hops.push(SpecHop { from: last, arrow: a, to: id, label }));
            },
        },
    }
}

/// Once some lines fail, any longer run of lines fails with the same error.
pub proof fn lemma_fold_error_stays(ls: Seq<Seq<char>>, first: nat, j: int)
    requires
        0 <= j <= ls.len(),
        strict_fold(ls.take(j), first) is Err,
    ensures
        strict_fold(ls, first) == strict_fold(ls.take(j), first),
    decreases ls.len() - j,
{
    if j < ls.len() {
        assert(ls.take(j + 1).drop_last() =~= ls.take(j));
        lemma_fold_error_stays(ls, first, j + 1);
    } else {
        assert(ls.take(j) =~= ls);
    }
}

/// Read Mermaid flowchart text from the exact subset MML can represent.
pub fn parse(source: &str) -> (r: Result<Graph, Error>)
    ensures
        match r {
            Ok(g) => mml_mermaid_graph(source@) == Ok::<_, Seq<char>>(g@),
            Err(e) => mml_mermaid_graph(source@) == Err::<SpecGraph, _>(e@),
        },
{
    let chars = chars_of(source);
    let ls = split_lines(chars.as_slice());
    let ghost lv = ls@.map_values(|l: Vec<char>| l@);
    let mut k: usize = 0;
    assert(lv.skip(0) =~= lv);
    loop
        invariant
            k <= ls@.len(),
            lv == ls@.map_values(|l: Vec<char>| l@),
            first_nonblank(lv) == k + first_nonblank(lv.skip(k as int)),
        ensures
            k <= ls@.len(),
            first_nonblank(lv) == k + first_nonblank(lv.skip(k as int)),
            k < ls@.len() ==> trim(lv[k as int]).len() > 0,
        decreases ls@.len() - k,
    {
        if k >= ls.len() {
            break;
        }
        let t = trim_chars(ls[k].as_slice());
        assert(lv[k as int] == ls@[k as int]@);
        if t.len() > 0 {
            break;
        }
        proof {
            assert(lv.skip(k as int).skip(1) =~= lv.skip(k + 1));
        }
        k += 1;
    }
    if k >= ls.len() {
        assert(lv.skip(k as int).len() == 0);
        return Err(Error::mermaid(1, "empty input"));
    }
    let head = trim_chars(ls[k].as_slice());
    assert(lv[k as int] == ls@[k as int]@);
    assert(lv.skip(k as int)[0] == lv[k as int]);
    assert(first_nonblank(lv) == k);
    assert(head@ == trim(lv[k as int]));
    let direction = match header(&head) {
        Some(d) => d,
        None => {
            return Err(Error::mermaid(k + 1, "invalid or unsupported Mermaid syntax"));
        },
    };
    let mut stmts: Vec<Stmt> = Vec::new();
    let mut pending: Option<(Vec<String>, Arrow)> = None;
    let mut failure: Option<Error> = None;
    let ghost rest = lv.skip(k + 1);
    let mut i = k + 1;
    assert(stmts_view(stmts@) =~= Seq::<SpecStmt>::empty());
    assert(rest.take(0) =~= Seq::<Seq<char>>::empty());
    loop
        invariant_except_break
            failure is None,
            strict_fold(rest.take(i - (k + 1)), (k + 2) as nat) == Ok::<_, Seq<char>>(
                state_view(stmts, pending),
            ),
        invariant
            k + 1 <= i <= ls@.len(),
            lv == ls@.map_values(|l: Vec<char>| l@),
            rest == lv.skip(k + 1),
        ensures
            match failure {
                None => strict_fold(rest, (k + 2) as nat) == Ok::<_, Seq<char>>(state_view(stmts, pending)),
                Some(e) => strict_fold(rest, (k + 2) as nat) == Err::<DState, _>(e@),
            },
        decreases ls@.len() - i,
    {
        if i >= ls.len() {
            assert(rest.take(i - (k + 1)) =~= rest);
            break;
        }
        let step = apply_strict_line(&mut stmts, &mut pending, &ls[i], i + 1);
        proof {
            assert(rest.take(i + 1 - (k + 1)).drop_last() =~= rest.take(i - (k + 1)));
            assert(rest.take(i + 1 - (k + 1)).last() == ls@[i as int]@);
        }
        if let Err(e) = step {
            proof {
                lemma_fold_error_stays(rest, (k + 2) as nat, i + 1 - (k + 1));
            }
            failure = Some(e);
            break;
        }
        i += 1;
    }
    if let Some(e) = failure {
        return Err(e);
    }
    flush_pending(&mut pending, &mut stmts);
    Ok(Graph { direction, stmts })
}

/// An accepted edge line whose last hop carries a label never loses it: the
/// line completes an edge statement that ends at that hop's target, with its
/// arrow and that label, and leaves no chain pending.
pub proof fn law_edge_line_keeps_label(st: DState, raw: Seq<char>, line_no: nat)
    requires
        strict_step(st, raw, line_no) is Ok,
        trim(raw).len() > 0,
        !starts_with(trim(raw), "%%"@),
        strict_node_line(trim(raw)) is None,
        strict_edge_line(trim(raw)) matches Some(hops) && hops.len() > 0 && hops.last().label is Some,
    ensures
        ({
            let st2 = strict_step(st, raw, line_no)->Ok_0;
            let h = strict_edge_line(trim(raw))->0.last();
            &&& st2.pending is None
            &&& st2.stmts.len() > 0
            &&& st2.stmts.last() matches SpecStmt::Edge(e) && e.label == h.label && e.arrow == h.arrow && e.chain.len()
                > 0 && e.chain.last() == h.to
        }),
{
    let hops = strict_edge_line(trim(raw))->0;
    let st2 = strict_step(st, raw, line_no)->Ok_0;
    if hops.len() == 1 {
        assert(hops[0] == hops.last());
    } else {
        let chain = hop_chain(hops);
        assert(chain.last() == hops.last().to) by {
            assert(chain[chain.len() - 1] == hops.map_values(|x: SpecHop| x.to)[hops.len() - 1]);
        }
    }
}

proof fn lemma_ws_end_at(l: Seq<char>, p: int, e: int)
    requires
        0 <= p <= e <= l.len(),
        forall|i: int| p <= i < e ==> (#[trigger] l[i] == ' ' || l[i] == '\t'),
        e == l.len() || (l[e] != ' ' && l[e] != '\t'),
    ensures
        ws_end(l, p) == e,
    decreases e - p,
{
    if p < e {
        lemma_ws_end_at(l, p + 1, e);
    }
}

proof fn lemma_strict_header_word(gap: Seq<char>, tail: Seq<char>, dir: Seq<char>)
    requires
        gap.len() > 0,
        forall|i: int| 0 <= i < gap.len() ==> (#[trigger] gap[i] == ' ' || gap[i] == '\t'),
        forall|i: int| 0 <= i < tail.len() ==> (#[trigger] tail[i] == ' ' || tail[i] == '\t'),
        dir.len() == 2,
        dir[0] != ' ' && dir[0] != '\t',
    ensures
        ({
            let l = "flowchart"@ + gap + dir + tail;
            &&& has_at(l, 0, "flowchart"@)
            &&& ws_end(l, 9) == 9 + gap.len()
            &&& l.subrange(9 + gap.len() as int, 11 + gap.len() as int) == dir
            &&& ws_end(l, 11 + gap.len() as int) == l.len()
        }),
{
    reveal_strlit("flowchart");
    let f = "flowchart"@;
    let l = f + gap + dir + tail;
    let g = gap.len() as int;
    assert(l.subrange(0, 9) =~= f);
    assert forall|i: int| 9 <= i < 9 + g implies (#[trigger] l[i] == ' ' || l[i] == '\t') by {
        assert(l[i] == gap[i - 9]);
    }
    assert(l[9 + g] == dir[0]);
    lemma_ws_end_at(l, 9, 9 + g);
    assert(l.subrange(9 + g, 11 + g) =~= dir);
    assert forall|i: int| 11 + g <= i < l.len() implies (#[trigger] l[i] == ' ' || l[i] == '\t') by {
        assert(l[i] == tail[i - 11 - g]);
    }
    lemma_ws_end_at(l, 11 + g, l.len() as int);
}

/// The MML reader takes a `flowchart TB` header as top-down, the same as
/// `flowchart TD`, whatever spaces or tabs separate and follow the words.
pub proof fn law_strict_tb_reads_as_td(gap: Seq<char>, tail: Seq<char>)
    requires
        gap.len() > 0,
        forall|i: int| 0 <= i < gap.len() ==> (#[trigger] gap[i] == ' ' || gap[i] == '\t'),
        forall|i: int| 0 <= i < tail.len() ==> (#[trigger] tail[i] == ' ' || tail[i] == '\t'),
    ensures
        strict_header("flowchart"@ + gap + "TB"@ + tail) == Some(Direction::TD),
        strict_header("flowchart"@ + gap + "TB"@ + tail) == strict_header("flowchart"@ + gap + "TD"@ + tail),
{
    reveal_strlit("TB");
    reveal_strlit("TD");
    reveal_strlit("LR");
    reveal_strlit("RL");
    reveal_strlit("BT");
    lemma_strict_header_word(gap, tail, "TB"@);
    lemma_strict_header_word(gap, tail, "TD"@);
    let g = gap.len() as int;
    let l1 = "flowchart"@ + gap + "TB"@ + tail;
    let l2 = "flowchart"@ + gap + "TD"@ + tail;
    assert(!has_at(l1, 9 + g, "LR"@) && !has_at(l1, 9 + g, "RL"@)) by {
        assert(l1.subrange(9 + g, 11 + g)[0] != "LR"@[0]);
        assert(l1.subrange(9 + g, 11 + g)[0] != "RL"@[0]);
    }
    assert(!has_at(l2, 9 + g, "LR"@) && !has_at(l2, 9 + g, "RL"@)) by {
        assert(l2.subrange(9 + g, 11 + g)[0] != "LR"@[0]);
        assert(l2.subrange(9 + g, 11 + g)[0] != "RL"@[0]);
    }
    assert(has_at(l1, 9 + g, "TB"@));
    assert(has_at(l2, 9 + g, "TD"@));
}

} // verus!
