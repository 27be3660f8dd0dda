//! Lenient reader of Mermaid flowcharts back into a flowchart syntax tree.
//!
//! It reads what the gph code generator writes: a `flowchart <DIR>` header,
//! node declaration lines and edge lines. Other lines are skipped.
use vstd::prelude::*;
use crate::ast::{opt_view, strings_view, Arrow, Direction, EdgeDecl, Graph, NodeDecl, Shape, SpecEdge, SpecGraph, SpecNode, SpecStmt, Stmt, stmts_view};
use crate::text::{
    append_str, ascii_alnum, chars_of, is_ascii_alnum, lines, push_all, push_str, replace,
    replace_all, slice_chars, split_lines, starts_with, string_of, trim, trim_chars,
};

verus! {

/// One `from --> to` link of an edge line.
pub struct SpecHop {
    pub from: Seq<char>,
    pub arrow: Arrow,
    pub to: Seq<char>,
    pub label: Option<Seq<char>>,
}

/// Characters of a Mermaid node id as this reader accepts them.
pub open spec fn is_id_char(c: char) -> bool {
    is_ascii_alnum(c) || c == '_' || c == '-'
}

pub open spec fn id_end(l: Seq<char>, pos: int) -> int
    decreases l.len() - pos,
{
    if 0 <= pos < l.len() && is_id_char(l[pos]) {
        id_end(l, pos + 1)
    } else {
        pos
    }
}

/// An id starting at `pos` (an ASCII letter, digit or `_` first), and the position after it.
pub open spec fn eat_id_spec(l: Seq<char>, pos: int) -> Option<(Seq<char>, int)> {
    if 0 <= pos < l.len() && (is_ascii_alnum(l[pos]) || l[pos] == '_') {
        Some((l.subrange(pos, id_end(l, pos)), id_end(l, pos)))
    } else {
        None
    }
}

/// The position after the spaces and tabs at `pos`.
pub open spec fn ws_end(l: Seq<char>, pos: int) -> int
    decreases l.len() - pos,
{
    if 0 <= pos < l.len() && (l[pos] == ' ' || l[pos] == '\t') {
        ws_end(l, pos + 1)
    } else {
        pos
    }
}

pub open spec fn has_at(l: Seq<char>, pos: int, pat: Seq<char>) -> bool {
    0 <= pos && pos + pat.len() <= l.len() && l.subrange(pos, pos + pat.len()) == pat
}

/// The link at `pos` and its length, tried as `==>`, `-.->`, `-->`, `--o`, `--x`.
pub open spec fn link_at(l: Seq<char>, pos: int) -> Option<(Arrow, int)> {
    if has_at(l, pos, "==>"@) {
        Some((Arrow::Thick, 3))
    } else if has_at(l, pos, "-.->"@) {
        Some((Arrow::Dotted, 4))
    } else if has_at(l, pos, "-->"@) {
        Some((Arrow::Normal, 3))
    } else if has_at(l, pos, "--o"@) {
        Some((Arrow::Circle, 3))
    } else if has_at(l, pos, "--x"@) {
        Some((Arrow::Cross, 3))
    } else {
        None
    }
}

/// The first `|` at or after `pos`, or the end of the line.
pub open spec fn bar_end(l: Seq<char>, pos: int) -> int
    decreases l.len() - pos,
{
    if 0 <= pos < l.len() && l[pos] != '|' {
        bar_end(l, pos + 1)
    } else {
        pos
    }
}

/// A node label with `#quot;` read back as `"`.
pub open spec fn unescape_node_label(s: Seq<char>) -> Seq<char> {
    replace(s, "#quot;"@, "\""@)
}

/// An edge label with `#124;` read as `|`, then `#quot;` as `"`.
pub open spec fn unescape_edge_label(s: Seq<char>) -> Seq<char> {
    replace(replace(s, "#124;"@, "|"@), "#quot;"@, "\""@)
}

/// A link at `pos` with an optional `|label|`, and the position after them.
pub open spec fn eat_arrow_spec(l: Seq<char>, pos: int) -> Option<(Arrow, Option<Seq<char>>, int)> {
    match link_at(l, pos) {
        None => None,
        Some((a, n)) => {
            let p = pos + n;
            if p < l.len() && l[p] == '|' {
                let e = bar_end(l, p + 1);
                let q = if e < l.len() {
                    e + 1
                } else {
                    e
                };
                Some((a, Some(unescape_edge_label(l.subrange(p + 1, e))), q))
            } else {
                Some((a, None, p))
            }
        },
    }
}

/// Further `<link> <id>` hops after `pos`, appended to `hops`; `last` is the previous id.
pub open spec fn more_hops(l: Seq<char>, pos: int, last: Seq<char>, hops: Seq<SpecHop>) -> Seq<SpecHop>
    decreases l.len() - pos,
{
    let p = ws_end(l, pos);
    if pos < 0 || p >= l.len() {
        hops
    } else {
        match eat_arrow_spec(l, p) {
            None => hops,
            Some((a, label, q)) => match eat_id_spec(l, ws_end(l, q)) {
                None => hops,
                Some((id, s)) => if pos < s <= l.len() {
                    more_hops(l, s, id, hops.push(SpecHop { from: last, arrow: a, to: id, label }))
                } else {
                    hops
                },
            },
        }
    }
}

/// The hops of an edge line: `<id> <link> <id>` followed by further hops.
pub open spec fn edge_hops(l: Seq<char>) -> Option<Seq<SpecHop>> {
    match eat_id_spec(l, 0) {
        None => None,
        Some((from, p)) => match eat_arrow_spec(l, ws_end(l, p)) {
            None => None,
            Some((a, label, q)) => match eat_id_spec(l, ws_end(l, q)) {
                None => None,
                Some((to, s)) => Some(
                    more_hops(l, s, to, seq![SpecHop { from, arrow: a, to, label }]),
                ),
            },
        },
    }
}

/// `s` without `open` in front and `close` at the end (`strip_prefix` then `strip_suffix`).
pub open spec fn strip_balanced(s: Seq<char>, open: Seq<char>, close: Seq<char>) -> Option<Seq<char>> {
    if starts_with(s, open) && close.len() <= s.len() - open.len() && s.skip(
        s.len() - close.len(),
    ) == close {
        Some(s.subrange(open.len() as int, s.len() - close.len()))
    } else {
        None
    }
}

/// The shape and inner text of a delimited node body, longest delimiters first.
pub open spec fn shape_body(rest: Seq<char>) -> Option<(Shape, Seq<char>)> {
    if let Some(s) = strip_balanced(rest, "[["@, "]]"@) {
        Some((Shape::Sub, s))
    } else if let Some(s) = strip_balanced(rest, "(["@, "])"@) {
        Some((Shape::Stadium, s))
    } else if let Some(s) = strip_balanced(rest, "{{"@, "}}"@) {
        Some((Shape::Hex, s))
    } else if let Some(s) = strip_balanced(rest, "["@, "]"@) {
        Some((Shape::Box, s))
    } else if let Some(s) = strip_balanced(rest, "("@, ")"@) {
        Some((Shape::Round, s))
    } else if let Some(s) = strip_balanced(rest, "{"@, "}"@) {
        Some((Shape::Diamond, s))
    } else {
        None
    }
}

/// A node declaration line: an id, a delimiter right after it, and a quoted label.
pub open spec fn node_decl_spec(l: Seq<char>) -> Option<SpecNode> {
    match eat_id_spec(l, 0) {
        None => None,
        Some((id, p)) => if p >= l.len() || !(l[p] == '[' || l[p] == '(' || l[p] == '{') {
            None
        } else {
            match shape_body(l.skip(p)) {
                None => None,
                Some((shape, inner)) => if inner.len() >= 2 && inner[0] == '"' && inner.last()
                    == '"' {
                    Some(
                        SpecNode {
                            id,
                            label: Some(unescape_node_label(inner.subrange(1, inner.len() - 1))),
                            shape,
                        },
                    )
                } else {
                    None
                },
            }
        },
    }
}


/// Statements read so far and an unlabelled chain that a following labelled
/// hop may still extend.
pub struct DState {
    pub stmts: Seq<SpecStmt>,
    pub pending: Option<(Seq<Seq<char>>, Arrow)>,
}

pub open spec fn flushed(st: DState) -> Seq<SpecStmt> {
    match st.pending {
        Some((chain, arrow)) => st.stmts.push(SpecStmt::Edge(SpecEdge { chain, label: None, arrow })),
        None => st.stmts,
    }
}

pub open spec fn edge_stmt(chain: Seq<Seq<char>>, arrow: Arrow, label: Option<Seq<char>>) -> SpecStmt {
    SpecStmt::Edge(SpecEdge { chain, label, arrow })
}

/// The chain named by consecutive hops: the first source, then every target.
pub open spec fn hop_chain(hops: Seq<SpecHop>) -> Seq<Seq<char>> {
    seq![hops[0].from] + hops.map_values(|h: SpecHop| h.to)
}

/// Whether the pending chain ends where `h` starts, with the same arrow.
pub open spec fn can_extend(pending: Option<(Seq<Seq<char>>, Arrow)>, h: SpecHop) -> bool {
    match pending {
        Some((chain, arrow)) => arrow == h.arrow && chain.len() > 0 && chain.last() == h.from,
        None => false,
    }
}

/// The reader state after one more raw line.
pub open spec fn decompile_step(st: DState, raw: Seq<char>) -> DState {
    let line = trim(raw);
    if line.len() == 0 || starts_with(line, "%%"@) {
        st
    } else if let Some(node) = node_decl_spec(line) {
        DState { stmts: flushed(st).push(SpecStmt::Node(node)), pending: None }
    } else {
        match edge_hops(line) {
            None => st,
            Some(hops) => if hops.len() == 0 {
                st
            } else if hops.len() == 1 && hops[0].label is Some {
                let h = hops[0];
                if can_extend(st.pending, h) {
                    DState {
                        stmts: st.stmts.push(edge_stmt((st.pending->0).0.push(h.to), h.arrow, h.label)),
                        pending: None,
                    }
                } else {
                    DState {
                        stmts: flushed(st).push(edge_stmt(seq![h.from, h.to], h.arrow, h.label)),
                        pending: None,
                    }
                }
            } else {
                let chain = hop_chain(hops);
                let arrow = hops[0].arrow;
                match hops.last().label {
                    Some(l) => DState {
                        stmts: flushed(st).push(edge_stmt(chain, arrow, Some(l))),
                        pending: None,
                    },
                    None => DState { stmts: flushed(st), pending: Some((chain, arrow)) },
                }
            },
        }
    }
}

/// The reader state after all of `ls`.
pub open spec fn decompile_fold(st: DState, ls: Seq<Seq<char>>) -> DState
    decreases ls.len(),
{
    if ls.len() == 0 {
        st
    } else {
        decompile_step(decompile_fold(st, ls.drop_last()), ls.last())
    }
}

/// The index of the first line that is not blank, or `ls.len()`.
pub open spec fn first_nonblank(ls: Seq<Seq<char>>) -> nat
    decreases ls.len(),
{
    if ls.len() == 0 {
        0
    } else if trim(ls[0]).len() > 0 {
        0
    } else {
        1 + first_nonblank(ls.skip(1))
    }
}

/// ASCII white space as `split_ascii_whitespace` splits on it.
pub open spec fn is_ascii_ws(c: char) -> bool {
    c == ' ' || c == '\t' || c == '\n' || c == '\u{c}' || c == '\r'
}

pub open spec fn skip_ascii_ws(s: Seq<char>, pos: int) -> int
    decreases s.len() - pos,
{
    if 0 <= pos < s.len() && is_ascii_ws(s[pos]) {
        skip_ascii_ws(s, pos + 1)
    } else {
        pos
    }
}

pub open spec fn word_end(s: Seq<char>, pos: int) -> int
    decreases s.len() - pos,
{
    if 0 <= pos < s.len() && !is_ascii_ws(s[pos]) {
        word_end(s, pos + 1)
    } else {
        pos
    }
}

/// The next ASCII-white-space separated word at or after `pos`, and the position after it.
pub open spec fn next_word(s: Seq<char>, pos: int) -> (Seq<char>, int) {
    let a = skip_ascii_ws(s, pos);
    let b = word_end(s, a);
    (s.subrange(a, b), b)
}

/// A string as the `{:?}` format writes it.
pub uninterp spec fn debug_text(s: Seq<char>) -> Seq<char>;

/// The direction of a `flowchart <DIR>` header, or why the header is not one.
pub open spec fn header_direction(t: Seq<char>) -> Result<Direction, Seq<char>> {
    let (first, p) = next_word(t, 0);
    let (second, _) = next_word(t, p);
    if first != "flowchart"@ {
        Err("expected 'flowchart <DIR>', got "@ + debug_text(t))
    } else if second.len() == 0 {
        Err("missing direction after 'flowchart'"@)
    } else if second == "LR"@ {
        Ok(Direction::LR)
    } else if second == "RL"@ {
        Ok(Direction::RL)
    } else if second == "TD"@ || second == "TB"@ {
        Ok(Direction::TD)
    } else if second == "BT"@ {
        Ok(Direction::BT)
    } else {
        Err("unknown flowchart direction "@ + debug_text(second))
    }
}

pub open spec fn initial_state() -> DState {
    DState { stmts: seq![], pending: None }
}

/// The graph a Mermaid flowchart spells to this reader, or why it has none.
pub open spec fn decompile_graph(src: Seq<char>) -> Result<SpecGraph, Seq<char>> {
    let ls = lines(src);
    let k = first_nonblank(ls);
    if k >= ls.len() {
        Err("empty input"@)
    } else {
        match header_direction(trim(ls[k as int])) {
            Err(e) => Err(e),
            Ok(direction) => Ok(
                SpecGraph {
                    direction,
                    stmts: flushed(decompile_fold(initial_state(), ls.skip(k + 1 as int))),
                },
            ),
        }
    }
}


/// Calls the `Debug` formatting of `str` (`format!("{:?}", s)`), which quotes the
/// string and escapes quotes, backslashes and control characters. Its result is
/// named `debug_text`; nothing further about it is stated.
#[verifier::external_body]
fn debug_string(s: &str) -> (r: String)
    ensures
        r@ == debug_text(s@),
{
    format!("{:?}", s)
}


/// An exec hop; ids and label as characters.
pub struct Hop {
    pub from: Vec<char>,
    pub arrow: Arrow,
    pub to: Vec<char>,
    pub label: Option<Vec<char>>,
}

pub open spec fn chars_opt_view(o: Option<Vec<char>>) -> Option<Seq<char>> {
    match o {
        Some(v) => Some(v@),
        None => None,
    }
}

impl View for Hop {
    type V = SpecHop;

    open spec fn view(&self) -> SpecHop {
        SpecHop { from: self.from@, arrow: self.arrow, to: self.to@, label: chars_opt_view(self.label) }
    }
}

pub open spec fn hops_view(v: Seq<Hop>) -> Seq<SpecHop> {
    v.map_values(|h: Hop| h@)
}

pub(crate) fn copy_chars(v: &Vec<char>) -> (r: Vec<char>)
    ensures
        r@ == v@,
{
    slice_chars(v.as_slice(), 0, v.len())
}

fn eat_id(l: &Vec<char>, pos: usize) -> (r: Option<(Vec<char>, usize)>)
    requires
        pos <= l@.len(),
    ensures
        match r {
            Some((id, p)) => eat_id_spec(l@, pos as int) == Some((id@, p as int)) && pos < p <= l@.len(),
            None => eat_id_spec(l@, pos as int) is None,
        },
{
    if pos >= l.len() || !(ascii_alnum(l[pos]) || l[pos] == '_') {
        return None;
    }
    let mut p = pos;
    while p < l.len() && (ascii_alnum(l[p]) || l[p] == '_' || l[p] == '-')
        invariant
            pos <= p <= l@.len(),
            id_end(l@, pos as int) == id_end(l@, p as int),
        decreases l@.len() - p,
    {
        p += 1;
    }
    Some((slice_chars(l.as_slice(), pos, p), p))
}

pub(crate) fn eat_ws(l: &Vec<char>, pos: usize) -> (p: usize)
    requires
        pos <= l@.len(),
    ensures
        p as int == ws_end(l@, pos as int),
        pos <= p <= l@.len(),
{
    let mut p = pos;
    while p < l.len() && (l[p] == ' ' || l[p] == '\t')
        invariant
            pos <= p <= l@.len(),
            ws_end(l@, pos as int) == ws_end(l@, p as int),
        decreases l@.len() - p,
    {
        p += 1;
    }
    p
}

pub(crate) fn has_text_at(l: &Vec<char>, pos: usize, pat: &str) -> (b: bool)
    requires
        pos <= l@.len(),
    ensures
        b == has_at(l@, pos as int, pat@),
{
    let p = chars_of(pat);
    crate::text::matches_at(l.as_slice(), pos, p.as_slice())
}

pub(crate) fn link_at_exec(l: &Vec<char>, pos: usize) -> (r: Option<(Arrow, usize)>)
    requires
        pos <= l@.len(),
    ensures
        match r {
            Some((a, n)) => link_at(l@, pos as int) == Some((a, n as int)) && pos + n <= l@.len(),
            None => link_at(l@, pos as int) is None,
        },
{
    proof {
        reveal_strlit("==>");
        reveal_strlit("-.->");
        reveal_strlit("-->");
        reveal_strlit("--o");
        reveal_strlit("--x");
    }
    if has_text_at(l, pos, "==>") {
        Some((Arrow::Thick, 3))
    } else if has_text_at(l, pos, "-.->") {
        Some((Arrow::Dotted, 4))
    } else if has_text_at(l, pos, "-->") {
        Some((Arrow::Normal, 3))
    } else if has_text_at(l, pos, "--o") {
        Some((Arrow::Circle, 3))
    } else if has_text_at(l, pos, "--x") {
        Some((Arrow::Cross, 3))
    } else {
        None
    }
}

pub(crate) fn unescape_node(s: &[char]) -> (r: Vec<char>)
    ensures
        r@ == unescape_node_label(s@),
{
    let pat = chars_of("#quot;");
    let rep = chars_of("\"");
    proof {
        reveal_strlit("#quot;");
    }
    replace_all(s, pat.as_slice(), rep.as_slice())
}

pub(crate) fn unescape_edge(s: &[char]) -> (r: Vec<char>)
    ensures
        r@ == unescape_edge_label(s@),
{
    let pat = chars_of("#124;");
    let rep = chars_of("|");
    proof {
        reveal_strlit("#124;");
        reveal_strlit("#quot;");
    }
    let first = replace_all(s, pat.as_slice(), rep.as_slice());
    let pat2 = chars_of("#quot;");
    let rep2 = chars_of("\"");
    replace_all(first.as_slice(), pat2.as_slice(), rep2.as_slice())
}

fn eat_arrow(l: &Vec<char>, pos: usize) -> (r: Option<(Arrow, Option<Vec<char>>, usize)>)
    requires
        pos <= l@.len(),
    ensures
        match r {
            Some((a, label, q)) => eat_arrow_spec(l@, pos as int) == Some(
                (a, chars_opt_view(label), q as int),
            ) && pos < q <= l@.len(),
            None => eat_arrow_spec(l@, pos as int) is None,
        },
{
    let (arrow, n) = match link_at_exec(l, pos) {
        Some(x) => x,
        None => {
            return None;
        },
    };
    let len = l.len();
    let p = pos + n;
    proof {
        reveal_strlit("==>");
        reveal_strlit("-.->");
        reveal_strlit("-->");
        reveal_strlit("--o");
        reveal_strlit("--x");
    }
    if p < l.len() && l[p] == '|' {
        let mut e = p + 1;
        while e < l.len() && l[e] != '|'
            invariant
                p + 1 <= e <= l@.len(),
                bar_end(l@, p + 1) == bar_end(l@, e as int),
            decreases l@.len() - e,
        {
            e += 1;
        }
        let raw = slice_chars(l.as_slice(), p + 1, e);
        let label = unescape_edge(raw.as_slice());
        let q = if e < l.len() {
            e + 1
        } else {
            e
        };
        Some((arrow, Some(label), q))
    } else {
        Some((arrow, None, p))
    }
}

/// The hops of an edge line, if it starts with `<id> <link> <id>`.
fn try_parse_edge_line(l: &Vec<char>) -> (r: Option<Vec<Hop>>)
    ensures
        match r {
            Some(hops) => edge_hops(l@) == Some(hops_view(hops@)),
            None => edge_hops(l@) is None,
        },
{
    let (from, p) = eat_id(l, 0)?;
    let p = eat_ws(l, p);
    let (arrow, label, q) = eat_arrow(l, p)?;
    let q = eat_ws(l, q);
    let (to, s) = eat_id(l, q)?;
    let mut last = copy_chars(&to);
    let mut hops: Vec<Hop> = Vec::new();
    let ghost hop0 = SpecHop { from: from@, arrow, to: to@, label: chars_opt_view(label) };
    hops.push(Hop { from, arrow, to, label });
    assert(hops_view(hops@) =~= seq![hop0]);
    let mut pos = s;
    loop
        invariant
            pos <= l@.len(),
            edge_hops(l@) == Some(more_hops(l@, pos as int, last@, hops_view(hops@))),
        ensures
            edge_hops(l@) == Some(hops_view(hops@)),
        decreases l@.len() - pos,
    {
        let p = eat_ws(l, pos);
        if p >= l.len() {
            break;
        }
        let (arrow, label, q) = match eat_arrow(l, p) {
            Some(x) => x,
            None => {
                break;
            },
        };
        let q = eat_ws(l, q);
        let (next, s) = match eat_id(l, q) {
            Some(x) => x,
            None => {
                break;
            },
        };
        let hop = Hop { from: last, arrow, to: copy_chars(&next), label };
        proof {
            assert(hops_view(hops@.push(hop)) =~= hops_view(hops@).push(hop@));
        }
        hops.push(hop);
        last = next;
        pos = s;
    }
    Some(hops)
}


fn strip_delimiters(s: &Vec<char>, open: &str, close: &str) -> (r: Option<Vec<char>>)
    ensures
        match r {
            Some(inner) => strip_balanced(s@, open@, close@) == Some(inner@),
            None => strip_balanced(s@, open@, close@) is None,
        },
{
    let o = chars_of(open);
    let c = chars_of(close);
    let n = s.len();
    if o.len() > n || !crate::text::matches_at(s.as_slice(), 0, o.as_slice()) {
        assert(o@.len() <= s@.len() ==> s@.subrange(0, o@.len() as int) =~= s@.take(o@.len() as int));
        return None;
    }
    assert(s@.subrange(0, o@.len() as int) =~= s@.take(o@.len() as int));
    if c.len() > n - o.len() || !crate::text::matches_at(s.as_slice(), n - c.len(), c.as_slice()) {
        assert(c@.len() <= s@.len() ==> s@.subrange(n - c@.len(), n as int) =~= s@.skip(
            n - c@.len(),
        ));
        return None;
    }
    assert(s@.subrange(n - c@.len(), n as int) =~= s@.skip(n - c@.len()));
    Some(slice_chars(s.as_slice(), o.len(), n - c.len()))
}

fn shape_body_exec(rest: &Vec<char>) -> (r: Option<(Shape, Vec<char>)>)
    ensures
        match r {
            Some((sh, inner)) => shape_body(rest@) == Some((sh, inner@)),
            None => shape_body(rest@) is None,
        },
{
    if let Some(s) = strip_delimiters(rest, "[[", "]]") {
        Some((Shape::Sub, s))
    } else if let Some(s) = strip_delimiters(rest, "([", "])") {
        Some((Shape::Stadium, s))
    } else if let Some(s) = strip_delimiters(rest, "{{", "}}") {
        Some((Shape::Hex, s))
    } else if let Some(s) = strip_delimiters(rest, "[", "]") {
        Some((Shape::Box, s))
    } else if let Some(s) = strip_delimiters(rest, "(", ")") {
        Some((Shape::Round, s))
    } else if let Some(s) = strip_delimiters(rest, "{", "}") {
        Some((Shape::Diamond, s))
    } else {
        None
    }
}

/// A node declaration line.
fn try_parse_node_decl(l: &Vec<char>) -> (r: Option<NodeDecl>)
    ensures
        match r {
            Some(n) => node_decl_spec(l@) == Some(n@),
            None => node_decl_spec(l@) is None,
        },
{
    let (id, p) = eat_id(l, 0)?;
    if p >= l.len() || !(l[p] == '[' || l[p] == '(' || l[p] == '{') {
        return None;
    }
    let rest = slice_chars(l.as_slice(), p, l.len());
    assert(rest@ =~= l@.skip(p as int));
    let (shape, inner) = shape_body_exec(&rest)?;
    let n = inner.len();
    if n >= 2 && inner[0] == '"' && inner[n - 1] == '"' {
        let raw = slice_chars(inner.as_slice(), 1, n - 1);
        let label = unescape_node(raw.as_slice());
        Some(NodeDecl { id: string_of(id.as_slice()), label: Some(string_of(label.as_slice())), shape })
    } else {
        None
    }
}

fn next_word_exec(s: &Vec<char>, pos: usize) -> (r: (Vec<char>, usize))
    requires
        pos <= s@.len(),
    ensures
        next_word(s@, pos as int) == (r.0@, r.1 as int),
        pos <= r.1 <= s@.len(),
{
    let mut a = pos;
    while a < s.len() && (s[a] == ' ' || s[a] == '\t' || s[a] == '\n' || s[a] == '\u{c}' || s[a]
        == '\r')
        invariant
            pos <= a <= s@.len(),
            skip_ascii_ws(s@, pos as int) == skip_ascii_ws(s@, a as int),
        decreases s@.len() - a,
    {
        a += 1;
    }
    let mut b = a;
    while b < s.len() && !(s[b] == ' ' || s[b] == '\t' || s[b] == '\n' || s[b] == '\u{c}' || s[b]
        == '\r')
        invariant
            a <= b <= s@.len(),
            word_end(s@, a as int) == word_end(s@, b as int),
        decreases s@.len() - b,
    {
        b += 1;
    }
    (slice_chars(s.as_slice(), a, b), b)
}

fn text_is(v: &Vec<char>, s: &str) -> (b: bool)
    ensures
        b == (v@ == s@),
{
    let w = chars_of(s);
    if v.len() != w.len() {
        return false;
    }
    let mut i: usize = 0;
    while i < v.len()
        invariant
            i <= v@.len() == w@.len(),
            w@ == s@,
            forall|k: int| 0 <= k < i ==> v@[k] == w@[k],
        decreases v@.len() - i,
    {
        if v[i] != w[i] {
            assert(v@[i as int] != w@[i as int]);
            return false;
        }
        i += 1;
    }
    assert(v@ =~= w@);
    true
}

/// The direction of a `flowchart <DIR>` header.
fn parse_direction(header: &Vec<char>) -> (r: Result<Direction, String>)
    ensures
        match r {
            Ok(d) => header_direction(header@) == Ok::<_, Seq<char>>(d),
            Err(e) => header_direction(header@) == Err::<Direction, _>(e@),
        },
{
    let (first, p) = next_word_exec(header, 0);
    let (second, _) = next_word_exec(header, p);
    if !text_is(&first, "flowchart") {
        let mut msg = String::new();
        append_str(&mut msg, "expected 'flowchart <DIR>', got ");
        let h = string_of(header.as_slice());
        let q = debug_string(h.as_str());
        let qv = chars_of(q.as_str());
        push_str(&mut msg, qv.as_slice());
        return Err(msg);
    }
    if second.len() == 0 {
        let mut msg = String::new();
        append_str(&mut msg, "missing direction after 'flowchart'");
        return Err(msg);
    }
    if text_is(&second, "LR") {
        Ok(Direction::LR)
    } else if text_is(&second, "RL") {
        Ok(Direction::RL)
    } else if text_is(&second, "TD") || text_is(&second, "TB") {
        Ok(Direction::TD)
    } else if text_is(&second, "BT") {
        Ok(Direction::BT)
    } else {
        let mut msg = String::new();
        append_str(&mut msg, "unknown flowchart direction ");
        let d = string_of(second.as_slice());
        let q = debug_string(d.as_str());
        let qv = chars_of(q.as_str());
        push_str(&mut msg, qv.as_slice());
        Err(msg)
    }
}

pub open spec fn pending_view(p: Option<(Vec<String>, Arrow)>) -> Option<(Seq<Seq<char>>, Arrow)> {
    match p {
        Some((chain, arrow)) => Some((strings_view(chain@), arrow)),
        None => None,
    }
}

pub open spec fn state_view(stmts: Vec<Stmt>, pending: Option<(Vec<String>, Arrow)>) -> DState {
    DState { stmts: stmts_view(stmts@), pending: pending_view(pending) }
}

/// Emit the pending unlabelled chain, if any.
pub(crate) fn flush_pending(pending: &mut Option<(Vec<String>, Arrow)>, stmts: &mut Vec<Stmt>)
    ensures
        stmts_view(final(stmts)@) == flushed(state_view(*old(stmts), *old(pending))),
        *final(pending) is None,
{
    if let Some((chain, arrow)) = pending.take() {
        let s = Stmt::Edge(EdgeDecl { chain, arrow, label: None });
        proof {
            assert(stmts_view(stmts@.push(s)) =~= stmts_view(stmts@).push(s@));
        }
        stmts.push(s);
    }
}

pub(crate) fn strings_of_chars(v: &Vec<Vec<char>>) -> (r: Vec<String>)
    ensures
        strings_view(r@) == v@.map_values(|c: Vec<char>| c@),
{
    let mut r: Vec<String> = Vec::new();
    let mut i: usize = 0;
    while i < v.len()
        invariant
            i <= v@.len(),
            strings_view(r@) == v@.take(i as int).map_values(|c: Vec<char>| c@),
        decreases v@.len() - i,
    {
        let s = string_of(v[i].as_slice());
        proof {
            assert(strings_view(r@.push(s)) =~= strings_view(r@).push(s@));
            assert(v@.take(i + 1).map_values(|c: Vec<char>| c@) =~= v@.take(i as int).map_values(
                |c: Vec<char>| c@,
            ).push(v@[i as int]@));
        }
        r.push(s);
        i += 1;
    }
    assert(v@.take(v@.len() as int) =~= v@);
    r
}

pub(crate) fn opt_string(o: &Option<Vec<char>>) -> (r: Option<String>)
    ensures
        opt_view(r) == chars_opt_view(*o),
{
    match o {
        Some(v) => Some(string_of(v.as_slice())),
        None => None,
    }
}

pub(crate) fn last_is(chain: &Vec<String>, id: &Vec<char>) -> (b: bool)
    ensures
        b == (chain@.len() > 0 && strings_view(chain@).last() == id@),
{
    if chain.len() == 0 {
        return false;
    }
    let last = chars_of(chain[chain.len() - 1].as_str());
    assert(last@ == strings_view(chain@).last());
    let n = last.len();
    if n != id.len() {
        return false;
    }
    let mut i: usize = 0;
    while i < n
        invariant
            i <= n == last@.len() == id@.len(),
            chain@.len() > 0,
            last@ == strings_view(chain@).last(),
            forall|k: int| 0 <= k < i ==> last@[k] == id@[k],
        decreases n - i,
    {
        if last[i] != id[i] {
            assert(last@[i as int] != id@[i as int]);
            return false;
        }
        i += 1;
    }
    assert(last@ =~= id@);
    true
}

/// Read one more raw line into the statements and the pending chain.
fn apply_line(stmts: &mut Vec<Stmt>, pending: &mut Option<(Vec<String>, Arrow)>, raw: &Vec<char>)
    ensures
        state_view(*final(stmts), *final(pending)) == decompile_step(
            state_view(*old(stmts), *old(pending)),
            raw@,
        ),
{
    let line = trim_chars(raw.as_slice());
    proof {
        reveal_strlit("%%");
    }
    if line.len() == 0 || (line.len() >= 2 && line[0] == '%' && line[1] == '%') {
        assert(line@.len() >= 2 ==> (line@.take(2) =~= "%%"@) == (line@[0] == '%' && line@[1]
            == '%'));
        return;
    }
    assert(!starts_with(line@, "%%"@)) by {
        if line@.len() >= 2 {
            assert(line@.take(2)[0] == line@[0]);
            assert(line@.take(2)[1] == line@[1]);
        }
    }
    if let Some(node) = try_parse_node_decl(&line) {
        flush_pending(pending, stmts);
        let s = Stmt::Node(node);
        proof {
            assert(stmts_view(stmts@.push(s)) =~= stmts_view(stmts@).push(s@));
        }
        stmts.push(s);
        return;
    }
    let hops = match try_parse_edge_line(&line) {
        Some(h) => h,
        None => {
            return;
        },
    };
    let ghost hv = hops_view(hops@);
    if hops.len() == 0 {
        return;
    }
    assert(hv[0] == hops@[0]@);
    if hops.len() == 1 && hops[0].label.is_some() {
        let h = &hops[0];
        let extend = match pending {
            Some((chain, arrow)) => *arrow == h.arrow && last_is(chain, &h.from),
            None => false,
        };
        if extend {
            let (mut chain, arrow) = pending.take().unwrap();
            chain.push(string_of(h.to.as_slice()));
            let s = Stmt::Edge(EdgeDecl { chain, arrow, label: opt_string(&h.label) });
            proof {
                assert(stmts_view(stmts@.push(s)) =~= stmts_view(stmts@).push(s@));
                assert(strings_view(chain@) =~= (old(pending)->0).0@.map_values(|s: String| s@).push(
                    h.to@,
                ));
            }
            stmts.push(s);
        } else {
            flush_pending(pending, stmts);
            let mut chain: Vec<String> = Vec::new();
            chain.push(string_of(h.from.as_slice()));
            chain.push(string_of(h.to.as_slice()));
            let s = Stmt::Edge(EdgeDecl { chain, arrow: h.arrow, label: opt_string(&h.label) });
            proof {
                assert(strings_view(chain@) =~= seq![h.from@, h.to@]);
                assert(stmts_view(stmts@.push(s)) =~= stmts_view(stmts@).push(s@));
            }
            stmts.push(s);
        }
        return;
    }
    flush_pending(pending, stmts);
    let arrow = hops[0].arrow;
    let mut chain_chars: Vec<Vec<char>> = Vec::new();
    chain_chars.push(copy_chars(&hops[0].from));
    let mut i: usize = 0;
    while i < hops.len()
        invariant
            i <= hops@.len(),
            hv == hops_view(hops@),
            hops@.len() > 0,
            chain_chars@.map_values(|c: Vec<char>| c@) == seq![hv[0].from] + hv.take(
                i as int,
            ).map_values(|h: SpecHop| h.to),
        decreases hops@.len() - i,
    {
        let t = copy_chars(&hops[i].to);
        proof {
            assert(hv[i as int] == hops@[i as int]@);
            assert(chain_chars@.push(t).map_values(|c: Vec<char>| c@) =~= chain_chars@.map_values(
                |c: Vec<char>| c@,
            ).push(t@));
            assert(hv.take(i + 1).map_values(|h: SpecHop| h.to) =~= hv.take(i as int).map_values(
                |h: SpecHop| h.to,
            ).push(hv[i as int].to));
        }
        chain_chars.push(t);
        i += 1;
    }
    assert(hv.take(hv.len() as int) =~= hv);
    let chain = strings_of_chars(&chain_chars);
    assert(strings_view(chain@) =~= hop_chain(hv));
    let last = hops.len() - 1;
    assert(hv.last() == hops@[last as int]@);
    match &hops[last].label {
        Some(l) => {
            let s = Stmt::Edge(EdgeDecl { chain, arrow, label: Some(string_of(l.as_slice())) });
            proof {
                assert(stmts_view(stmts@.push(s)) =~= stmts_view(stmts@).push(s@));
            }
            stmts.push(s);
        },
        None => {
            *pending = Some((chain, arrow));
        },
    }
}

/// Read a Mermaid flowchart back into a graph; lines that are neither node
/// declarations nor edges are skipped.
pub fn parse(src: &str) -> (r: Result<Graph, String>)
    ensures
        match r {
            Ok(g) => decompile_graph(src@) == Ok::<_, Seq<char>>(g@),
            Err(e) => decompile_graph(src@) == Err::<SpecGraph, _>(e@),
        },
{
    let chars = chars_of(src);
    let ls = split_lines(chars.as_slice());
    let ghost lv = ls@.map_values(|l: Vec<char>| l@);
    let mut k: usize = 0;
    assert(lv.skip(0) =~= lv);
    loop
        invariant
            k <= ls@.len(),
            lv == ls@.map_values(|l: Vec<char>| l@),
            first_nonblank(lv) == k + first_nonblank(lv.skip(k as int)),
        ensures
            k <= ls@.len(),
            first_nonblank(lv) == k + first_nonblank(lv.skip(k as int)),
            k < ls@.len() ==> trim(lv[k as int]).len() > 0,
        decreases ls@.len() - k,
    {
        if k >= ls.len() {
            break;
        }
        let t = trim_chars(ls[k].as_slice());
        assert(lv[k as int] == ls@[k as int]@);
        if t.len() > 0 {
            break;
        }
        proof {
            assert(lv.skip(k as int).skip(1) =~= lv.skip(k + 1));
        }
        k += 1;
    }
    if k >= ls.len() {
        assert(lv.skip(k as int).len() == 0);
        let mut msg = String::new();
        append_str(&mut msg, "empty input");
        return Err(msg);
    }
    let header = trim_chars(ls[k].as_slice());
    assert(lv[k as int] == ls@[k as int]@);
    assert(lv.skip(k as int)[0] == lv[k as int]);
    assert(first_nonblank(lv) == k);
    assert(header@ == trim(lv[k as int]));
    let direction = parse_direction(&header)?;
    let mut stmts: Vec<Stmt> = Vec::new();
    let mut pending: Option<(Vec<String>, Arrow)> = None;
    let ghost rest = lv.skip(k + 1);
    let mut i = k + 1;
    assert(stmts_view(stmts@) =~= Seq::<SpecStmt>::empty());
    assert(rest.take(0) =~= Seq::<Seq<char>>::empty());
    while i < ls.len()
        invariant
            k + 1 <= i <= ls@.len(),
            lv == ls@.map_values(|l: Vec<char>| l@),
            rest == lv.skip(k + 1),
            state_view(stmts, pending) == decompile_fold(initial_state(), rest.take(i - (k + 1))),
        decreases ls@.len() - i,
    {
        apply_line(&mut stmts, &mut pending, &ls[i]);
        proof {
            assert(rest.take(i + 1 - (k + 1)).drop_last() =~= rest.take(i - (k + 1)));
            assert(rest.take(i + 1 - (k + 1)).last() == ls@[i as int]@);
        }
        i += 1;
    }
    assert(rest.take(i - (k + 1)) =~= rest);
    flush_pending(&mut pending, &mut stmts);
    Ok(Graph { direction, stmts })
}

proof fn lemma_word_end_at(s: Seq<char>, p: int, e: int)
    requires
        0 <= p <= e <= s.len(),
        forall|i: int| p <= i < e ==> !is_ascii_ws(#[trigger] s[i]),
        e == s.len() || is_ascii_ws(s[e]),
    ensures
        word_end(s, p) == e,
    decreases e - p,
{
    if p < e {
        lemma_word_end_at(s, p + 1, e);
    }
}

proof fn lemma_skip_ws_at(s: Seq<char>, p: int, e: int)
    requires
        0 <= p <= e < s.len(),
        forall|i: int| p <= i < e ==> is_ascii_ws(#[trigger] s[i]),
        !is_ascii_ws(s[e]),
    ensures
        skip_ascii_ws(s, p) == e,
    decreases e - p,
{
    if p < e {
        lemma_skip_ws_at(s, p + 1, e);
    }
}

/// A `flowchart TB` header reads as top-down, the same direction as
/// `flowchart TD`, whatever white space separates the words and whatever
/// follows the direction.
pub proof fn law_tb_reads_as_td(gap: Seq<char>, rest: Seq<char>)
    requires
        gap.len() > 0,
        forall|i: int| 0 <= i < gap.len() ==> is_ascii_ws(#[trigger] gap[i]),
        rest.len() == 0 || is_ascii_ws(rest[0]),
    ensures
        header_direction("flowchart"@ + gap + "TB"@ + rest) == Ok::<Direction, Seq<char>>(Direction::TD),
        header_direction("flowchart"@ + gap + "TB"@ + rest) == header_direction("flowchart"@ + gap + "TD"@ + rest),
{
    reveal_strlit("flowchart");
    reveal_strlit("TB");
    reveal_strlit("TD");
    reveal_strlit("LR");
    reveal_strlit("RL");
    reveal_strlit("BT");
    assert("TB"@ != "LR"@ && "TB"@ != "RL"@ && "TD"@ != "LR"@ && "TD"@ != "RL"@) by {
        assert("TB"@[0] != "LR"@[0] && "TB"@[0] != "RL"@[0]);
    }
    lemma_header_word_at(gap, rest, "TB"@);
    lemma_header_word_at(gap, rest, "TD"@);
}

proof fn lemma_header_word_at(gap: Seq<char>, rest: Seq<char>, dir: Seq<char>)
    requires
        gap.len() > 0,
        forall|i: int| 0 <= i < gap.len() ==> is_ascii_ws(#[trigger] gap[i]),
        rest.len() == 0 || is_ascii_ws(rest[0]),
        dir.len() == 2,
        !is_ascii_ws(dir[0]),
        !is_ascii_ws(dir[1]),
    ensures
        ({
            let t = "flowchart"@ + gap + dir + rest;
            let (first, p) = next_word(t, 0);
            let (second, _) = next_word(t, p);
            first == "flowchart"@ && second == dir
        }),
{
    reveal_strlit("flowchart");
    let f = "flowchart"@;
    let t = f + gap + dir + rest;
    let g = gap.len() as int;
    assert(t[0] == 'f');
    lemma_skip_ws_at(t, 0, 0);
    assert forall|i: int| 0 <= i < 9 implies !is_ascii_ws(#[trigger] t[i]) by {
        assert(t[i] == f[i]);
    }
    assert(t[9] == gap[0]);
    lemma_word_end_at(t, 0, 9);
    assert(t.subrange(0, 9) =~= f);
    assert forall|i: int| 9 <= i < 9 + g implies is_ascii_ws(#[trigger] t[i]) by {
        assert(t[i] == gap[i - 9]);
    }
    assert(t[9 + g] == dir[0]);
    lemma_skip_ws_at(t, 9, 9 + g);
    assert forall|i: int| 9 + g <= i < 11 + g implies !is_ascii_ws(#[trigger] t[i]) by {
        assert(t[i] == dir[i - 9 - g]);
    }
    if rest.len() > 0 {
        assert(t[11 + g] == rest[0]);
    }
    lemma_word_end_at(t, 9 + g, 11 + g);
    assert(t.subrange(9 + g, 11 + g) =~= dir);
}

} // verus!
