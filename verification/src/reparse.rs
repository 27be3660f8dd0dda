//! The canonical gph text of a graph lexes and parses back to that graph, so
//! that compiling what `decompile` writes gives the Mermaid text back.
use vstd::prelude::*;
use crate::ast::{Arrow, Direction, Shape, SpecEdge, SpecGraph, SpecNode, SpecStmt};
use crate::gph_printer::{
    arrow_keyword, dir_keyword, escape_label, print_edge_spec, print_node_spec, print_spec, print_stmt_spec,
    print_stmts_spec, shape_suffix,
};
use crate::parser::{
    arrow_of, direction_of, kind_at, parse_endpoints, parse_node_spec, parse_spec, parse_stmt_spec,
    parse_stmts_spec, shape_of,
};
use crate::lexer::{
    ident_end, is_ident_continue_char, lex_from, lex_spec, lex_step, scan_string, unescape_char, SpecScan,
    SpecLexError, SpecStep, SpecToken, SpecTokenKind,
};
use crate::mml::readback::mml_ident;
use crate::text::{is_white_space, join, replace};
use crate::codegen::{mermaid_lines, mermaid_text, stmt_lines, stmts_lines};
use crate::mermaid_parser::decompile_graph;
use crate::mml::readback::labels_one_line;
use crate::pipeline::{compile_spec, lex_and_parse_spec};
use crate::decompile_spec;
use crate::readback::lemma_replace_keep;

verus! {

/// The kinds of a token sequence.
pub open spec fn token_kinds(ts: Seq<SpecToken>) -> Seq<SpecTokenKind> {
    ts.map_values(|t: SpecToken| t.kind)
}

/// Lexing `chars` from `pos` succeeds from any line and column, with tokens of kinds `ks`.
pub open spec fn lexes_to(chars: Seq<char>, pos: int, ks: Seq<SpecTokenKind>) -> bool {
    forall|l: int, c: int| #[trigger] lex_from(chars, pos, l, c) matches Ok(ts) && token_kinds(ts) == ks
}

/// `t` stands in `chars` at `pos`.
pub open spec fn placed(chars: Seq<char>, pos: int, t: Seq<char>) -> bool {
    &&& 0 <= pos
    &&& pos + t.len() <= chars.len()
    &&& forall|i: int| 0 <= i < t.len() ==> chars[pos + i] == #[trigger] t[i]
}

proof fn lemma_kinds_cons(t: SpecToken, ts: Seq<SpecToken>)
    ensures
        token_kinds(seq![t] + ts) == seq![t.kind] + token_kinds(ts),
{
    assert(token_kinds(seq![t] + ts) =~= seq![t.kind] + token_kinds(ts));
}

proof fn lemma_lex_end(chars: Seq<char>)
    ensures
        lexes_to(chars, chars.len() as int, seq![]),
{
    assert forall|l: int, c: int| #[trigger] lex_from(chars, chars.len() as int, l, c) matches Ok(ts)
        && token_kinds(ts) == Seq::<SpecTokenKind>::empty() by {
        assert(token_kinds(Seq::<SpecToken>::empty()) =~= Seq::<SpecTokenKind>::empty());
    }
}

/// A space or a line break is skipped.
proof fn lemma_lex_space(chars: Seq<char>, pos: int, ks: Seq<SpecTokenKind>)
    requires
        0 <= pos < chars.len(),
        chars[pos] == ' ' || chars[pos] == '\n',
        lexes_to(chars, pos + 1, ks),
    ensures
        lexes_to(chars, pos, ks),
{
    assert forall|l: int, c: int| #[trigger] lex_from(chars, pos, l, c) matches Ok(ts) && token_kinds(ts) == ks by {
        if chars[pos] == '\n' {
            assert(lex_from(chars, pos, l, c) == lex_from(chars, pos + 1, l + 1, 1));
        } else {
            assert(lex_from(chars, pos, l, c) == lex_from(chars, pos + 1, l, c + 1));
        }
    }
}

/// A parenthesis is a token of its own.
proof fn lemma_lex_paren(chars: Seq<char>, pos: int, ks: Seq<SpecTokenKind>)
    requires
        0 <= pos < chars.len(),
        chars[pos] == '(' || chars[pos] == ')',
        lexes_to(chars, pos + 1, ks),
    ensures
        lexes_to(
            chars,
            pos,
            seq![if chars[pos] == '(' { SpecTokenKind::LParen } else { SpecTokenKind::RParen }] + ks,
        ),
{
    let k = if chars[pos] == '(' { SpecTokenKind::LParen } else { SpecTokenKind::RParen };
    assert forall|l: int, c: int| #[trigger] lex_from(chars, pos, l, c) matches Ok(ts) && token_kinds(ts) == seq![k] + ks by {
        let t = SpecToken { kind: k, line: l, col: c };
        assert(lex_from(chars, pos, l, c) == crate::lexer::prepend_token(t, lex_from(chars, pos + 1, l, c + 1)));
        let ts = lex_from(chars, pos + 1, l, c + 1)->Ok_0;
        lemma_kinds_cons(t, ts);
    }
}


proof fn lemma_ident_end_at(chars: Seq<char>, q: int, e: int)
    requires
        0 <= q <= e <= chars.len(),
        forall|i: int| q <= i < e ==> is_ident_continue_char(#[trigger] chars[i]),
        e == chars.len() || !is_ident_continue_char(chars[e]),
    ensures
        ident_end(chars, q) == e,
    decreases e - q,
{
    if q < e {
        lemma_ident_end_at(chars, q + 1, e);
    }
}

/// An identifier not followed by an identifier character is one token.
proof fn lemma_lex_ident(chars: Seq<char>, pos: int, id: Seq<char>, ks: Seq<SpecTokenKind>)
    requires
        placed(chars, pos, id),
        mml_ident(id),
        pos + id.len() == chars.len() || !is_ident_continue_char(chars[pos + id.len()]),
        lexes_to(chars, pos + id.len(), ks),
    ensures
        lexes_to(chars, pos, seq![SpecTokenKind::Ident(id)] + ks),
{
    let e = pos + id.len();
    assert(chars[pos] == id[0]);
    assert forall|i: int| pos <= i < e implies is_ident_continue_char(#[trigger] chars[i]) by {
        assert(chars[pos + (i - pos)] == id[i - pos]);
    }
    lemma_ident_end_at(chars, pos, e);
    assert(chars.subrange(pos, e) =~= id) by {
        assert forall|i: int| 0 <= i < id.len() implies chars.subrange(pos, e)[i] == id[i] by {
            assert(chars[pos + i] == id[i]);
        }
    }
    let k = SpecTokenKind::Ident(id);
    assert forall|l: int, c: int| #[trigger] lex_from(chars, pos, l, c) matches Ok(ts) && token_kinds(ts) == seq![k] + ks by {
        let t = SpecToken { kind: k, line: l, col: c };
        assert(lex_step(chars, pos, l, c) == SpecStep::Emit { tok: t, pos: e, line: l, col: c + (e - pos) });
        assert(lex_from(chars, pos, l, c) == crate::lexer::prepend_token(t, lex_from(chars, e, l, c + (e - pos))));
        let ts = lex_from(chars, e, l, c + (e - pos))->Ok_0;
        lemma_kinds_cons(t, ts);
    }
}

/// An arrow keyword is one token, whatever follows it.
proof fn lemma_lex_arrow(chars: Seq<char>, pos: int, a: Arrow, ks: Seq<SpecTokenKind>)
    requires
        placed(chars, pos, arrow_keyword(a)),
        lexes_to(chars, pos + arrow_keyword(a).len(), ks),
    ensures
        lexes_to(chars, pos, seq![SpecTokenKind::Arrow(arrow_keyword(a))] + ks),
{
    reveal_strlit("->");
    reveal_strlit("-->");
    reveal_strlit("=>");
    reveal_strlit("-o");
    reveal_strlit("-x");
    let w = arrow_keyword(a);
    let e = pos + w.len();
    assert(chars[pos] == w[0]);
    assert(chars[pos + 1] == w[1]);
    if w.len() == 3 {
        assert(chars[pos + 2] == w[2]);
    }
    let k = SpecTokenKind::Arrow(w);
    assert forall|l: int, c: int| #[trigger] lex_from(chars, pos, l, c) matches Ok(ts) && token_kinds(ts) == seq![k] + ks by {
        let t = SpecToken { kind: k, line: l, col: c };
        assert(lex_step(chars, pos, l, c) == SpecStep::Emit { tok: t, pos: e, line: l, col: c + w.len() });
        assert(lex_from(chars, pos, l, c) == crate::lexer::prepend_token(t, lex_from(chars, e, l, c + w.len())));
        let ts = lex_from(chars, e, l, c + w.len())->Ok_0;
        lemma_kinds_cons(t, ts);
    }
}

/// How one label character is written inside a gph string literal.
pub open spec fn quote_escape_char(c: char) -> Seq<char> {
    if c == '\\' {
        seq!['\\', '\\']
    } else if c == '"' {
        seq!['\\', '"']
    } else {
        seq![c]
    }
}

pub proof fn lemma_escape_cons(c: char, r: Seq<char>)
    ensures
        escape_label(seq![c] + r, false) == quote_escape_char(c) + escape_label(r, false),
{
    reveal_strlit("\\");
    reveal_strlit("\\\\");
    reveal_strlit("\"");
    reveal_strlit("\\\"");
    let s = seq![c] + r;
    assert(s.skip(1) =~= r);
    assert(s.take(1) =~= seq![c]);
    let bs = "\\"@;
    let bs2 = "\\\\"@;
    let q = "\""@;
    let q2 = "\\\""@;
    let a = replace(s, bs, bs2);
    let ar = replace(r, bs, bs2);
    if c == '\\' {
        assert(s.take(1) =~= bs);
        assert(a == bs2 + ar);
        assert(a.take(2) =~= bs2);
        assert(a.skip(2) =~= ar);
        lemma_replace_keep(a, bs2, q, q2);
        assert(quote_escape_char(c) =~= bs2);
    } else {
        assert(s.take(1) != bs) by {
            assert(s.take(1)[0] != bs[0]);
        }
        assert(a == seq![c] + ar);
        assert(a.take(1) =~= seq![c]);
        assert(a.skip(1) =~= ar);
        if c == '"' {
            assert(a.take(1) =~= q);
            assert(replace(a, q, q2) == q2 + replace(ar, q, q2));
            assert(quote_escape_char(c) =~= q2);
        } else {
            assert(a.take(1) != q) by {
                assert(a.take(1)[0] != q[0]);
            }
            assert(replace(a, q, q2) == seq![c] + replace(ar, q, q2));
        }
    }
}

/// Scanning the escaped form of `l` up to its closing quote reads `l`.
#[verifier::spinoff_prover]
proof fn lemma_scan_escaped(
    chars: Seq<char>,
    pos: int,
    l: Seq<char>,
    line: int,
    col: int,
    text: Seq<char>,
    tl: int,
    tc: int,
)
    requires
        placed(chars, pos, escape_label(l, false)),
        pos + escape_label(l, false).len() < chars.len(),
        chars[pos + escape_label(l, false).len()] == '"',
    ensures
        scan_string(chars, pos, line, col, text, tl, tc) matches SpecScan::Done { text: t2, pos: p2, .. }
            && t2 == text + l && p2 == pos + escape_label(l, false).len() + 1,
    decreases l.len(),
{
    if l.len() == 0 {
        assert(escape_label(l, false) =~= Seq::<char>::empty());
        assert(text + l =~= text);
    } else {
        let c = l[0];
        let r = l.skip(1);
        assert(l =~= seq![c] + r);
        lemma_escape_cons(c, r);
        let e = quote_escape_char(c);
        let er = escape_label(r, false);
        let whole = escape_label(l, false);
        assert(whole == e + er);
        assert(chars[pos] == whole[0]);
        assert(placed(chars, pos + e.len(), er)) by {
            assert forall|i: int| 0 <= i < er.len() implies chars[pos + e.len() + i] == #[trigger] er[i] by {
                assert(chars[pos + (e.len() + i)] == whole[e.len() + i]);
            }
        }
        assert(chars[pos + e.len() + er.len()] == '"');
        assert(text.push(c) + r =~= text + l);
        if c == '\\' || c == '"' {
            assert(chars[pos + 1] == whole[1]);
            assert(unescape_char(chars[pos + 1]) == c);
            lemma_scan_escaped(chars, pos + 2, r, line, col + 2, text.push(c), tl, tc);
        } else if c == '\n' {
            lemma_scan_escaped(chars, pos + 1, r, line + 1, 1, text.push(c), tl, tc);
        } else {
            lemma_scan_escaped(chars, pos + 1, r, line, col + 1, text.push(c), tl, tc);
        }
    }
}

/// A string literal holding the escaped form of `l` is one token with text `l`.
proof fn lemma_lex_string(chars: Seq<char>, pos: int, l: Seq<char>, ks: Seq<SpecTokenKind>)
    requires
        0 <= pos,
        chars[pos] == '"',
        placed(chars, pos + 1, escape_label(l, false)),
        pos + 1 + escape_label(l, false).len() < chars.len(),
        chars[pos + 1 + escape_label(l, false).len()] == '"',
        lexes_to(chars, pos + escape_label(l, false).len() + 2, ks),
    ensures
        lexes_to(chars, pos, seq![SpecTokenKind::Str(l)] + ks),
{
    let k = SpecTokenKind::Str(l);
    let p = pos + escape_label(l, false).len() + 2;
    assert forall|ln: int, c: int| #[trigger] lex_from(chars, pos, ln, c) matches Ok(ts) && token_kinds(ts) == seq![k] + ks by {
        lemma_scan_escaped(chars, pos + 1, l, ln, c + 1, seq![], ln, c);
        assert(seq![] + l =~= l);
        let sc = scan_string(chars, pos + 1, ln, c + 1, seq![], ln, c);
        let l2 = sc->Done_line;
        let k2 = sc->Done_col;
        let t = SpecToken { kind: k, line: ln, col: c };
        assert(lex_step(chars, pos, ln, c) == SpecStep::Emit { tok: t, pos: p, line: l2, col: k2 });
        assert(lex_from(chars, pos, ln, c) == crate::lexer::prepend_token(t, lex_from(chars, p, l2, k2)));
        let ts = lex_from(chars, p, l2, k2)->Ok_0;
        lemma_kinds_cons(t, ts);
    }
}

pub proof fn lemma_placed_char(chars: Seq<char>, pos: int, t: Seq<char>, i: int)
    requires
        placed(chars, pos, t),
        0 <= i < t.len(),
    ensures
        chars[pos + i] == t[i],
{
}

pub proof fn lemma_placed_split(chars: Seq<char>, pos: int, a: Seq<char>, b: Seq<char>)
    requires
        placed(chars, pos, a + b),
    ensures
        placed(chars, pos, a),
        placed(chars, pos + a.len(), b),
{
    assert forall|i: int| 0 <= i < a.len() implies chars[pos + i] == #[trigger] a[i] by {
        assert((a + b)[i] == a[i]);
    }
    assert forall|i: int| 0 <= i < b.len() implies chars[pos + a.len() + i] == #[trigger] b[i] by {
        assert((a + b)[a.len() + i] == b[i]);
        assert(chars[pos + (a.len() + i)] == (a + b)[a.len() + i]);
    }
}

/// The keyword a shape is written with.
pub open spec fn shape_keyword(s: Shape) -> Seq<char> {
    match s {
        Shape::Box => "box"@,
        Shape::Round => "round"@,
        Shape::Diamond => "diamond"@,
        Shape::Stadium => "stadium"@,
        Shape::Hex => "hex"@,
        Shape::Sub => "sub"@,
    }
}

/// The tokens a shape suffix lexes to: none for the default box.
pub open spec fn shape_kinds(s: Shape) -> Seq<SpecTokenKind> {
    if s == Shape::Box {
        seq![]
    } else {
        seq![SpecTokenKind::Ident(shape_keyword(s))]
    }
}

pub proof fn lemma_shape_words(s: Shape)
    ensures
        s != Shape::Box ==> shape_suffix(s) == seq![' '] + shape_keyword(s),
        s == Shape::Box ==> shape_suffix(s).len() == 0,
        mml_ident(shape_keyword(s)),
        crate::parser::shape_of(shape_keyword(s)) == Some(s),
{
    reveal_strlit("");
    reveal_strlit("box");
    reveal_strlit("round");
    reveal_strlit("diamond");
    reveal_strlit("stadium");
    reveal_strlit("hex");
    reveal_strlit("sub");
    reveal_strlit(" round");
    reveal_strlit(" diamond");
    reveal_strlit(" stadium");
    reveal_strlit(" hex");
    reveal_strlit(" sub");
    let w = shape_keyword(s);
    assert(s != Shape::Box ==> shape_suffix(s) =~= seq![' '] + w);
    assert forall|i: int| 1 <= i < w.len() implies crate::mml::parser::is_mml_ident_continue(#[trigger] w[i]) by {}
}

/// The tokens of a node declaration.
pub open spec fn node_kinds(n: SpecNode) -> Seq<SpecTokenKind> {
    match n.label {
        Some(l) => seq![SpecTokenKind::LParen, SpecTokenKind::Ident(n.id), SpecTokenKind::Str(l)] + shape_kinds(
            n.shape,
        ) + seq![SpecTokenKind::RParen],
        None => seq![SpecTokenKind::LParen, SpecTokenKind::Ident(n.id), SpecTokenKind::RParen],
    }
}

/// A printed node declaration lexes to its tokens.
#[verifier::spinoff_prover]
#[verifier::rlimit(30)]
proof fn lemma_lex_node(chars: Seq<char>, pos: int, n: SpecNode, ks: Seq<SpecTokenKind>)
    requires
        mml_ident(n.id),
        placed(chars, pos, print_node_spec(n, false)),
        lexes_to(chars, pos + print_node_spec(n, false).len(), ks),
    ensures
        lexes_to(chars, pos, node_kinds(n) + ks),
{
    reveal_strlit("(");
    reveal_strlit(")");
    reveal_strlit(" \"");
    reveal_strlit("\"");
    let id = n.id;
    let t = print_node_spec(n, false);
    let end = pos + t.len();
    crate::mml::readback::lemma_ident_solid(id);
    match n.label {
        None => {
            assert(t =~= seq!['('] + id + seq![')']);
            lemma_placed_split(chars, pos, seq!['('] + id, seq![')']);
            lemma_placed_split(chars, pos, seq!['('], id);
            lemma_placed_char(chars, pos + 1 + id.len(), seq![')'], 0);
            lemma_lex_paren(chars, pos + 1 + id.len(), ks);
            lemma_lex_ident(chars, pos + 1, id, seq![SpecTokenKind::RParen] + ks);
            lemma_placed_char(chars, pos, seq!['('], 0);
            lemma_lex_paren(chars, pos, seq![SpecTokenKind::Ident(id)] + (seq![SpecTokenKind::RParen] + ks));
            assert(seq![SpecTokenKind::LParen] + (seq![SpecTokenKind::Ident(id)] + (seq![SpecTokenKind::RParen] + ks))
                =~= node_kinds(n) + ks);
        },
        Some(l) => {
            let e = escape_label(l, false);
            let suf = shape_suffix(n.shape);
            lemma_shape_words(n.shape);
            let w = shape_keyword(n.shape);
            assert(t =~= seq!['('] + id + seq![' ', '"'] + e + seq!['"'] + suf + seq![')']);
            let a1 = seq!['('] + id;
            let a2 = a1 + seq![' ', '"'];
            let a3 = a2 + e;
            let a4 = a3 + seq!['"'];
            let a5 = a4 + suf;
            lemma_placed_split(chars, pos, a5, seq![')']);
            lemma_placed_split(chars, pos, a4, suf);
            lemma_placed_split(chars, pos, a3, seq!['"']);
            lemma_placed_split(chars, pos, a2, e);
            lemma_placed_split(chars, pos, a1, seq![' ', '"']);
            lemma_placed_split(chars, pos, seq!['('], id);
            let pc = pos + a5.len();
            lemma_placed_char(chars, pc, seq![')'], 0);
            lemma_lex_paren(chars, pc, ks);
            let k_close = seq![SpecTokenKind::RParen] + ks;
            let ps = pos + a4.len();
            let k_shape = shape_kinds(n.shape) + k_close;
            if n.shape == Shape::Box {
                assert(ps == pc);
                assert(k_shape =~= k_close);
            } else {
                lemma_placed_split(chars, ps, seq![' '], w);
                assert(chars[ps + 1 + w.len()] == ')');
                lemma_lex_ident(chars, ps + 1, w, k_close);
                lemma_placed_char(chars, ps, seq![' '], 0);
                lemma_lex_space(chars, ps, seq![SpecTokenKind::Ident(w)] + k_close);
                assert(k_shape =~= seq![SpecTokenKind::Ident(w)] + k_close);
            }
            let pq = pos + a2.len() - 1;
            assert(chars[pq] == '"');
            lemma_placed_char(chars, pos + a3.len(), seq!['"'], 0);
            lemma_lex_string(chars, pq, l, k_shape);
            let k_str = seq![SpecTokenKind::Str(l)] + k_shape;
            assert(chars[pq - 1] == ' ');
            lemma_lex_space(chars, pq - 1, k_str);
            lemma_lex_ident(chars, pos + 1, id, k_str);
            lemma_placed_char(chars, pos, seq!['('], 0);
            lemma_lex_paren(chars, pos, seq![SpecTokenKind::Ident(id)] + k_str);
            assert(seq![SpecTokenKind::LParen] + (seq![SpecTokenKind::Ident(id)] + k_str) =~= node_kinds(n) + ks);
        },
    }
}

/// Identifier tokens, one per name.
pub open spec fn ident_kinds(c: Seq<Seq<char>>) -> Seq<SpecTokenKind> {
    c.map_values(|id: Seq<char>| SpecTokenKind::Ident(id))
}

/// Names joined by spaces lex to one identifier each.
#[verifier::spinoff_prover]
proof fn lemma_lex_chain(chars: Seq<char>, pos: int, c: Seq<Seq<char>>, ks: Seq<SpecTokenKind>)
    requires
        c.len() >= 1,
        forall|i: int| 0 <= i < c.len() ==> mml_ident(#[trigger] c[i]),
        placed(chars, pos, join(c, " "@)),
        pos + join(c, " "@).len() == chars.len() || !is_ident_continue_char(chars[pos + join(c, " "@).len()]),
        lexes_to(chars, pos + join(c, " "@).len(), ks),
    ensures
        lexes_to(chars, pos, ident_kinds(c) + ks),
    decreases c.len(),
{
    reveal_strlit(" ");
    if c.len() == 1 {
        assert(join(c, " "@) == c[0]);
        lemma_lex_ident(chars, pos, c[0], ks);
        assert(ident_kinds(c) + ks =~= seq![SpecTokenKind::Ident(c[0])] + ks);
    } else {
        let h = c.drop_last();
        let x = c.last();
        let jh = join(h, " "@);
        assert(join(c, " "@) == jh + " "@ + x);
        lemma_placed_split(chars, pos, jh + " "@, x);
        lemma_placed_split(chars, pos, jh, " "@);
        let px = pos + jh.len() + 1;
        assert(mml_ident(x));
        lemma_lex_ident(chars, px, x, ks);
        lemma_placed_char(chars, pos + jh.len(), " "@, 0);
        lemma_lex_space(chars, pos + jh.len(), seq![SpecTokenKind::Ident(x)] + ks);
        assert forall|i: int| 0 <= i < h.len() implies mml_ident(#[trigger] h[i]) by {
            assert(h[i] == c[i]);
        }
        lemma_lex_chain(chars, pos, h, seq![SpecTokenKind::Ident(x)] + ks);
        assert(ident_kinds(h) + (seq![SpecTokenKind::Ident(x)] + ks) =~= ident_kinds(c) + ks);
    }
}

/// The tokens of an edge statement.
pub open spec fn edge_kinds(e: SpecEdge) -> Seq<SpecTokenKind> {
    let head = seq![SpecTokenKind::LParen, SpecTokenKind::Arrow(arrow_keyword(e.arrow))] + ident_kinds(e.chain);
    match e.label {
        Some(l) => head + seq![SpecTokenKind::Str(l), SpecTokenKind::RParen],
        None => head + seq![SpecTokenKind::RParen],
    }
}

/// A printed edge statement lexes to its tokens.
#[verifier::spinoff_prover]
#[verifier::rlimit(30)]
proof fn lemma_lex_edge(chars: Seq<char>, pos: int, e: SpecEdge, ks: Seq<SpecTokenKind>)
    requires
        e.chain.len() >= 1,
        forall|i: int| 0 <= i < e.chain.len() ==> mml_ident(#[trigger] e.chain[i]),
        placed(chars, pos, print_edge_spec(e, false)),
        lexes_to(chars, pos + print_edge_spec(e, false).len(), ks),
    ensures
        lexes_to(chars, pos, edge_kinds(e) + ks),
{
    reveal_strlit("(");
    reveal_strlit(")");
    reveal_strlit(" ");
    reveal_strlit(" \"");
    reveal_strlit("\")");
    let w = arrow_keyword(e.arrow);
    let j = join(e.chain, " "@);
    let t = print_edge_spec(e, false);
    let a1 = seq!['('] + w;
    let a2 = a1 + seq![' '];
    let a3 = a2 + j;
    let pj = pos + a2.len();
    let pe = pos + a3.len();
    let k_chain_rest = match e.label {
        Some(l) => seq![SpecTokenKind::Str(l), SpecTokenKind::RParen] + ks,
        None => seq![SpecTokenKind::RParen] + ks,
    };
    match e.label {
        None => {
            assert(t =~= a3 + seq![')']);
            lemma_placed_split(chars, pos, a3, seq![')']);
            lemma_placed_char(chars, pe, seq![')'], 0);
            lemma_lex_paren(chars, pe, ks);
        },
        Some(l) => {
            let x = escape_label(l, false);
            assert(t =~= a3 + seq![' ', '"'] + x + seq!['"', ')']);
            lemma_placed_split(chars, pos, a3 + seq![' ', '"'] + x, seq!['"', ')']);
            lemma_placed_split(chars, pos, a3 + seq![' ', '"'], x);
            lemma_placed_split(chars, pos, a3, seq![' ', '"']);
            let pc = pe + 2 + x.len();
            lemma_placed_char(chars, pc, seq!['"', ')'], 0);
            lemma_placed_char(chars, pc, seq!['"', ')'], 1);
            lemma_placed_char(chars, pe, seq![' ', '"'], 0);
            lemma_placed_char(chars, pe, seq![' ', '"'], 1);
            lemma_lex_paren(chars, pc + 1, ks);
            lemma_lex_string(chars, pe + 1, l, seq![SpecTokenKind::RParen] + ks);
            lemma_lex_space(chars, pe, seq![SpecTokenKind::Str(l)] + (seq![SpecTokenKind::RParen] + ks));
            assert(seq![SpecTokenKind::Str(l)] + (seq![SpecTokenKind::RParen] + ks) =~= k_chain_rest);
        },
    }
    lemma_placed_split(chars, pos, a2, j);
    lemma_placed_split(chars, pos, a1, seq![' ']);
    lemma_placed_split(chars, pos, seq!['('], w);
    lemma_lex_chain(chars, pj, e.chain, k_chain_rest);
    lemma_placed_char(chars, pos + a1.len(), seq![' '], 0);
    lemma_lex_space(chars, pos + a1.len(), ident_kinds(e.chain) + k_chain_rest);
    lemma_lex_arrow(chars, pos + 1, e.arrow, ident_kinds(e.chain) + k_chain_rest);
    lemma_placed_char(chars, pos, seq!['('], 0);
    lemma_lex_paren(chars, pos, seq![SpecTokenKind::Arrow(w)] + (ident_kinds(e.chain) + k_chain_rest));
    assert(seq![SpecTokenKind::LParen] + (seq![SpecTokenKind::Arrow(w)] + (ident_kinds(e.chain) + k_chain_rest))
        =~= edge_kinds(e) + ks);
}

/// The tokens of a statement.
pub open spec fn stmt_kinds(s: SpecStmt) -> Seq<SpecTokenKind> {
    match s {
        SpecStmt::Node(n) => node_kinds(n),
        SpecStmt::Edge(e) => edge_kinds(e),
    }
}

/// The tokens of statements in order.
pub open spec fn stmts_kinds(ss: Seq<SpecStmt>) -> Seq<SpecTokenKind>
    decreases ss.len(),
{
    if ss.len() == 0 {
        seq![]
    } else {
        stmts_kinds(ss.drop_last()) + stmt_kinds(ss.last())
    }
}

/// The tokens of a printed graph.
pub open spec fn graph_kinds(g: SpecGraph) -> Seq<SpecTokenKind> {
    seq![
        SpecTokenKind::LParen,
        SpecTokenKind::Ident("graph"@),
        SpecTokenKind::Ident(dir_keyword(g.direction)),
    ] + stmts_kinds(g.stmts) + seq![SpecTokenKind::RParen]
}

/// Printed statements lex to their tokens.
#[verifier::spinoff_prover]
proof fn lemma_lex_stmts(chars: Seq<char>, pos: int, ss: Seq<SpecStmt>, ks: Seq<SpecTokenKind>)
    requires
        forall|i: int| 0 <= i < ss.len() ==> crate::gph_readback::ids_ok(#[trigger] ss[i]),
        placed(chars, pos, print_stmts_spec(ss, false)),
        lexes_to(chars, pos + print_stmts_spec(ss, false).len(), ks),
    ensures
        lexes_to(chars, pos, stmts_kinds(ss) + ks),
    decreases ss.len(),
{
    reveal_strlit("\n  ");
    if ss.len() == 0 {
        assert(stmts_kinds(ss) + ks =~= ks);
    } else {
        let h = ss.drop_last();
        let s = ss.last();
        let ph = print_stmts_spec(h, false);
        let t = print_stmt_spec(s, false);
        assert(print_stmts_spec(ss, false) == ph + "\n  "@ + t);
        lemma_placed_split(chars, pos, ph + "\n  "@, t);
        lemma_placed_split(chars, pos, ph, "\n  "@);
        let q = pos + ph.len();
        assert(crate::gph_readback::ids_ok(ss[ss.len() - 1]));
        match s {
            SpecStmt::Node(n) => lemma_lex_node(chars, q + 3, n, ks),
            SpecStmt::Edge(e) => lemma_lex_edge(chars, q + 3, e, ks),
        }
        let k1 = stmt_kinds(s) + ks;
        lemma_placed_char(chars, q, "\n  "@, 0);
        lemma_placed_char(chars, q, "\n  "@, 1);
        lemma_placed_char(chars, q, "\n  "@, 2);
        lemma_lex_space(chars, q + 2, k1);
        lemma_lex_space(chars, q + 1, k1);
        lemma_lex_space(chars, q, k1);
        assert forall|i: int| 0 <= i < h.len() implies crate::gph_readback::ids_ok(#[trigger] h[i]) by {
            assert(h[i] == ss[i]);
        }
        lemma_lex_stmts(chars, pos, h, k1);
        assert(stmts_kinds(h) + k1 =~= stmts_kinds(ss) + ks);
    }
}

pub proof fn lemma_printed_stmts_start(ss: Seq<SpecStmt>, controls: bool)
    requires
        ss.len() > 0,
    ensures
        print_stmts_spec(ss, controls).len() > 0,
        print_stmts_spec(ss, controls)[0] == '\n',
    decreases ss.len(),
{
    reveal_strlit("\n  ");
    let h = ss.drop_last();
    if h.len() > 0 {
        lemma_printed_stmts_start(h, controls);
    } else {
        assert(print_stmts_spec(h, controls).len() == 0);
    }
}

/// The canonical text of a graph lexes to its tokens.
#[verifier::spinoff_prover]
pub proof fn lemma_lex_printed(g: SpecGraph)
    requires
        forall|i: int| 0 <= i < g.stmts.len() ==> crate::gph_readback::ids_ok(#[trigger] g.stmts[i]),
    ensures
        lex_spec(print_spec(g, false)) matches Ok(ts) && token_kinds(ts) == graph_kinds(g),
{
    reveal_strlit("(graph ");
    reveal_strlit("graph");
    reveal_strlit(")");
    reveal_strlit("lr");
    reveal_strlit("rl");
    reveal_strlit("td");
    reveal_strlit("bt");
    let chars = print_spec(g, false);
    let d = dir_keyword(g.direction);
    let body = print_stmts_spec(g.stmts, false);
    let a1 = "(graph "@ + d;
    assert(chars == a1 + body + ")"@);
    assert(placed(chars, 0, chars));
    lemma_placed_split(chars, 0, a1 + body, ")"@);
    lemma_placed_split(chars, 0, a1, body);
    lemma_placed_split(chars, 0, "(graph "@, d);
    assert("(graph "@ =~= seq!['('] + "graph"@ + seq![' ']);
    lemma_placed_split(chars, 0, seq!['('] + "graph"@, seq![' ']);
    lemma_placed_split(chars, 0, seq!['('], "graph"@);
    let pend = (a1.len() + body.len()) as int;
    lemma_lex_end(chars);
    lemma_placed_char(chars, pend, ")"@, 0);
    lemma_lex_paren(chars, pend, seq![]);
    let k_end = seq![SpecTokenKind::RParen] + Seq::<SpecTokenKind>::empty();
    lemma_lex_stmts(chars, a1.len() as int, g.stmts, k_end);
    let k_body = stmts_kinds(g.stmts) + k_end;
    assert(mml_ident(d)) by {
        assert forall|i: int| 1 <= i < d.len() implies crate::mml::parser::is_mml_ident_continue(#[trigger] d[i]) by {}
    }
    // what follows the direction is a line break or the closing parenthesis
    if body.len() > 0 {
        assert(g.stmts.len() > 0);
        let h = g.stmts.drop_last();
        assert(body == print_stmts_spec(h, false) + "\n  "@ + print_stmt_spec(g.stmts.last(), false));
        reveal_strlit("\n  ");
        lemma_printed_stmts_start(g.stmts, false);
        lemma_placed_char(chars, a1.len() as int, body, 0);
    } else {
        lemma_placed_char(chars, pend, ")"@, 0);
    }
    lemma_lex_ident(chars, 7, d, k_body);
    lemma_placed_char(chars, 6, seq![' '], 0);
    lemma_lex_space(chars, 6, seq![SpecTokenKind::Ident(d)] + k_body);
    assert(mml_ident("graph"@)) by {
        assert forall|i: int| 1 <= i < 5 implies crate::mml::parser::is_mml_ident_continue(#[trigger] "graph"@[i]) by {}
    }
    lemma_lex_ident(chars, 1, "graph"@, seq![SpecTokenKind::Ident(d)] + k_body);
    lemma_placed_char(chars, 0, seq!['('], 0);
    lemma_lex_paren(chars, 0, seq![SpecTokenKind::Ident("graph"@)] + (seq![SpecTokenKind::Ident(d)] + k_body));
    assert(seq![SpecTokenKind::LParen] + (seq![SpecTokenKind::Ident("graph"@)] + (seq![SpecTokenKind::Ident(d)] + k_body))
        =~= graph_kinds(g));
    assert(lex_from(chars, 0, 1, 1) matches Ok(ts) && token_kinds(ts) == graph_kinds(g));
}

/// A statement as the parser gives it back: a node without a label as a box.
pub open spec fn reparsed_stmt(s: SpecStmt) -> SpecStmt {
    match s {
        SpecStmt::Node(n) => SpecStmt::Node(
            SpecNode {
                id: n.id,
                label: n.label,
                shape: if n.label is Some {
                    n.shape
                } else {
                    Shape::Box
                },
            },
        ),
        SpecStmt::Edge(e) => SpecStmt::Edge(e),
    }
}

/// A graph as the parser gives back its canonical text.
pub open spec fn reparsed(g: SpecGraph) -> SpecGraph {
    SpecGraph { direction: g.direction, stmts: g.stmts.map_values(|s: SpecStmt| reparsed_stmt(s)) }
}

/// The tokens from `pos` on have the kinds `ks`.
pub open spec fn kinds_at(toks: Seq<SpecToken>, pos: int, ks: Seq<SpecTokenKind>) -> bool {
    &&& 0 <= pos
    &&& pos + ks.len() <= toks.len()
    &&& forall|j: int| 0 <= j < ks.len() ==> (#[trigger] toks[pos + j]).kind == ks[j]
}

proof fn lemma_kinds_at_split(toks: Seq<SpecToken>, pos: int, a: Seq<SpecTokenKind>, b: Seq<SpecTokenKind>)
    requires
        kinds_at(toks, pos, a + b),
    ensures
        kinds_at(toks, pos, a),
        kinds_at(toks, pos + a.len(), b),
{
    assert forall|j: int| 0 <= j < a.len() implies (#[trigger] toks[pos + j]).kind == a[j] by {
        assert((a + b)[j] == a[j]);
    }
    assert forall|j: int| 0 <= j < b.len() implies (#[trigger] toks[pos + a.len() + j]).kind == b[j] by {
        assert((a + b)[a.len() + j] == b[j]);
        assert(toks[pos + (a.len() + j)].kind == (a + b)[a.len() + j]);
    }
}

proof fn lemma_kind_at(toks: Seq<SpecToken>, pos: int, ks: Seq<SpecTokenKind>, j: int)
    requires
        kinds_at(toks, pos, ks),
        0 <= j < ks.len(),
    ensures
        kind_at(toks, pos + j) == Some(ks[j]),
{
    assert(toks[pos + j].kind == ks[j]);
}

proof fn lemma_stmts_kinds_append(a: Seq<SpecStmt>, b: Seq<SpecStmt>)
    ensures
        stmts_kinds(a + b) == stmts_kinds(a) + stmts_kinds(b),
    decreases b.len(),
{
    if b.len() == 0 {
        assert(a + b =~= a);
        assert(stmts_kinds(a) + stmts_kinds(b) =~= stmts_kinds(a));
    } else {
        assert((a + b).drop_last() =~= a + b.drop_last());
        lemma_stmts_kinds_append(a, b.drop_last());
        assert((a + b).last() == b.last());
    }
}

proof fn lemma_keywords_read(a: Arrow, d: Direction)
    ensures
        arrow_of(arrow_keyword(a)) == Some(a),
        direction_of(dir_keyword(d)) == Some(d),
{
    reveal_strlit("->");
    reveal_strlit("-->");
    reveal_strlit("=>");
    reveal_strlit("-o");
    reveal_strlit("-x");
    reveal_strlit("lr");
    reveal_strlit("rl");
    reveal_strlit("td");
    reveal_strlit("bt");
    assert("-->"@.len() == 3);
    assert("->"@[1] != "-o"@[1] && "->"@[1] != "-x"@[1] && "->"@[0] != "=>"@[0]);
    assert("-o"@[1] != "-x"@[1] && "-o"@[0] != "=>"@[0] && "-x"@[0] != "=>"@[0]);
    assert("->"@ != "-->"@);
    assert("=>"@ != "-->"@);
    assert("-o"@ != "-->"@);
    assert("-x"@ != "-->"@);
    assert("->"@ != "=>"@);
    assert("->"@ != "-o"@);
    assert("->"@ != "-x"@);
    assert("=>"@ != "-o"@);
    assert("=>"@ != "-x"@);
    assert("-o"@ != "-x"@);
    assert("lr"@[0] != "rl"@[0] && "lr"@[0] != "td"@[0] && "lr"@[0] != "bt"@[0]);
    assert("rl"@[0] != "td"@[0] && "rl"@[0] != "bt"@[0] && "td"@[0] != "bt"@[0]);
    assert("lr"@ != "rl"@);
    assert("lr"@ != "td"@);
    assert("lr"@ != "bt"@);
    assert("rl"@ != "td"@);
    assert("rl"@ != "bt"@);
    assert("td"@ != "bt"@);
}

/// Identifier tokens followed by a token that ends the endpoints are read as the chain.
proof fn lemma_parse_endpoints(
    toks: Seq<SpecToken>,
    pos: int,
    c: Seq<Seq<char>>,
    acc: Seq<Seq<char>>,
    nodes: Seq<SpecStmt>,
    stop: SpecTokenKind,
)
    requires
        kinds_at(toks, pos, ident_kinds(c) + seq![stop]),
        stop is Str || stop is RParen,
    ensures
        parse_endpoints(toks, pos, acc, nodes) == Ok::<_, crate::parser::SpecParseError>((acc + c, nodes, pos + c.len())),
    decreases c.len(),
{
    lemma_kind_at(toks, pos, ident_kinds(c) + seq![stop], c.len() as int);
    if c.len() == 0 {
        assert(acc + c =~= acc);
    } else {
        lemma_kind_at(toks, pos, ident_kinds(c) + seq![stop], 0);
        let r = c.skip(1);
        assert(ident_kinds(c) + seq![stop] =~= seq![SpecTokenKind::Ident(c[0])] + (ident_kinds(r) + seq![stop]));
        lemma_kinds_at_split(toks, pos, seq![SpecTokenKind::Ident(c[0])], ident_kinds(r) + seq![stop]);
        lemma_parse_endpoints(toks, pos + 1, r, acc.push(c[0]), nodes, stop);
        assert(acc.push(c[0]) + r =~= acc + c);
    }
}

/// The tokens of a printed statement parse back as that statement.
#[verifier::spinoff_prover]
#[verifier::rlimit(30)]
proof fn lemma_parse_stmt(toks: Seq<SpecToken>, pos: int, s: SpecStmt)
    requires
        crate::gph_readback::ids_ok(s),
        kinds_at(toks, pos, stmt_kinds(s)),
    ensures
        parse_stmt_spec(toks, pos) == Ok::<_, crate::parser::SpecParseError>(
            (seq![reparsed_stmt(s)], pos + stmt_kinds(s).len()),
        ),
{
    let ks = stmt_kinds(s);
    lemma_kind_at(toks, pos, ks, 0);
    lemma_kind_at(toks, pos, ks, 1);
    match s {
        SpecStmt::Node(n) => {
            lemma_kind_at(toks, pos, ks, 2);
            lemma_shape_words(n.shape);
            match n.label {
                None => {},
                Some(l) => {
                    lemma_kind_at(toks, pos, ks, 3);
                    if n.shape != Shape::Box {
                        lemma_kind_at(toks, pos, ks, 4);
                    }
                },
            }
            let r = parse_node_spec(toks, pos + 1);
            assert(r == Ok::<_, crate::parser::SpecParseError>((reparsed_stmt(s)->Node_0, pos + ks.len())));
        },
        SpecStmt::Edge(e) => {
            lemma_keywords_read(e.arrow, Direction::LR);
            let head = seq![SpecTokenKind::LParen, SpecTokenKind::Arrow(arrow_keyword(e.arrow))];
            let stop = if e.label is Some { SpecTokenKind::Str(e.label->0) } else { SpecTokenKind::RParen };
            let tail = match e.label {
                Some(l) => seq![SpecTokenKind::Str(l), SpecTokenKind::RParen],
                None => seq![SpecTokenKind::RParen],
            };
            assert(ks =~= head + (ident_kinds(e.chain) + tail));
            lemma_kinds_at_split(toks, pos, head, ident_kinds(e.chain) + tail);
            assert(tail =~= seq![stop] + tail.skip(1));
            assert(ident_kinds(e.chain) + tail =~= (ident_kinds(e.chain) + seq![stop]) + tail.skip(1));
            lemma_kinds_at_split(toks, pos + 2, ident_kinds(e.chain) + seq![stop], tail.skip(1));
            lemma_parse_endpoints(toks, pos + 2, e.chain, seq![], seq![], stop);
            assert(seq![] + e.chain =~= e.chain);
            let p = pos + 2 + e.chain.len();
            lemma_kind_at(toks, pos, ks, 2 + e.chain.len() as int);
            if e.label is Some {
                lemma_kind_at(toks, pos, ks, 3 + e.chain.len() as int);
            }
            assert(Seq::<SpecStmt>::empty().push(SpecStmt::Edge(e)) =~= seq![reparsed_stmt(s)]);
        },
    }
}

/// The tokens of printed statements, then the closing parenthesis, parse back as the statements.
#[verifier::spinoff_prover]
proof fn lemma_parse_stmts(toks: Seq<SpecToken>, pos: int, ss: Seq<SpecStmt>, acc: Seq<SpecStmt>)
    requires
        forall|i: int| 0 <= i < ss.len() ==> crate::gph_readback::ids_ok(#[trigger] ss[i]),
        kinds_at(toks, pos, stmts_kinds(ss) + seq![SpecTokenKind::RParen]),
    ensures
        parse_stmts_spec(toks, pos, acc) == Ok::<_, crate::parser::SpecParseError>(
            (acc + ss.map_values(|s: SpecStmt| reparsed_stmt(s)), pos + stmts_kinds(ss).len() + 1),
        ),
    decreases ss.len(),
{
    let ks = stmts_kinds(ss) + seq![SpecTokenKind::RParen];
    if ss.len() == 0 {
        lemma_kind_at(toks, pos, ks, 0);
        assert(acc + ss.map_values(|s: SpecStmt| reparsed_stmt(s)) =~= acc);
    } else {
        let s = ss[0];
        let r = ss.skip(1);
        assert(ss =~= seq![s] + r);
        lemma_stmts_kinds_append(seq![s], r);
        assert(stmts_kinds(seq![s]) == stmts_kinds(Seq::<SpecStmt>::empty()) + stmt_kinds(s)) by {
            assert(seq![s].drop_last() =~= Seq::<SpecStmt>::empty());
        }
        assert(stmts_kinds(seq![s]) =~= stmt_kinds(s));
        assert(ks =~= stmt_kinds(s) + (stmts_kinds(r) + seq![SpecTokenKind::RParen]));
        lemma_kinds_at_split(toks, pos, stmt_kinds(s), stmts_kinds(r) + seq![SpecTokenKind::RParen]);
        assert(crate::gph_readback::ids_ok(ss[0]));
        lemma_parse_stmt(toks, pos, s);
        lemma_kind_at(toks, pos, ks, 0);
        assert(stmt_kinds(s).len() > 0);
        assert forall|i: int| 0 <= i < r.len() implies crate::gph_readback::ids_ok(#[trigger] r[i]) by {
            assert(r[i] == ss[i + 1]);
        }
        let acc2 = acc + seq![reparsed_stmt(s)];
        lemma_parse_stmts(toks, pos + stmt_kinds(s).len(), r, acc2);
        assert(acc2 + r.map_values(|x: SpecStmt| reparsed_stmt(x)) =~= acc + ss.map_values(|x: SpecStmt| reparsed_stmt(x)));
    }
}

/// The canonical text of a graph whose statements name nodes by identifiers,
/// each edge two of them or more, lexes and parses back to that graph, with the
/// shape of a node without a label read as the default box.
#[verifier::spinoff_prover]
pub proof fn law_printed_reparses(g: SpecGraph)
    requires
        forall|i: int| 0 <= i < g.stmts.len() ==> crate::gph_readback::ids_ok(#[trigger] g.stmts[i]),
    ensures
        crate::pipeline::lex_and_parse_spec(print_spec(g, false)) == Ok::<SpecGraph, Seq<char>>(reparsed(g)),
{
    reveal_strlit("graph");
    lemma_lex_printed(g);
    let toks = lex_spec(print_spec(g, false))->Ok_0;
    let ks = graph_kinds(g);
    assert(kinds_at(toks, 0, ks)) by {
        assert forall|j: int| 0 <= j < ks.len() implies (#[trigger] toks[0 + j]).kind == ks[j] by {
            assert(token_kinds(toks)[j] == toks[j].kind);
        }
    }
    lemma_kind_at(toks, 0, ks, 0);
    lemma_kind_at(toks, 0, ks, 1);
    lemma_kind_at(toks, 0, ks, 2);
    lemma_keywords_read(Arrow::Normal, g.direction);
    let head = seq![
        SpecTokenKind::LParen,
        SpecTokenKind::Ident("graph"@),
        SpecTokenKind::Ident(dir_keyword(g.direction)),
    ];
    assert(ks =~= head + (stmts_kinds(g.stmts) + seq![SpecTokenKind::RParen]));
    lemma_kinds_at_split(toks, 0, head, stmts_kinds(g.stmts) + seq![SpecTokenKind::RParen]);
    lemma_parse_stmts(toks, 3, g.stmts, seq![]);
    assert(seq![] + g.stmts.map_values(|s: SpecStmt| reparsed_stmt(s)) =~= reparsed(g).stmts);
    assert(toks.len() == ks.len());
}

proof fn lemma_reparsed_lines(ss: Seq<SpecStmt>)
    ensures
        stmts_lines(ss.map_values(|s: SpecStmt| reparsed_stmt(s))) == stmts_lines(ss),
    decreases ss.len(),
{
    let rs = ss.map_values(|s: SpecStmt| reparsed_stmt(s));
    if ss.len() > 0 {
        assert(rs.drop_last() =~= ss.drop_last().map_values(|s: SpecStmt| reparsed_stmt(s)));
        lemma_reparsed_lines(ss.drop_last());
        assert(stmt_lines(rs.last()) == stmt_lines(ss.last()));
    }
}

/// The Mermaid text of a graph does not depend on the shape of a node without a label.
pub proof fn lemma_reparsed_mermaid(g: SpecGraph)
    ensures
        mermaid_text(reparsed(g)) == mermaid_text(g),
{
    lemma_reparsed_lines(g.stmts);
    assert(mermaid_lines(reparsed(g)) =~= mermaid_lines(g));
}

/// Compiling the gph text that `decompile` writes for a compiled flowchart
/// gives the same Mermaid text again: `compile`, `decompile`, `compile` ends
/// where the first `compile` did, for every source whose labels hold no line break.
#[verifier::spinoff_prover]
pub proof fn law_compile_round_trip(src: Seq<char>)
    requires
        lex_and_parse_spec(src) matches Ok(g) && labels_one_line(g.stmts),
    ensures
        compile_spec(src) matches Ok(m) && (decompile_spec(m) matches Ok(t) && compile_spec(t) == Ok::<
            Seq<char>,
            Seq<char>,
        >(m)),
{
    crate::gph_readback::law_decompile_reads_compiled(src);
    let m = compile_spec(src)->Ok_0;
    let g2 = decompile_graph(m)->Ok_0;
    law_printed_reparses(g2);
    lemma_reparsed_mermaid(g2);
}

/// A string quoted with the printer's escaping lexes as exactly one string
/// token holding that string, at line 1, column 1.
pub proof fn law_quoted_string_lexes(s: Seq<char>)
    ensures
        lex_spec(seq!['"'] + escape_label(s, false) + seq!['"']) == Ok::<Seq<SpecToken>, SpecLexError>(
            seq![SpecToken { kind: SpecTokenKind::Str(s), line: 1, col: 1 }],
        ),
{
    let e = escape_label(s, false);
    let q = seq!['"'] + e + seq!['"'];
    let n = q.len() as int;
    assert(q[0] == '"');
    assert(q[n - 1] == '"');
    assert(placed(q, 1, e)) by {
        assert forall|i: int| 0 <= i < e.len() implies q[1 + i] == #[trigger] e[i] by {}
    }
    lemma_scan_escaped(q, 1, s, 1, 2, seq![], 1, 1);
    assert(seq![] + s =~= s);
    let sc = scan_string(q, 1, 1, 2, seq![], 1, 1);
    let t = SpecToken { kind: SpecTokenKind::Str(s), line: 1, col: 1 };
    let l2 = sc->Done_line;
    let k2 = sc->Done_col;
    assert(lex_step(q, 0, 1, 1) == SpecStep::Emit { tok: t, pos: n, line: l2, col: k2 });
    assert(lex_from(q, n, l2, k2) == Ok::<Seq<SpecToken>, SpecLexError>(seq![]));
    assert(lex_from(q, 0, 1, 1) == crate::lexer::prepend_token(t, lex_from(q, n, l2, k2)));
    assert(seq![t] + Seq::<SpecToken>::empty() =~= seq![t]);
}

/// How one label character is written inside a string literal when line
/// breaks and tabs are escaped too.
pub open spec fn control_escape_char(c: char) -> Seq<char> {
    if c == '\n' {
        seq!['\\', 'n']
    } else if c == '\t' {
        seq!['\\', 't']
    } else {
        quote_escape_char(c)
    }
}

pub proof fn lemma_control_escape_cons(c: char, r: Seq<char>)
    ensures
        escape_label(seq![c] + r, true) == control_escape_char(c) + escape_label(r, true),
{
    reveal_strlit("\n");
    reveal_strlit("\\n");
    reveal_strlit("\t");
    reveal_strlit("\\t");
    lemma_escape_cons(c, r);
    let nl = "\n"@;
    let nl2 = "\\n"@;
    let tb = "\t"@;
    let tb2 = "\\t"@;
    let q = quote_escape_char(c);
    let er = escape_label(r, false);
    let e = q + er;
    assert(escape_label(seq![c] + r, false) == e);
    assert(e.take(q.len() as int) =~= q);
    assert(e.skip(q.len() as int) =~= er);
    let nr = replace(er, nl, nl2);
    let n = replace(e, nl, nl2);
    if c == '\n' {
        assert(q =~= nl);
        assert(n == nl2 + nr);
        assert((nl2 + nr).take(2) =~= nl2);
        assert((nl2 + nr).skip(2) =~= nr);
        lemma_replace_keep(nl2 + nr, nl2, tb, tb2);
        assert(control_escape_char(c) =~= nl2);
    } else {
        assert forall|i: int| 0 <= i < q.len() implies q[i] != nl[0] by {}
        lemma_replace_keep(e, q, nl, nl2);
        assert(n == q + nr);
        assert((q + nr).take(q.len() as int) =~= q);
        assert((q + nr).skip(q.len() as int) =~= nr);
        if c == '\t' {
            assert(q =~= tb);
            assert(replace(q + nr, tb, tb2) == tb2 + replace(nr, tb, tb2));
            assert(control_escape_char(c) =~= tb2);
        } else {
            assert forall|i: int| 0 <= i < q.len() implies q[i] != tb[0] by {}
            lemma_replace_keep(q + nr, q, tb, tb2);
        }
    }
}

/// Scanning the form of `l` with its controls escaped up to its closing quote reads `l`.
#[verifier::spinoff_prover]
proof fn lemma_scan_control_escaped(
    chars: Seq<char>,
    pos: int,
    l: Seq<char>,
    line: int,
    col: int,
    text: Seq<char>,
    tl: int,
    tc: int,
)
    requires
        placed(chars, pos, escape_label(l, true)),
        pos + escape_label(l, true).len() < chars.len(),
        chars[pos + escape_label(l, true).len()] == '"',
    ensures
        scan_string(chars, pos, line, col, text, tl, tc) matches SpecScan::Done { text: t2, pos: p2, .. }
            && t2 == text + l && p2 == pos + escape_label(l, true).len() + 1,
    decreases l.len(),
{
    if l.len() == 0 {
        assert(escape_label(l, true) =~= Seq::<char>::empty()) by {
            reveal_strlit("\\");
            reveal_strlit("\"");
            reveal_strlit("\n");
            reveal_strlit("\t");
        }
        assert(text + l =~= text);
    } else {
        let c = l[0];
        let r = l.skip(1);
        assert(l =~= seq![c] + r);
        lemma_control_escape_cons(c, r);
        let e = control_escape_char(c);
        let er = escape_label(r, true);
        let whole = escape_label(l, true);
        assert(whole == e + er);
        assert(chars[pos] == whole[0]);
        assert(placed(chars, pos + e.len(), er)) by {
            assert forall|i: int| 0 <= i < er.len() implies chars[pos + e.len() + i] == #[trigger] er[i] by {
                assert(chars[pos + (e.len() + i)] == whole[e.len() + i]);
            }
        }
        assert(chars[pos + e.len() + er.len()] == '"');
        assert(text.push(c) + r =~= text + l);
        if c == '\\' || c == '"' || c == '\n' || c == '\t' {
            assert(chars[pos + 1] == whole[1]);
            assert(unescape_char(chars[pos + 1]) == c);
            lemma_scan_control_escaped(chars, pos + 2, r, line, col + 2, text.push(c), tl, tc);
        } else {
            lemma_scan_control_escaped(chars, pos + 1, r, line, col + 1, text.push(c), tl, tc);
        }
    }
}

/// String literals decode every escape the printer writes: a label quoted
/// with its backslashes, quotes, line breaks and tabs escaped lexes as exactly
/// one string token holding that label, at line 1, column 1.
pub proof fn law_quoted_label_lexes(s: Seq<char>)
    ensures
        lex_spec(seq!['"'] + escape_label(s, true) + seq!['"']) == Ok::<Seq<SpecToken>, SpecLexError>(
            seq![SpecToken { kind: SpecTokenKind::Str(s), line: 1, col: 1 }],
        ),
{
    let e = escape_label(s, true);
    let q = seq!['"'] + e + seq!['"'];
    let n = q.len() as int;
    assert(q[0] == '"');
    assert(q[n - 1] == '"');
    assert(placed(q, 1, e)) by {
        assert forall|i: int| 0 <= i < e.len() implies q[1 + i] == #[trigger] e[i] by {}
    }
    lemma_scan_control_escaped(q, 1, s, 1, 2, seq![], 1, 1);
    assert(seq![] + s =~= s);
    let sc = scan_string(q, 1, 1, 2, seq![], 1, 1);
    let t = SpecToken { kind: SpecTokenKind::Str(s), line: 1, col: 1 };
    let l2 = sc->Done_line;
    let k2 = sc->Done_col;
    assert(lex_step(q, 0, 1, 1) == SpecStep::Emit { tok: t, pos: n, line: l2, col: k2 });
    assert(lex_from(q, n, l2, k2) == Ok::<Seq<SpecToken>, SpecLexError>(seq![]));
    assert(lex_from(q, 0, 1, 1) == crate::lexer::prepend_token(t, lex_from(q, n, l2, k2)));
    assert(seq![t] + Seq::<SpecToken>::empty() =~= seq![t]);
}

} // verus!
