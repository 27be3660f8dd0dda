//! Facts about the Mermaid text the code generator writes that both Mermaid
//! readers rely on when they read it back: how it splits into lines, how its
//! lines trim, and how escaped labels unescape.
use vstd::prelude::*;
use crate::ast::Arrow;
use crate::codegen::{arrow_text, escape_edge_label, escape_node_label};
use crate::mermaid_parser::{bar_end, has_at, link_at, unescape_edge_label, unescape_node_label, ws_end};
use crate::text::{first_index, is_white_space, join, lines, replace, starts_with, strip_cr, trim, trim_end, trim_start};

verus! {

#[verifier::spinoff_prover]
pub proof fn lemma_join_front(parts: Seq<Seq<char>>, sep: Seq<char>)
    requires
        parts.len() >= 2,
    ensures
        join(parts, sep) == parts[0] + sep + join(parts.skip(1), sep),
    decreases parts.len(),
{
    if parts.len() == 2 {
        assert(parts.drop_last().len() == 1);
        assert(join(parts.drop_last(), sep) == parts[0]);
        assert(parts.skip(1).len() == 1);
        assert(join(parts.skip(1), sep) == parts[1]);
        assert(parts.last() == parts[1]);
    } else {
        lemma_join_front(parts.drop_last(), sep);
        assert(parts.drop_last().skip(1) =~= parts.skip(1).drop_last());
        assert(parts.skip(1).last() == parts.last());
        assert(join(parts, sep) =~= parts[0] + sep + join(parts.skip(1), sep));
    }
}

#[verifier::spinoff_prover]
pub proof fn lemma_first_index_absent(s: Seq<char>, c: char)
    requires
        !s.contains(c),
    ensures
        first_index(s, c) == s.len(),
    decreases s.len(),
{
    if s.len() > 0 {
        assert(s[0] != c) by {
            assert(s.contains(s[0]));
        }
        assert forall|i: int| 0 <= i < s.skip(1).len() implies s.skip(1)[i] != c by {
            assert(s.skip(1)[i] == s[i + 1]);
            if s[i + 1] == c {
                assert(s.contains(c));
            }
        }
        lemma_first_index_absent(s.skip(1), c);
    }
}

#[verifier::spinoff_prover]
pub proof fn lemma_first_index_at(a: Seq<char>, b: Seq<char>, c: char)
    requires
        !a.contains(c),
        b.len() > 0,
        b[0] == c,
    ensures
        first_index(a + b, c) == a.len(),
    decreases a.len(),
{
    if a.len() == 0 {
        assert(a + b =~= b);
    } else {
        assert((a + b)[0] == a[0]);
        assert(a[0] != c) by {
            assert(a.contains(a[0]));
        }
        assert((a + b).skip(1) =~= a.skip(1) + b);
        assert(!a.skip(1).contains(c)) by {
            if a.skip(1).contains(c) {
                let i = choose|i: int| 0 <= i < a.skip(1).len() && a.skip(1)[i] == c;
                assert(a[i + 1] == c);
            }
        }
        lemma_first_index_at(a.skip(1), b, c);
    }
}

/// Text with no `'\n'` that does not end with `'\r'` and is not empty.
pub open spec fn plain_line(l: Seq<char>) -> bool {
    l.len() > 0 && !l.contains('\n') && l.last() != '\r'
}

/// Lines without line breaks, joined by `'\n'`, split back into themselves.
#[verifier::spinoff_prover]
pub proof fn lemma_lines_of_join(ls: Seq<Seq<char>>)
    requires
        ls.len() > 0,
        forall|i: int| 0 <= i < ls.len() ==> plain_line(#[trigger] ls[i]),
    ensures
        lines(join(ls, "\n"@)) == ls,
    decreases ls.len(),
{
    reveal_strlit("\n");
    if ls.len() == 1 {
        assert(plain_line(ls[0]));
        lemma_first_index_absent(ls[0], '\n');
        assert(lines(ls[0]) == seq![ls[0]]);
        assert(lines(join(ls, "\n"@)) =~= ls);
    } else {
        lemma_join_front(ls, "\n"@);
        let rest = join(ls.skip(1), "\n"@);
        let s = join(ls, "\n"@);
        assert(plain_line(ls[0]));
        assert(s =~= ls[0] + (seq!['\n'] + rest));
        lemma_first_index_at(ls[0], seq!['\n'] + rest, '\n');
        assert(s.take(ls[0].len() as int) =~= ls[0]);
        assert(s.skip(ls[0].len() + 1 as int) =~= rest);
        assert(strip_cr(ls[0]) == ls[0]);
        assert forall|i: int| 0 <= i < ls.skip(1).len() implies plain_line(#[trigger] ls.skip(1)[i]) by {
            assert(ls.skip(1)[i] == ls[i + 1]);
        }
        lemma_lines_of_join(ls.skip(1));
        assert(lines(s) =~= seq![ls[0]] + ls.skip(1));
        assert(seq![ls[0]] + ls.skip(1) =~= ls);
    }
}

/// Text that begins and ends with characters other than white space trims to itself.
#[verifier::spinoff_prover]
pub proof fn lemma_trim_solid(x: Seq<char>)
    requires
        x.len() > 0,
        !is_white_space(x[0]),
        !is_white_space(x.last()),
    ensures
        trim(x) == x,
{
}

/// A line indented by two spaces trims to its text.
#[verifier::spinoff_prover]
pub proof fn lemma_trim_indented(x: Seq<char>)
    requires
        x.len() > 0,
        !is_white_space(x[0]),
        !is_white_space(x.last()),
    ensures
        trim("  "@ + x) == x,
{
    reveal_strlit("  ");
    let s = "  "@ + x;
    assert(s.skip(1) =~= seq![' '] + x);
    assert(s.skip(1).skip(1) =~= x);
    assert(trim_start(s) == trim_start(s.skip(1)));
    assert(trim_start(s.skip(1)) == trim_start(s.skip(1).skip(1)));
}

/// Replacing keeps a leading run of characters none of which starts the pattern.
#[verifier::spinoff_prover]
pub proof fn lemma_replace_keep(y: Seq<char>, z: Seq<char>, pat: Seq<char>, rep: Seq<char>)
    requires
        pat.len() > 0,
        z.len() <= y.len(),
        y.take(z.len() as int) == z,
        forall|i: int| 0 <= i < z.len() ==> z[i] != pat[0],
    ensures
        replace(y, pat, rep) == z + replace(y.skip(z.len() as int), pat, rep),
    decreases z.len(),
{
    if z.len() == 0 {
        assert(y.skip(0) =~= y);
        assert(z + replace(y, pat, rep) =~= replace(y, pat, rep));
    } else {
        assert(y[0] == z[0]) by {
            assert(y.take(z.len() as int)[0] == y[0]);
        }
        assert(!(pat.len() <= y.len() && y.take(pat.len() as int) == pat)) by {
            if pat.len() <= y.len() && y.take(pat.len() as int) == pat {
                assert(y.take(pat.len() as int)[0] == y[0]);
            }
        }
        assert(y.skip(1).take(z.len() - 1) =~= z.skip(1)) by {
            assert forall|i: int| 0 <= i < z.len() - 1 implies y.skip(1).take(z.len() - 1)[i] == z.skip(1)[i] by {
                assert(y.take(z.len() as int)[i + 1] == y[i + 1]);
            }
        }
        lemma_replace_keep(y.skip(1), z.skip(1), pat, rep);
        assert(y.skip(1).skip(z.len() - 1) =~= y.skip(z.len() as int));
        assert(seq![y[0]] + (z.skip(1) + replace(y.skip(z.len() as int), pat, rep)) =~= z + replace(
            y.skip(z.len() as int),
            pat,
            rep,
        ));
    }
}

/// Replacing cannot make text start with `z` when it did not, if no character of
/// `z` starts the pattern or the replacement.
#[verifier::spinoff_prover]
pub proof fn lemma_replace_no_start(y: Seq<char>, z: Seq<char>, pat: Seq<char>, rep: Seq<char>)
    requires
        pat.len() > 0,
        rep.len() > 0,
        z.len() > 0,
        forall|i: int| 0 <= i < z.len() ==> z[i] != pat[0] && z[i] != rep[0],
        !starts_with(y, z),
    ensures
        !starts_with(replace(y, pat, rep), z),
    decreases y.len(),
{
    let r = replace(y, pat, rep);
    if y.len() == 0 {
    } else if pat.len() <= y.len() && y.take(pat.len() as int) == pat {
        assert(r == rep + replace(y.skip(pat.len() as int), pat, rep));
        assert(r[0] == rep[0]);
        if starts_with(r, z) {
            assert(r.take(z.len() as int)[0] == r[0]);
        }
    } else {
        assert(r == seq![y[0]] + replace(y.skip(1), pat, rep));
        if y[0] != z[0] {
            if starts_with(r, z) {
                assert(r.take(z.len() as int)[0] == r[0]);
            }
        } else if z.len() == 1 {
            assert(y.take(1) =~= z);
        } else {
            assert(!starts_with(y.skip(1), z.skip(1))) by {
                if starts_with(y.skip(1), z.skip(1)) {
                    assert(y.take(z.len() as int) =~= z) by {
                        assert forall|i: int| 0 <= i < z.len() implies y.take(z.len() as int)[i] == z[i] by {
                            if i > 0 {
                                assert(y.skip(1).take(z.len() - 1)[i - 1] == y[i]);
                            }
                        }
                    }
                }
            }
            assert forall|i: int| 0 <= i < z.skip(1).len() implies z.skip(1)[i] != pat[0] && z.skip(1)[i] != rep[0] by {
                assert(z.skip(1)[i] == z[i + 1]);
            }
            lemma_replace_no_start(y.skip(1), z.skip(1), pat, rep);
            if starts_with(r, z) {
                assert(starts_with(replace(y.skip(1), pat, rep), z.skip(1))) by {
                    assert(replace(y.skip(1), pat, rep).take(z.len() - 1) =~= z.skip(1)) by {
                        assert forall|i: int| 0 <= i < z.len() - 1 implies replace(y.skip(1), pat, rep).take(z.len() - 1)[i] == z.skip(1)[i] by {
                            assert(r.take(z.len() as int)[i + 1] == r[i + 1]);
                        }
                    }
                }
            }
        }
    }
}

/// Replacing adds no character that neither the text nor the replacement holds.
#[verifier::spinoff_prover]
pub proof fn lemma_replace_lacks(s: Seq<char>, pat: Seq<char>, rep: Seq<char>, c: char)
    requires
        !s.contains(c),
        !rep.contains(c),
    ensures
        !replace(s, pat, rep).contains(c),
    decreases s.len(),
{
    if s.len() > 0 {
        if 0 < pat.len() <= s.len() && s.take(pat.len() as int) == pat {
            assert(!s.skip(pat.len() as int).contains(c)) by {
                if s.skip(pat.len() as int).contains(c) {
                    let i = choose|i: int| 0 <= i < s.skip(pat.len() as int).len() && s.skip(pat.len() as int)[i] == c;
                    assert(s[i + pat.len()] == c);
                }
            }
            lemma_replace_lacks(s.skip(pat.len() as int), pat, rep, c);
        } else {
            assert(!s.skip(1).contains(c)) by {
                if s.skip(1).contains(c) {
                    let i = choose|i: int| 0 <= i < s.skip(1).len() && s.skip(1)[i] == c;
                    assert(s[i + 1] == c);
                }
            }
            lemma_replace_lacks(s.skip(1), pat, rep, c);
            assert(s[0] != c) by {
                assert(s.contains(s[0]));
            }
        }
    }
}

/// Replacing every `c` by text without `c` leaves no `c`.
#[verifier::spinoff_prover]
pub proof fn lemma_replace_removes(s: Seq<char>, c: char, rep: Seq<char>)
    requires
        !rep.contains(c),
    ensures
        !replace(s, seq![c], rep).contains(c),
    decreases s.len(),
{
    if s.len() > 0 {
        if s.take(1) == seq![c] {
            lemma_replace_removes(s.skip(1), c, rep);
        } else {
            assert(s[0] != c) by {
                if s[0] == c {
                    assert(s.take(1) =~= seq![c]);
                }
            }
            lemma_replace_removes(s.skip(1), c, rep);
        }
    }
}

/// An escaped node label holds no `"`.
#[verifier::spinoff_prover]
pub proof fn lemma_node_label_unquoted(l: Seq<char>)
    ensures
        !escape_node_label(l).contains('"'),
        !l.contains('\n') ==> !escape_node_label(l).contains('\n'),
{
    reveal_strlit("\"");
    reveal_strlit("#quot;");
    assert("\""@ =~= seq!['"']);
    assert(!"#quot;"@.contains('"')) by {
        assert forall|i: int| 0 <= i < "#quot;"@.len() implies "#quot;"@[i] != '"' by {}
    }
    lemma_replace_removes(l, '"', "#quot;"@);
    if !l.contains('\n') {
        assert(!"#quot;"@.contains('\n')) by {
            assert forall|i: int| 0 <= i < "#quot;"@.len() implies "#quot;"@[i] != '\n' by {}
        }
        lemma_replace_lacks(l, "\""@, "#quot;"@, '\n');
    }
}

/// Escaping an unescaped node label without `"` gives it back.
#[verifier::spinoff_prover]
pub proof fn lemma_node_label_round_trip(e: Seq<char>)
    requires
        !e.contains('"'),
    ensures
        escape_node_label(unescape_node_label(e)) == e,
    decreases e.len(),
{
    reveal_strlit("\"");
    reveal_strlit("#quot;");
    let q = "#quot;"@;
    let d = "\""@;
    assert(d =~= seq!['"']);
    if e.len() > 0 {
        let u = unescape_node_label(e);
        if 0 < q.len() <= e.len() && e.take(q.len() as int) == q {
            assert(u == d + unescape_node_label(e.skip(6)));
            assert(!e.skip(6).contains('"')) by {
                if e.skip(6).contains('"') {
                    let i = choose|i: int| 0 <= i < e.skip(6).len() && e.skip(6)[i] == '"';
                    assert(e[i + 6] == '"');
                }
            }
            lemma_node_label_round_trip(e.skip(6));
            assert(u.take(1) =~= d);
            assert(u.skip(1) =~= unescape_node_label(e.skip(6)));
            assert(escape_node_label(u) == q + escape_node_label(u.skip(1)));
            assert(q + e.skip(6) =~= e);
        } else {
            assert(u == seq![e[0]] + unescape_node_label(e.skip(1)));
            assert(e[0] != '"') by {
                assert(e.contains(e[0]));
            }
            assert(!e.skip(1).contains('"')) by {
                if e.skip(1).contains('"') {
                    let i = choose|i: int| 0 <= i < e.skip(1).len() && e.skip(1)[i] == '"';
                    assert(e[i + 1] == '"');
                }
            }
            lemma_node_label_round_trip(e.skip(1));
            assert(u.take(1) =~= seq![e[0]]);
            assert(u.take(1)[0] != d[0]);
            assert(u.skip(1) =~= unescape_node_label(e.skip(1)));
            assert(escape_node_label(u) == seq![e[0]] + escape_node_label(u.skip(1)));
            assert(seq![e[0]] + e.skip(1) =~= e);
        }
    }
}


pub open spec fn bar_entity() -> Seq<char> {
    seq!['#', '1', '2', '4', ';']
}

pub open spec fn quot_entity() -> Seq<char> {
    seq!['#', 'q', 'u', 'o', 't', ';']
}

/// An edge label read back in one pass: `#124;` and `#quot;` stand for `|` and `"`.
pub open spec fn unescape_edge_once(e: Seq<char>) -> Seq<char>
    decreases e.len(),
{
    if e.len() == 0 {
        seq![]
    } else if starts_with(e, bar_entity()) {
        seq!['|'] + unescape_edge_once(e.skip(5))
    } else if starts_with(e, quot_entity()) {
        seq!['"'] + unescape_edge_once(e.skip(6))
    } else {
        seq![e[0]] + unescape_edge_once(e.skip(1))
    }
}

#[verifier::spinoff_prover]
proof fn lemma_edge_literals()
    ensures
        "#124;"@ == bar_entity(),
        "#quot;"@ == quot_entity(),
        "|"@ == seq!['|'],
        "\""@ == seq!['"'],
{
    reveal_strlit("#124;");
    reveal_strlit("#quot;");
    reveal_strlit("|");
    reveal_strlit("\"");
    assert("#124;"@ =~= bar_entity());
    assert("#quot;"@ =~= quot_entity());
    assert("|"@ =~= seq!['|']);
    assert("\""@ =~= seq!['"']);
}

/// Unescaping an edge label entity by entity is the one-pass reading.
#[verifier::spinoff_prover]
pub proof fn lemma_unescape_edge_once(e: Seq<char>)
    ensures
        unescape_edge_label(e) == unescape_edge_once(e),
    decreases e.len(),
{
    lemma_edge_literals();
    let p1 = bar_entity();
    let p2 = quot_entity();
    let r1 = replace(e, p1, seq!['|']);
    if e.len() == 0 {
    } else if starts_with(e, p1) {
        assert(r1 == seq!['|'] + replace(e.skip(5), p1, seq!['|']));
        assert(!(6 <= r1.len() && r1.take(6) == p2)) by {
            if 6 <= r1.len() && r1.take(6) == p2 {
                assert(r1.take(6)[0] == '|');
            }
        }
        assert(r1.skip(1) =~= replace(e.skip(5), p1, seq!['|']));
        lemma_unescape_edge_once(e.skip(5));
        assert(replace(r1, p2, seq!['"']) == seq![r1[0]] + replace(r1.skip(1), p2, seq!['"']));
    } else if starts_with(e, p2) {
        assert(e.take(5) != p1) by {
            assert(e.take(5)[1] != p1[1]);
        }
        assert(r1 == seq![e[0]] + replace(e.skip(1), p1, seq!['|']));
        let z = p2.skip(1);
        assert(e.skip(1).take(5) =~= z) by {
            assert forall|i: int| 0 <= i < 5 implies e.skip(1).take(5)[i] == z[i] by {
                assert(e.take(6)[i + 1] == e[i + 1]);
            }
        }
        lemma_replace_keep(e.skip(1), z, p1, seq!['|']);
        assert(e.skip(1).skip(5) =~= e.skip(6));
        assert(r1 =~= p2 + replace(e.skip(6), p1, seq!['|'])) by {
            assert(seq![e[0]] + (z + replace(e.skip(6), p1, seq!['|'])) =~= p2 + replace(e.skip(6), p1, seq!['|'])) by {
                assert(e[0] == e.take(6)[0]);
            }
        }
        assert(r1.take(6) =~= p2);
        assert(r1.skip(6) =~= replace(e.skip(6), p1, seq!['|']));
        lemma_unescape_edge_once(e.skip(6));
    } else {
        assert(r1 == seq![e[0]] + replace(e.skip(1), p1, seq!['|']));
        assert(r1.skip(1) =~= replace(e.skip(1), p1, seq!['|']));
        assert(!starts_with(r1, p2)) by {
            if e[0] != '#' {
                if starts_with(r1, p2) {
                    assert(r1.take(6)[0] == r1[0]);
                }
            } else {
                let z = p2.skip(1);
                assert(!starts_with(e.skip(1), z)) by {
                    if starts_with(e.skip(1), z) {
                        assert(e.take(6) =~= p2) by {
                            assert forall|i: int| 0 <= i < 6 implies e.take(6)[i] == p2[i] by {
                                if i > 0 {
                                    assert(e.skip(1).take(5)[i - 1] == e[i]);
                                }
                            }
                        }
                    }
                }
                lemma_replace_no_start(e.skip(1), z, p1, seq!['|']);
                if starts_with(r1, p2) {
                    assert(starts_with(r1.skip(1), z)) by {
                        assert(r1.skip(1).take(5) =~= z) by {
                            assert forall|i: int| 0 <= i < 5 implies r1.skip(1).take(5)[i] == z[i] by {
                                assert(r1.take(6)[i + 1] == r1[i + 1]);
                            }
                        }
                    }
                }
            }
        }
        lemma_unescape_edge_once(e.skip(1));
    }
}

/// The escaped form of one label character.
pub open spec fn edge_escape_char(c: char) -> Seq<char> {
    if c == '|' {
        bar_entity()
    } else if c == '"' {
        quot_entity()
    } else {
        seq![c]
    }
}

#[verifier::spinoff_prover]
pub proof fn lemma_escape_edge_cons(c: char, r: Seq<char>)
    ensures
        escape_edge_label(seq![c] + r) == edge_escape_char(c) + escape_edge_label(r),
{
    lemma_edge_literals();
    let s = seq![c] + r;
    assert(s.skip(1) =~= r);
    assert(s.take(1) =~= seq![c]);
    let a = replace(s, seq!['|'], bar_entity());
    let ar = replace(r, seq!['|'], bar_entity());
    if c == '|' {
        assert(a == bar_entity() + ar);
        assert(a.take(5) =~= bar_entity());
        assert(a.skip(5) =~= ar);
        lemma_replace_keep(a, bar_entity(), seq!['"'], quot_entity());
    } else {
        assert(s.take(1) != seq!['|']) by {
            assert(s.take(1)[0] != seq!['|'][0]);
        }
        assert(a == seq![c] + ar);
        assert(a.take(1) =~= seq![c]);
        assert(a.skip(1) =~= ar);
        if c == '"' {
            assert(replace(a, seq!['"'], quot_entity()) == quot_entity() + replace(ar, seq!['"'], quot_entity()));
        } else {
            assert(a.take(1) != seq!['"']) by {
                assert(a.take(1)[0] != seq!['"'][0]);
            }
            assert(replace(a, seq!['"'], quot_entity()) == seq![c] + replace(ar, seq!['"'], quot_entity()));
        }
    }
}

/// Escaping an unescaped edge label that holds no `|` or `"` gives it back.
#[verifier::spinoff_prover]
pub proof fn lemma_edge_label_round_trip(e: Seq<char>)
    requires
        !e.contains('|'),
        !e.contains('"'),
    ensures
        escape_edge_label(unescape_edge_label(e)) == e,
    decreases e.len(),
{
    lemma_unescape_edge_once(e);
    lemma_edge_literals();
    if e.len() == 0 {
        assert(escape_edge_label(seq![]) == Seq::<char>::empty()) by {
            assert(replace(Seq::<char>::empty(), seq!['|'], bar_entity()) == Seq::<char>::empty());
        }
    } else {
        let n: int = if starts_with(e, bar_entity()) {
            5
        } else if starts_with(e, quot_entity()) {
            6
        } else {
            1
        };
        assert(!e.skip(n).contains('|') && !e.skip(n).contains('"')) by {
            if e.skip(n).contains('|') {
                let i = choose|i: int| 0 <= i < e.skip(n).len() && e.skip(n)[i] == '|';
                assert(e[i + n] == '|');
            }
            if e.skip(n).contains('"') {
                let i = choose|i: int| 0 <= i < e.skip(n).len() && e.skip(n)[i] == '"';
                assert(e[i + n] == '"');
            }
        }
        lemma_edge_label_round_trip(e.skip(n));
        lemma_unescape_edge_once(e.skip(n));
        if starts_with(e, bar_entity()) {
            lemma_escape_edge_cons('|', unescape_edge_once(e.skip(5)));
            assert(bar_entity() + e.skip(5) =~= e);
        } else if starts_with(e, quot_entity()) {
            lemma_escape_edge_cons('"', unescape_edge_once(e.skip(6)));
            assert(quot_entity() + e.skip(6) =~= e);
        } else {
            assert(e[0] != '|' && e[0] != '"') by {
                assert(e.contains(e[0]));
            }
            lemma_escape_edge_cons(e[0], unescape_edge_once(e.skip(1)));
            assert(seq![e[0]] + e.skip(1) =~= e);
        }
    }
}

/// An escaped edge label holds no `|` and no `"`, and no line break the label did not.
#[verifier::spinoff_prover]
pub proof fn lemma_edge_label_clean(l: Seq<char>)
    ensures
        !escape_edge_label(l).contains('|'),
        !escape_edge_label(l).contains('"'),
        !l.contains('\n') ==> !escape_edge_label(l).contains('\n'),
{
    lemma_edge_literals();
    let a = replace(l, seq!['|'], bar_entity());
    assert(!bar_entity().contains('|')) by {
        assert forall|i: int| 0 <= i < bar_entity().len() implies bar_entity()[i] != '|' by {}
    }
    assert(!quot_entity().contains('|') && !quot_entity().contains('"') && !quot_entity().contains('\n')) by {
        assert forall|i: int| 0 <= i < quot_entity().len() implies quot_entity()[i] != '|' && quot_entity()[i] != '"' && quot_entity()[i] != '\n' by {}
    }
    assert(!bar_entity().contains('\n')) by {
        assert forall|i: int| 0 <= i < bar_entity().len() implies bar_entity()[i] != '\n' by {}
    }
    lemma_replace_removes(l, '|', bar_entity());
    lemma_replace_lacks(a, seq!['"'], quot_entity(), '|');
    lemma_replace_removes(a, '"', quot_entity());
    if !l.contains('\n') {
        lemma_replace_lacks(l, seq!['|'], bar_entity(), '\n');
        lemma_replace_lacks(a, seq!['"'], quot_entity(), '\n');
    }
}


/// Where the first `k` parts of a join end.
pub open spec fn join_off(c: Seq<Seq<char>>, sep: Seq<char>, k: int) -> int {
    join(c.take(k), sep).len() as int
}

#[verifier::spinoff_prover]
pub proof fn lemma_join_take_step(c: Seq<Seq<char>>, sep: Seq<char>, k: int)
    requires
        1 <= k < c.len(),
    ensures
        join(c.take(k + 1), sep) == join(c.take(k), sep) + sep + c[k],
{
    assert(c.take(k + 1).drop_last() =~= c.take(k));
    assert(c.take(k + 1).last() == c[k]);
}

#[verifier::spinoff_prover]
pub proof fn lemma_join_take_prefix(c: Seq<Seq<char>>, sep: Seq<char>, k: int)
    requires
        1 <= k <= c.len(),
    ensures
        join_off(c, sep, k) <= join(c, sep).len(),
        join(c, sep).take(join_off(c, sep, k)) == join(c.take(k), sep),
    decreases c.len() - k,
{
    if k == c.len() {
        assert(c.take(k) =~= c);
        assert(join(c, sep).take(join(c, sep).len() as int) =~= join(c, sep));
    } else {
        lemma_join_take_prefix(c, sep, k + 1);
        lemma_join_take_step(c, sep, k);
        let jk = join(c.take(k), sep);
        let x = join(c, sep);
        assert(x.take(jk.len() as int) =~= jk) by {
            assert forall|i: int| 0 <= i < jk.len() implies x.take(jk.len() as int)[i] == jk[i] by {
                assert(x.take(join_off(c, sep, k + 1))[i] == join(c.take(k + 1), sep)[i]);
            }
        }
    }
}

/// The characters of a join around the end of its first `k` parts.
#[verifier::spinoff_prover]
pub proof fn lemma_join_segment(c: Seq<Seq<char>>, sep: Seq<char>, k: int)
    requires
        1 <= k < c.len(),
    ensures
        join_off(c, sep, k + 1) == join_off(c, sep, k) + sep.len() + c[k].len(),
        join_off(c, sep, k + 1) <= join(c, sep).len(),
        forall|i: int| 0 <= i < sep.len() ==> join(c, sep)[join_off(c, sep, k) + i] == sep[i],
        forall|i: int| 0 <= i < c[k].len() ==> join(c, sep)[join_off(c, sep, k) + sep.len() + i] == c[k][i],
{
    lemma_join_take_step(c, sep, k);
    lemma_join_take_prefix(c, sep, k + 1);
    let x = join(c, sep);
    let j1 = join(c.take(k + 1), sep);
    let o = join_off(c, sep, k);
    assert forall|i: int| 0 <= i < sep.len() implies x[o + i] == sep[i] by {
        assert(x.take(join_off(c, sep, k + 1))[o + i] == j1[o + i]);
    }
    assert forall|i: int| 0 <= i < c[k].len() implies x[o + sep.len() + i] == c[k][i] by {
        assert(x.take(join_off(c, sep, k + 1))[o + sep.len() + i] == j1[o + sep.len() + i]);
    }
}

/// A join starts with its first part.
#[verifier::spinoff_prover]
pub proof fn lemma_join_first(c: Seq<Seq<char>>, sep: Seq<char>)
    requires
        c.len() >= 1,
    ensures
        join_off(c, sep, 1) == c[0].len(),
        join_off(c, sep, 1) <= join(c, sep).len(),
        forall|i: int| 0 <= i < c[0].len() ==> join(c, sep)[i] == c[0][i],
        join_off(c, sep, c.len() as int) == join(c, sep).len(),
{
    assert(c.take(1) =~= seq![c[0]]);
    assert(join(c.take(1), sep) == c[0]);
    lemma_join_take_prefix(c, sep, 1);
    let x = join(c, sep);
    assert forall|i: int| 0 <= i < c[0].len() implies x[i] == c[0][i] by {
        assert(x.take(join_off(c, sep, 1))[i] == c[0][i]);
    }
    assert(c.take(c.len() as int) =~= c);
}

/// A join of parts that begin and end with non-blank characters does too.
#[verifier::spinoff_prover]
pub proof fn lemma_join_ends(c: Seq<Seq<char>>, sep: Seq<char>)
    requires
        c.len() >= 1,
        forall|i: int| 0 <= i < c.len() ==> (#[trigger] c[i]).len() > 0,
    ensures
        join(c, sep).len() > 0,
        join(c, sep)[0] == c[0][0],
        join(c, sep).last() == c.last().last(),
    decreases c.len(),
{
    if c.len() == 1 {
    } else {
        assert(c.drop_last().len() >= 1);
        assert forall|i: int| 0 <= i < c.drop_last().len() implies (#[trigger] c.drop_last()[i]).len() > 0 by {
            assert(c.drop_last()[i] == c[i]);
        }
        lemma_join_ends(c.drop_last(), sep);
        assert(c.drop_last()[0] == c[0]);
        assert(c[c.len() - 1].len() > 0);
    }
}

#[verifier::spinoff_prover]
pub proof fn lemma_ws_end_one(l: Seq<char>, p: int)
    requires
        0 <= p < l.len(),
        l[p] == ' ',
        p + 1 == l.len() || (l[p + 1] != ' ' && l[p + 1] != '\t'),
    ensures
        ws_end(l, p) == p + 1,
{
    assert(ws_end(l, p + 1) == p + 1);
}

#[verifier::spinoff_prover]
pub proof fn lemma_ws_end_none(l: Seq<char>, p: int)
    requires
        0 <= p <= l.len(),
        p == l.len() || (l[p] != ' ' && l[p] != '\t'),
    ensures
        ws_end(l, p) == p,
{
}

/// A link reads as the arrow whose text stands at `p`.
#[verifier::spinoff_prover]
pub proof fn lemma_link_at(l: Seq<char>, p: int, a: Arrow)
    requires
        0 <= p,
        p + arrow_text(a).len() <= l.len(),
        forall|i: int| 0 <= i < arrow_text(a).len() ==> l[p + i] == arrow_text(a)[i],
    ensures
        link_at(l, p) == Some((a, arrow_text(a).len() as int)),
{
    reveal_strlit("==>");
    reveal_strlit("-.->");
    reveal_strlit("-->");
    reveal_strlit("--o");
    reveal_strlit("--x");
    let t = arrow_text(a);
    assert(l.subrange(p, p + t.len()) =~= t);
    match a {
        Arrow::Thick => {},
        Arrow::Dotted => {
            assert(!has_at(l, p, "==>"@)) by {
                assert(l.subrange(p, p + 3)[0] == l[p]);
            }
        },
        Arrow::Normal => {
            assert(!has_at(l, p, "==>"@)) by {
                assert(l.subrange(p, p + 3)[0] == l[p]);
            }
            assert(!has_at(l, p, "-.->"@)) by {
                if p + 4 <= l.len() {
                    assert(l.subrange(p, p + 4)[1] == l[p + 1]);
                }
            }
        },
        Arrow::Circle => {
            assert(!has_at(l, p, "==>"@)) by {
                assert(l.subrange(p, p + 3)[0] == l[p]);
            }
            assert(!has_at(l, p, "-.->"@)) by {
                if p + 4 <= l.len() {
                    assert(l.subrange(p, p + 4)[1] == l[p + 1]);
                }
            }
            assert(!has_at(l, p, "-->"@)) by {
                assert(l.subrange(p, p + 3)[2] == l[p + 2]);
            }
        },
        Arrow::Cross => {
            assert(!has_at(l, p, "==>"@)) by {
                assert(l.subrange(p, p + 3)[0] == l[p]);
            }
            assert(!has_at(l, p, "-.->"@)) by {
                if p + 4 <= l.len() {
                    assert(l.subrange(p, p + 4)[1] == l[p + 1]);
                }
            }
            assert(!has_at(l, p, "-->"@)) by {
                assert(l.subrange(p, p + 3)[2] == l[p + 2]);
            }
            assert(!has_at(l, p, "--o"@)) by {
                assert(l.subrange(p, p + 3)[2] == l[p + 2]);
            }
        },
    }
}

/// No link starts at the end of a line.
#[verifier::spinoff_prover]
pub proof fn lemma_link_at_end(l: Seq<char>)
    ensures
        link_at(l, l.len() as int) is None,
{
    reveal_strlit("==>");
    reveal_strlit("-.->");
    reveal_strlit("-->");
    reveal_strlit("--o");
    reveal_strlit("--x");
}

#[verifier::spinoff_prover]
pub proof fn lemma_arrow_text_shape(a: Arrow)
    ensures
        3 <= arrow_text(a).len() <= 4,
        arrow_text(a)[0] == '-' || arrow_text(a)[0] == '=',
        forall|i: int| 0 <= i < arrow_text(a).len() ==> arrow_text(a)[i] != ' ' && arrow_text(a)[i] != '|'
            && arrow_text(a)[i] != '\n' && arrow_text(a)[i] != '"',
{
    reveal_strlit("==>");
    reveal_strlit("-.->");
    reveal_strlit("-->");
    reveal_strlit("--o");
    reveal_strlit("--x");
}

/// The first `|` at or after `p` is the one after a run without `|`.
#[verifier::spinoff_prover]
pub proof fn lemma_bar_end(l: Seq<char>, p: int, e: Seq<char>)
    requires
        0 <= p,
        p + e.len() < l.len(),
        forall|i: int| 0 <= i < e.len() ==> l[p + i] == e[i],
        !e.contains('|'),
        l[p + e.len()] == '|',
    ensures
        bar_end(l, p) == p + e.len(),
    decreases e.len(),
{
    if e.len() > 0 {
        assert(l[p] != '|') by {
            assert(e.contains(e[0]));
        }
        assert(!e.skip(1).contains('|')) by {
            if e.skip(1).contains('|') {
                let i = choose|i: int| 0 <= i < e.skip(1).len() && e.skip(1)[i] == '|';
                assert(e[i + 1] == '|');
            }
        }
        assert forall|i: int| 0 <= i < e.skip(1).len() implies l[p + 1 + i] == e.skip(1)[i] by {
            assert(l[p + (i + 1)] == e[i + 1]);
        }
        lemma_bar_end(l, p + 1, e.skip(1));
    }
}

} // verus!
