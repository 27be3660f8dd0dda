//! Line-ending bookkeeping and error reporting of the interactive editor.
//!
//! The editor shows a source as rows without their line breaks; these
//! functions remember each row's original break so that saving writes the
//! exact bytes back, with a default break only for rows that an edit created.
use vstd::prelude::*;
use crate::text::{append_str, chars_of, push_str, slice_chars, string_of};

verus! {

/// The first `'\n'` or `'\r'` at or after `i`, or the end of `s`.
pub open spec fn next_break(s: Seq<char>, i: int) -> int
    decreases s.len() - i,
{
    if 0 <= i < s.len() && s[i] != '\n' && s[i] != '\r' {
        next_break(s, i + 1)
    } else {
        i
    }
}

/// The length of the line break at `k`: `\r\n` is one break.
pub open spec fn break_len(s: Seq<char>, k: int) -> int {
    if s[k] == '\r' && k + 1 < s.len() && s[k + 1] == '\n' {
        2
    } else {
        1
    }
}

/// The rows from `start` on, and the break that ends each row but the last.
pub open spec fn rows_from(s: Seq<char>, start: int) -> (Seq<Seq<char>>, Seq<Seq<char>>)
    decreases s.len() - start,
{
    let k = next_break(s, start);
    if start < 0 || k >= s.len() || k < start {
        (seq![s.subrange(start, s.len() as int)], seq![])
    } else {
        let (rows, breaks) = rows_from(s, k + break_len(s, k));
        (seq![s.subrange(start, k)] + rows, seq![s.subrange(k, k + break_len(s, k))] + breaks)
    }
}

/// The rows of `source` split at `\n`, `\r\n` and lone `\r`.
pub open spec fn logical_rows(source: Seq<char>) -> Seq<Seq<char>> {
    rows_from(source, 0).0
}

/// The break before each row: none before the first, then the one that ended the previous row.
pub open spec fn endings_before(source: Seq<char>) -> Seq<Option<Seq<char>>> {
    seq![None] + rows_from(source, 0).1.map_values(|b: Seq<char>| Some(b))
}

/// The text of rows joined by the break recorded before each row, or `fallback`.
pub open spec fn joined_rows(rows: Seq<Seq<char>>, endings: Seq<Option<Seq<char>>>, fallback: Seq<char>) -> Seq<
    char,
>
    decreases rows.len(),
{
    if rows.len() == 0 {
        seq![]
    } else {
        let row = rows.len() - 1;
        let sep = if row == 0 {
            seq![]
        } else if row < endings.len() && endings[row] is Some {
            endings[row]->0
        } else {
            fallback
        };
        joined_rows(rows.drop_last(), endings, fallback) + sep + rows.last()
    }
}

/// The break record after an edit that removed `removed` breaks and inserted
/// `inserted` breaks after row `start_row`: untouched breaks keep their place,
/// new ones are `fallback`, and the first row never has one.
pub open spec fn edited_endings(
    endings: Seq<Option<Seq<char>>>,
    start_row: int,
    removed: int,
    inserted: int,
    fallback: Seq<char>,
) -> Seq<Option<Seq<char>>> {
    let boundary = if start_row + 1 <= endings.len() {
        start_row + 1
    } else {
        endings.len() as int
    };
    let removed_end = if boundary + removed <= endings.len() {
        boundary + removed
    } else {
        endings.len() as int
    };
    let spliced = endings.take(boundary) + Seq::new(inserted as nat, |i: int| Some(fallback))
        + endings.skip(removed_end);
    if spliced.len() > 0 {
        spliced.update(0, None)
    } else {
        spliced
    }
}

pub open spec fn opt_strings_view(v: Seq<Option<String>>) -> Seq<Option<Seq<char>>> {
    v.map_values(|o: Option<String>| crate::ast::opt_view(o))
}

pub proof fn lemma_next_break(s: Seq<char>, i: int)
    requires
        0 <= i <= s.len(),
    ensures
        i <= next_break(s, i) <= s.len(),
        next_break(s, i) < s.len() ==> (s[next_break(s, i)] == '\n' || s[next_break(s, i)] == '\r'),
        forall|j: int| i <= j < next_break(s, i) ==> s[j] != '\n' && s[j] != '\r',
    decreases s.len() - i,
{
    if i < s.len() && s[i] != '\n' && s[i] != '\r' {
        lemma_next_break(s, i + 1);
    }
}

/// Splitting a source into rows and joining them with their recorded breaks
/// gives the source back, whatever the fallback.
pub proof fn lemma_rows_round_trip(s: Seq<char>, start: int, fallback: Seq<char>)
    requires
        0 <= start <= s.len(),
    ensures
        rows_from(s, start).0.len() == rows_from(s, start).1.len() + 1,
        joined_rows(
            rows_from(s, start).0,
            seq![None] + rows_from(s, start).1.map_values(|b: Seq<char>| Some(b)),
            fallback,
        ) == s.subrange(start, s.len() as int),
    decreases s.len() - start,
{
    lemma_next_break(s, start);
    let k = next_break(s, start);
    if k >= s.len() {
        let rows = rows_from(s, start).0;
        let e = seq![None] + rows_from(s, start).1.map_values(|b: Seq<char>| Some(b));
        assert(rows == seq![s.subrange(start, s.len() as int)]);
        lemma_joined_one(s.subrange(start, s.len() as int), e, fallback);
    } else {
        let n = break_len(s, k);
        lemma_rows_round_trip(s, k + n, fallback);
        let (rows, breaks) = rows_from(s, k + n);
        let all_rows = seq![s.subrange(start, k)] + rows;
        let all_breaks = seq![s.subrange(k, k + n)] + breaks;
        assert(rows_from(s, start) == (all_rows, all_breaks));
        lemma_join_shift(s.subrange(start, k), s.subrange(k, k + n), rows, breaks, fallback);
        assert(s.subrange(start, k) + s.subrange(k, k + n) + s.subrange(k + n, s.len() as int)
            =~= s.subrange(start, s.len() as int));
    }
}

pub proof fn lemma_joined_one(row: Seq<char>, e: Seq<Option<Seq<char>>>, fallback: Seq<char>)
    ensures
        joined_rows(seq![row], e, fallback) == row,
{
    assert(seq![row].drop_last() =~= Seq::<Seq<char>>::empty());
    assert(joined_rows(Seq::<Seq<char>>::empty(), e, fallback) == Seq::<char>::empty());
    assert(Seq::<char>::empty() + Seq::<char>::empty() + row =~= row);
}

/// Joining a row in front of further rows puts its break between them.
pub proof fn lemma_join_shift(
    first: Seq<char>,
    brk: Seq<char>,
    rows: Seq<Seq<char>>,
    breaks: Seq<Seq<char>>,
    fallback: Seq<char>,
)
    requires
        rows.len() == breaks.len() + 1,
    ensures
        joined_rows(
            seq![first] + rows,
            seq![None] + (seq![brk] + breaks).map_values(|b: Seq<char>| Some(b)),
            fallback,
        ) == first + brk + joined_rows(
            rows,
            seq![None] + breaks.map_values(|b: Seq<char>| Some(b)),
            fallback,
        ),
    decreases rows.len(),
{
    let all_rows = seq![first] + rows;
    let all_e = seq![None] + (seq![brk] + breaks).map_values(|b: Seq<char>| Some(b));
    let e = seq![None] + breaks.map_values(|b: Seq<char>| Some(b));
    if rows.len() == 1 {
        assert(all_rows.drop_last() =~= seq![first]);
        assert(all_e[1] == Some(brk));
        lemma_joined_one(first, all_e, fallback);
        assert(rows =~= seq![rows[0]]);
        lemma_joined_one(rows[0], e, fallback);
        assert(joined_rows(all_rows, all_e, fallback) =~= first + brk + rows[0]);
    } else {
        lemma_join_shift(first, brk, rows.drop_last(), breaks.drop_last(), fallback);
        assert(all_rows.drop_last() =~= seq![first] + rows.drop_last());
        let row = all_rows.len() - 1;
        assert(all_e[row] == Some(breaks[row - 2]));
        assert(e[row - 1] == Some(breaks[row - 2]));
        let e_short = seq![None] + breaks.drop_last().map_values(|b: Seq<char>| Some(b));
        let all_e_short = seq![None] + (seq![brk] + breaks.drop_last()).map_values(|b: Seq<char>| Some(b));
        lemma_joined_prefix_endings(rows.drop_last(), e_short, e, fallback);
        lemma_joined_prefix_endings(seq![first] + rows.drop_last(), all_e_short, all_e, fallback);
    }
}

/// Only the breaks before the rows being joined matter.
pub proof fn lemma_joined_prefix_endings(
    rows: Seq<Seq<char>>,
    a: Seq<Option<Seq<char>>>,
    b: Seq<Option<Seq<char>>>,
    fallback: Seq<char>,
)
    requires
        rows.len() <= a.len(),
        rows.len() <= b.len(),
        forall|i: int| 0 <= i < rows.len() ==> a[i] == b[i],
    ensures
        joined_rows(rows, a, fallback) == joined_rows(rows, b, fallback),
    decreases rows.len(),
{
    if rows.len() > 0 {
        lemma_joined_prefix_endings(rows.drop_last(), a, b, fallback);
    }
}

/// The rows of `source` split at `\n`, `\r\n` and lone `\r`, and the break
/// before each row (none before the first).
pub fn logical_lines_and_endings(source: &str) -> (r: (Vec<String>, Vec<Option<String>>))
    ensures
        r.0@.map_values(|s: String| s@) == logical_rows(source@),
        opt_strings_view(r.1@) == endings_before(source@),
{
    let s = chars_of(source);
    let n = s.len();
    let mut lines: Vec<String> = Vec::new();
    let mut endings: Vec<Option<String>> = Vec::new();
    endings.push(None);
    let mut line_start: usize = 0;
    let mut index: usize = 0;
    let ghost full = rows_from(s@, 0);
    assert(lines@.map_values(|x: String| x@) =~= Seq::<Seq<char>>::empty());
    assert(opt_strings_view(endings@) =~= seq![None]);
    assert(full.1.map_values(|b: Seq<char>| Some(b)) =~= Seq::<Seq<char>>::empty().map_values(
        |b: Seq<char>| Some(b),
    ) + full.1.map_values(|b: Seq<char>| Some(b)));
    while index < n
        invariant
            s@ == source@,
            n == s@.len(),
            line_start <= index <= n,
            full == rows_from(s@, 0),
            next_break(s@, line_start as int) == next_break(s@, index as int),
            full.0 == lines@.map_values(|x: String| x@) + rows_from(s@, line_start as int).0,
            seq![None] + full.1.map_values(|b: Seq<char>| Some(b)) == opt_strings_view(endings@)
                + rows_from(s@, line_start as int).1.map_values(|b: Seq<char>| Some(b)),
        decreases n - index,
    {
        let c = s[index];
        if c != '\n' && c != '\r' {
            index += 1;
            continue;
        }
        proof {
            lemma_next_break(s@, line_start as int);
        }
        let sep_len: usize = if c == '\r' && index + 1 < n && s[index + 1] == '\n' {
            2
        } else {
            1
        };
        let line = string_of(slice_chars(s.as_slice(), line_start, index).as_slice());
        let sep = string_of(slice_chars(s.as_slice(), index, index + sep_len).as_slice());
        let ghost rest = rows_from(s@, index + sep_len);
        proof {
            assert(rows_from(s@, line_start as int) == (
                seq![s@.subrange(line_start as int, index as int)] + rest.0,
                seq![s@.subrange(index as int, index + sep_len)] + rest.1,
            ));
            assert(lines@.push(line).map_values(|x: String| x@) =~= lines@.map_values(|x: String| x@).push(line@));
            assert(opt_strings_view(endings@.push(Some(sep))) =~= opt_strings_view(endings@).push(Some(sep@)));
            assert((seq![s@.subrange(index as int, index + sep_len)] + rest.1).map_values(|b: Seq<char>| Some(b))
                =~= seq![Some(sep@)] + rest.1.map_values(|b: Seq<char>| Some(b)));
        }
        lines.push(line);
        endings.push(Some(sep));
        index += sep_len;
        line_start = index;
        proof {
            assert(full.0 =~= lines@.map_values(|x: String| x@) + rows_from(s@, line_start as int).0);
            assert(seq![None] + full.1.map_values(|b: Seq<char>| Some(b)) =~= opt_strings_view(endings@)
                + rows_from(s@, line_start as int).1.map_values(|b: Seq<char>| Some(b)));
        }
    }
    proof {
        lemma_next_break(s@, line_start as int);
        assert(next_break(s@, n as int) == n);
        assert(rows_from(s@, line_start as int).0 =~= seq![s@.subrange(line_start as int, n as int)]);
        assert(rows_from(s@, line_start as int).1 =~= Seq::<Seq<char>>::empty());
    }
    let last = string_of(slice_chars(s.as_slice(), line_start, n).as_slice());
    proof {
        assert(lines@.push(last).map_values(|x: String| x@) =~= lines@.map_values(|x: String| x@).push(last@));
        assert(full.0 =~= lines@.push(last).map_values(|x: String| x@));
        assert(Seq::<Seq<char>>::empty().map_values(|b: Seq<char>| Some(b)).len() == 0);
        assert(seq![None] + full.1.map_values(|b: Seq<char>| Some(b)) =~= opt_strings_view(endings@));
    }
    lines.push(last);
    (lines, endings)
}


/// Saving what was loaded writes the same text back: the rows of a source
/// joined by the breaks recorded before them are the source itself.
pub proof fn lemma_source_round_trip(source: Seq<char>, fallback: Seq<char>)
    ensures
        joined_rows(logical_rows(source), endings_before(source), fallback) == source,
        logical_rows(source).len() == endings_before(source).len(),
{
    lemma_rows_round_trip(source, 0, fallback);
    assert(source.subrange(0, source.len() as int) =~= source);
}

fn copy_opt(o: &Option<String>) -> (r: Option<String>)
    ensures
        crate::ast::opt_view(r) == crate::ast::opt_view(*o),
{
    match o {
        Some(s) => Some(s.clone()),
        None => None,
    }
}

/// Update the break record for an edit: drop the `removed_breaks` breaks after
/// row `start_row`, insert `inserted_breaks` fallback breaks there, and keep
/// the first row without a break.
pub fn apply_line_edit(
    endings: &mut Vec<Option<String>>,
    start_row: usize,
    removed_breaks: usize,
    inserted_breaks: usize,
    fallback: &str,
)
    ensures
        opt_strings_view(final(endings)@) == edited_endings(
            opt_strings_view(old(endings)@),
            start_row as int,
            removed_breaks as int,
            inserted_breaks as int,
            fallback@,
        ),
{
    let ghost e = opt_strings_view(endings@);
    let len = endings.len();
    let boundary = if start_row < len { start_row + 1 } else { len };
    let removed_end = if removed_breaks <= len - boundary { boundary + removed_breaks } else { len };
    let mut result: Vec<Option<String>> = Vec::new();
    let mut i: usize = 0;
    while i < boundary
        invariant
            i <= boundary <= len == endings@.len(),
            e == opt_strings_view(endings@),
            opt_strings_view(result@) == e.take(i as int),
        decreases boundary - i,
    {
        let x = copy_opt(&endings[i]);
        proof {
            assert(opt_strings_view(result@.push(x)) =~= opt_strings_view(result@).push(crate::ast::opt_view(x)));
            assert(e.take(i + 1) =~= e.take(i as int).push(e[i as int]));
        }
        result.push(x);
        i += 1;
    }
    let ghost fb = Seq::new(inserted_breaks as nat, |k: int| Some(fallback@));
    let mut j: usize = 0;
    while j < inserted_breaks
        invariant
            j <= inserted_breaks,
            opt_strings_view(result@) == e.take(boundary as int) + fb.take(j as int),
            fb == Seq::new(inserted_breaks as nat, |k: int| Some(fallback@)),
        decreases inserted_breaks - j,
    {
        let mut s = String::new();
        append_str(&mut s, fallback);
        let x = Some(s);
        proof {
            assert(opt_strings_view(result@.push(x)) =~= opt_strings_view(result@).push(Some(fallback@)));
            assert(fb.take(j + 1) =~= fb.take(j as int).push(Some(fallback@)));
        }
        result.push(x);
        j += 1;
    }
    let mut k = removed_end;
    let ghost mid = e.take(boundary as int) + fb;
    assert(fb.take(inserted_breaks as int) =~= fb);
    assert(e.skip(removed_end as int).take(0) =~= Seq::<Option<Seq<char>>>::empty());
    while k < len
        invariant
            removed_end <= k <= len == endings@.len(),
            e == opt_strings_view(endings@),
            mid == e.take(boundary as int) + fb,
            opt_strings_view(result@) == mid + e.skip(removed_end as int).take(k - removed_end),
        decreases len - k,
    {
        let x = copy_opt(&endings[k]);
        proof {
            assert(opt_strings_view(result@.push(x)) =~= opt_strings_view(result@).push(e[k as int]));
            assert(e.skip(removed_end as int).take(k + 1 - removed_end) =~= e.skip(removed_end as int).take(
                k - removed_end,
            ).push(e[k as int]));
        }
        result.push(x);
        k += 1;
    }
    assert(e.skip(removed_end as int).take(len - removed_end) =~= e.skip(removed_end as int));
    if result.len() > 0 {
        result.set(0, None);
        proof {
            assert(opt_strings_view(result@) =~= (mid + e.skip(removed_end as int)).update(0, None));
        }
    }
    *endings = result;
}

/// The source text of editor rows: each row after the first is preceded by its
/// recorded break, or by `fallback` where none is recorded.
pub fn source_from_lines(lines: &[String], endings_before: &[Option<String>], fallback: &str) -> (r: String)
    ensures
        r@ == joined_rows(lines@.map_values(|s: String| s@), opt_strings_view(endings_before@), fallback@),
{
    let ghost rows = lines@.map_values(|s: String| s@);
    let ghost e = opt_strings_view(endings_before@);
    let mut source = String::new();
    let mut row: usize = 0;
    assert(rows.take(0) =~= Seq::<Seq<char>>::empty());
    while row < lines.len()
        invariant
            row <= lines@.len(),
            rows == lines@.map_values(|s: String| s@),
            e == opt_strings_view(endings_before@),
            source@ == joined_rows(rows.take(row as int), e, fallback@),
        decreases lines@.len() - row,
    {
        let ghost before = source@;
        if row > 0 {
            let recorded = if row < endings_before.len() {
                match &endings_before[row] {
                    Some(s) => Some(s),
                    None => None,
                }
            } else {
                None
            };
            match recorded {
                Some(s) => {
                    let v = chars_of(s.as_str());
                    push_str(&mut source, v.as_slice());
                },
                None => {
                    append_str(&mut source, fallback);
                },
            }
        }
        let l = chars_of(lines[row].as_str());
        push_str(&mut source, l.as_slice());
        proof {
            let t = rows.take(row + 1);
            assert(t.drop_last() =~= rows.take(row as int));
            assert(t.last() == lines@[row as int]@);
            if row < endings_before@.len() {
                assert(e[row as int] == crate::ast::opt_view(endings_before@[row as int]));
            }
            if row == 0 {
                assert(source@ =~= before + Seq::<char>::empty() + t.last());
            }
        }
        row += 1;
    }
    assert(rows.take(rows.len() as int) =~= rows);
    source
}

/// What an editor session reports: a pending save error is never lost, and is
/// appended to a different event-loop error.
pub open spec fn finalized(result: Result<(), Seq<char>>, save_error: Option<Seq<char>>) -> Result<(), Seq<char>> {
    match (result, save_error) {
        (Ok(()), Some(s)) => Err(s),
        (Err(e), Some(s)) => if e == s {
            Err(e)
        } else {
            Err(e + "; "@ + s)
        },
        (r, None) => r,
    }
}

pub open spec fn unit_result_view(r: Result<(), String>) -> Result<(), Seq<char>> {
    match r {
        Ok(()) => Ok(()),
        Err(e) => Err(e@),
    }
}

pub fn finalize_event_loop_result(result: Result<(), String>, save_error: Option<&str>) -> (r: Result<(), String>)
    ensures
        unit_result_view(r) == finalized(
            unit_result_view(result),
            match save_error {
                Some(s) => Some(s@),
                None => None,
            },
        ),
{
    match (result, save_error) {
        (Ok(()), Some(save_error)) => {
            let mut s = String::new();
            append_str(&mut s, save_error);
            Err(s)
        },
        (Err(error), Some(save_error)) => {
            let ev = chars_of(error.as_str());
            let sv = chars_of(save_error);
            if crate::text::matches_at(ev.as_slice(), 0, sv.as_slice()) && ev.len() == sv.len() {
                assert(ev@.subrange(0, sv@.len() as int) =~= ev@);
                Err(error)
            } else {
                assert(ev@.len() == sv@.len() ==> ev@.subrange(0, sv@.len() as int) =~= ev@);
                let mut s = String::new();
                push_str(&mut s, ev.as_slice());
                append_str(&mut s, "; ");
                push_str(&mut s, sv.as_slice());
                Err(s)
            }
        },
        (result, None) => result,
    }
}

/// A primary outcome combined with a cleanup outcome: the one error, or both.
pub open spec fn combined(primary: Result<(), Seq<char>>, cleanup: Result<(), Seq<char>>, context: Seq<char>) -> Result<
    (),
    Seq<char>,
> {
    match (primary, cleanup) {
        (Ok(()), Ok(())) => Ok(()),
        (Err(e), Ok(())) => Err(e),
        (Ok(()), Err(e)) => Err(e),
        (Err(p), Err(c)) => Err(p + "; "@ + context + " failed: "@ + c),
    }
}

/// Combine the result of a session with the result of cleaning up after it.
pub fn combine(primary: Result<(), String>, cleanup: Result<(), String>) -> (r: Result<(), String>)
    ensures
        unit_result_view(r) == combined(unit_result_view(primary), unit_result_view(cleanup), "cleanup"@),
{
    crate::preview_ui::combine_with_context(primary, cleanup, "cleanup")
}

/// How many earlier states the editor keeps for undo.
pub const UNDO_LIMIT: usize = 50;

/// The editor's undo and redo stacks of snapshots, most recent last.
pub struct EditHistory<S> {
    undo: Vec<S>,
    redo: Vec<S>,
}

impl<S> EditHistory<S> {
    /// The snapshots that undo goes back through, oldest first.
    pub closed spec fn undo_stack(&self) -> Seq<S> {
        self.undo@
    }

    /// The snapshots that redo goes forward through, the next one last.
    pub closed spec fn redo_stack(&self) -> Seq<S> {
        self.redo@
    }

    /// At most `UNDO_LIMIT` snapshots are kept for undo.
    pub open spec fn wf(&self) -> bool {
        self.undo_stack().len() <= UNDO_LIMIT
    }

    /// An empty history.
    pub fn new() -> (r: Self)
        ensures
            r.wf(),
            r.undo_stack() == Seq::<S>::empty(),
            r.redo_stack() == Seq::<S>::empty(),
    {
        EditHistory { undo: Vec::new(), redo: Vec::new() }
    }

    /// Whether there is a state to undo to.
    pub fn can_undo(&self) -> (r: bool)
        ensures
            r == (self.undo_stack().len() > 0),
    {
        self.undo.len() > 0
    }

    /// Remember `snapshot` as the state before an edit; the oldest one is
    /// forgotten when `UNDO_LIMIT` are kept already.
    pub fn push_undo(&mut self, snapshot: S)
        requires
            old(self).wf(),
        ensures
            final(self).wf(),
            final(self).redo_stack() == old(self).redo_stack(),
            final(self).undo_stack() == pushed_undo(old(self).undo_stack(), snapshot),
    {
        if self.undo.len() == UNDO_LIMIT {
            self.undo.remove(0);
        }
        self.undo.push(snapshot);
    }

    /// Forget the states that redo would go forward to (after a new edit).
    pub fn clear_redo(&mut self)
        requires
            old(self).wf(),
        ensures
            final(self).wf(),
            final(self).undo_stack() == old(self).undo_stack(),
            final(self).redo_stack() == Seq::<S>::empty(),
    {
        self.redo.clear();
    }

    /// Step back: the state to restore, with `current` kept for redo; `None`,
    /// and nothing changed, when there is nothing to undo.
    pub fn undo(&mut self, current: S) -> (r: Option<S>)
        requires
            old(self).wf(),
        ensures
            final(self).wf(),
            old(self).undo_stack().len() == 0 ==> r is None && final(self).undo_stack() == old(self).undo_stack()
                && final(self).redo_stack() == old(self).redo_stack(),
            old(self).undo_stack().len() > 0 ==> r == Some(old(self).undo_stack().last())
                && final(self).undo_stack() == old(self).undo_stack().drop_last()
                && final(self).redo_stack() == old(self).redo_stack().push(current),
    {
        match self.undo.pop() {
            Some(snapshot) => {
                self.redo.push(current);
                Some(snapshot)
            },
            None => None,
        }
    }

    /// Step forward again: the state to restore, with `current` kept for undo;
    /// `None`, and nothing changed, when there is nothing to redo.
    pub fn redo(&mut self, current: S) -> (r: Option<S>)
        requires
            old(self).wf(),
        ensures
            final(self).wf(),
            old(self).redo_stack().len() == 0 ==> r is None && final(self).undo_stack() == old(self).undo_stack()
                && final(self).redo_stack() == old(self).redo_stack(),
            old(self).redo_stack().len() > 0 ==> r == Some(old(self).redo_stack().last())
                && final(self).redo_stack() == old(self).redo_stack().drop_last()
                && final(self).undo_stack() == pushed_undo(old(self).undo_stack(), current),
    {
        match self.redo.pop() {
            Some(snapshot) => {
                self.push_undo(current);
                Some(snapshot)
            },
            None => None,
        }
    }
}

/// The undo stack after remembering `s`: the oldest snapshot goes when the
/// stack is full.
pub open spec fn pushed_undo<S>(undo: Seq<S>, s: S) -> Seq<S> {
    if undo.len() == UNDO_LIMIT {
        undo.skip(1).push(s)
    } else {
        undo.push(s)
    }
}

/// Redo right after undo: the redo hands back the state the undo was called
/// in, and both stacks are as before the undo.
pub proof fn law_redo_undoes_undo<S>(undo: Seq<S>, redo: Seq<S>, current: S)
    requires
        0 < undo.len() <= UNDO_LIMIT,
    ensures
        redo.push(current).last() == current,
        redo.push(current).drop_last() == redo,
        pushed_undo(undo.drop_last(), undo.last()) == undo,
{
    assert(redo.push(current).drop_last() =~= redo);
    assert(undo.drop_last().push(undo.last()) =~= undo);
}

/// Undo right after redo: the undo hands back the state the redo was called
/// in, and both stacks are as before the redo, unless the undo stack was full
/// and the redo pushed its oldest snapshot out.
pub proof fn law_undo_undoes_redo<S>(undo: Seq<S>, redo: Seq<S>, current: S)
    requires
        undo.len() < UNDO_LIMIT,
        redo.len() > 0,
    ensures
        pushed_undo(undo, current).last() == current,
        pushed_undo(undo, current).drop_last() == undo,
        redo.drop_last().push(redo.last()) == redo,
{
    assert(undo.push(current).drop_last() =~= undo);
    assert(redo.drop_last().push(redo.last()) =~= redo);
}

/// Undo and redo keys: Control-U and Control-R, without Alt.
#[derive(Clone, Copy, Debug, PartialEq, Eq, Structural)]
pub enum HistoryAction {
    Undo,
    Redo,
}

pub open spec fn history_action_of(event: crate::preview_ui::InputEvent) -> Option<HistoryAction> {
    match event {
        crate::preview_ui::InputEvent::Key { code: crate::preview_ui::KeyCode::Char(c), modifiers } => {
            if modifiers.bits & 2 != 0 && modifiers.bits & 4 == 0 {
                if c == 'u' {
                    Some(HistoryAction::Undo)
                } else if c == 'r' {
                    Some(HistoryAction::Redo)
                } else {
                    None
                }
            } else {
                None
            }
        },
        _ => None,
    }
}

/// The history action a key asks for (see `history_action_of`).
pub fn history_action(event: &crate::preview_ui::InputEvent) -> (r: Option<HistoryAction>)
    ensures
        r == history_action_of(*event),
{
    match event {
        crate::preview_ui::InputEvent::Key { code: crate::preview_ui::KeyCode::Char(c), modifiers } => {
            if modifiers.bits & 2 != 0 && modifiers.bits & 4 == 0 {
                if *c == 'u' {
                    Some(HistoryAction::Undo)
                } else if *c == 'r' {
                    Some(HistoryAction::Redo)
                } else {
                    None
                }
            } else {
                None
            }
        },
        _ => None,
    }
}

/// Where an edit changed the line breaks: the row it started on, how many
/// breaks it removed, and how many it inserted. A non-empty selection that the
/// edit replaced removed the breaks it spanned; otherwise the edit started at
/// the earlier of the cursor rows and removed the breaks by which the text shrank.
pub open spec fn line_edit_of(
    old_line_count: int,
    new_line_count: int,
    cursor_row: int,
    new_cursor_row: int,
    selection: Option<(int, int)>,
) -> (int, int, int) {
    let (start_row, removed) = match selection {
        Some((start, end)) => (start, end - start),
        None => (
            if cursor_row <= new_cursor_row {
                cursor_row
            } else {
                new_cursor_row
            },
            if old_line_count >= new_line_count {
                old_line_count - new_line_count
            } else {
                0
            },
        ),
    };
    (start_row, removed, new_line_count + removed - old_line_count)
}

/// The line-break edit of a change to the editor's text (see `line_edit_of`);
/// `selection` holds the rows of a non-empty selection's start and end.
pub fn line_edit(
    old_line_count: usize,
    new_line_count: usize,
    cursor_row: usize,
    new_cursor_row: usize,
    selection: Option<(usize, usize)>,
) -> (r: (usize, usize, usize))
    requires
        selection matches Some((start, end)) ==> start <= end && new_line_count + (end - start) >= old_line_count
            && new_line_count + (end - start) < usize::MAX,
        new_line_count + old_line_count < usize::MAX,
    ensures
        (r.0 as int, r.1 as int, r.2 as int) == line_edit_of(
            old_line_count as int,
            new_line_count as int,
            cursor_row as int,
            new_cursor_row as int,
            match selection {
                Some((a, b)) => Some((a as int, b as int)),
                None => None,
            },
        ),
{
    let (start_row, removed) = match selection {
        Some((start, end)) => (start, end - start),
        None => (cursor_row.min(new_cursor_row), old_line_count.saturating_sub(new_line_count)),
    };
    (start_row, removed, new_line_count + removed - old_line_count)
}

} // verus!
