//! One-shot queries: every display line of a snapshot of lines, and ranges of them.
use vstd::prelude::*;
use crate::error::LogError;
use crate::filter::{regex_find_all, Filter};
use crate::layout::{rows_model, DisplayLine};
use crate::parser::{filter_pattern, line_rows, parse_log_line, residual_text};
use crate::parser::{line_instant, line_level};
use crate::span::SpanLabel;
use crate::time::UtcTime;

verus! {

/// The rows of lines `ls` one after another, a line the filter drops giving
/// none; the first error of a line otherwise.
pub open spec fn fold_rows(cols: nat, ls: Seq<Seq<char>>, filter: Option<Seq<char>>) -> Result<
    Seq<Seq<(Seq<char>, SpanLabel)>>,
    LogError,
>
    decreases ls.len(),
{
    if ls.len() == 0 {
        Ok(Seq::empty())
    } else {
        match fold_rows(cols, ls.drop_last(), filter) {
            Err(e) => Err(e),
            Ok(acc) => match line_rows(cols, ls.last(), filter) {
                Err(e) => Err(e),
                Ok(None) => Ok(acc),
                Ok(Some(rows)) => Ok(acc + rows),
            },
        }
    }
}

/// The display lines of a query, with their count and where the range began.
#[derive(Clone, Debug, PartialEq, Eq)]
pub struct QueryResult {
    pub total_display_lines: usize,
    pub display_lines: Vec<DisplayLine>,
    pub row_offset: usize,
}

/// Appends the display lines of one line, numbered `lln`, to `out`.
pub fn append_line_rows(
    out: &mut Vec<DisplayLine>,
    lln: usize,
    cols: usize,
    line: &str,
    filter: Option<&Filter>,
) -> (r: Result<(), LogError>)
    ensures
        match line_rows(cols as nat, line@, filter_pattern(filter)) {
            Err(e) => r == Err::<(), LogError>(e),
            Ok(None) => r is Ok && final(out)@ == old(out)@,
            Ok(Some(rows)) => r is Ok && rows_model(final(out)@) == rows_model(old(out)@) + rows
                && tags_model(final(out)@) == tags_model(old(out)@) + line_tags(
                lln as int,
                line@,
                rows.len(),
            ),
        },
        old(out)@.len() <= final(out)@.len(),
        final(out)@.subrange(0, old(out)@.len() as int) == old(out)@,
        forall|i: int|
            old(out)@.len() <= i < final(out)@.len() ==> (#[trigger] final(out)@[i]).lln == lln,
{
    match parse_log_line(lln, cols, line, filter) {
        Err(e) => {
            proof {
                assert(out@.subrange(0, out@.len() as int) =~= out@);
            }
            Err(e)
        },
        Ok(None) => {
            proof {
                assert(out@.subrange(0, out@.len() as int) =~= out@);
            }
            Ok(())
        },
        Ok(Some(rows)) => {
            let ghost before = out@;
            let mut rows = rows;
            out.append(&mut rows);
            proof {
                assert(rows_model(out@) =~= rows_model(before) + rows_model(out@.subrange(
                    before.len() as int,
                    out@.len() as int,
                )));
                assert(out@.subrange(0, before.len() as int) =~= before);
                let added = out@.subrange(before.len() as int, out@.len() as int);
                assert(tags_model(out@) =~= tags_model(before) + line_tags(
                    lln as int,
                    line@,
                    (out@.len() - before.len()) as nat,
                )) by {
                    assert forall|k: int| before.len() <= k < out@.len() implies #[trigger] tags_model(
                        out@,
                    )[k] == (lln as int, line_level(line@), line_instant(line@)) by {
                        assert(out@[k] == added[k - before.len()]);
                    }
                }
            }
            Ok(())
        },
    }
}

/// Lays out every line of a snapshot, numbering lines from 0. The result
/// starts at row 0 and counts every row it holds.
pub fn query_lines(lines: &Vec<String>, cols: usize, filter: Option<&Filter>) -> (r: Result<
    QueryResult,
    LogError,
>)
    ensures
        match fold_rows(cols as nat, lines@.map_values(|l: String| l@), filter_pattern(filter)) {
            Ok(rows) => r matches Ok(q) && rows_model(q.display_lines@) == rows && tags_model(
                q.display_lines@,
            ) == fold_tags(
                cols as nat,
                lines@.map_values(|l: String| l@),
                filter_pattern(filter),
                0,
            ) && q.total_display_lines == q.display_lines@.len() && q.row_offset == 0,
            Err(e) => r == Err::<QueryResult, LogError>(e),
        },
{
    let ghost ls = lines@.map_values(|l: String| l@);
    let mut out: Vec<DisplayLine> = Vec::new();
    let mut i: usize = 0;
    proof {
        assert(ls.subrange(0, 0) =~= Seq::<Seq<char>>::empty());
        assert(rows_model(out@) =~= Seq::<Seq<(Seq<char>, SpanLabel)>>::empty());
        assert(tags_model(out@) =~= Seq::<(int, Option<i32>, Option<UtcTime>)>::empty());
    }
    while i < lines.len()
        invariant
            i <= lines@.len(),
            ls == lines@.map_values(|l: String| l@),
            fold_rows(cols as nat, ls.subrange(0, i as int), filter_pattern(filter)) == Ok::<
                Seq<Seq<(Seq<char>, SpanLabel)>>,
                LogError,
            >(rows_model(out@)),
            tags_model(out@) == fold_tags(
                cols as nat,
                ls.subrange(0, i as int),
                filter_pattern(filter),
                0,
            ),
        decreases lines@.len() - i,
    {
        proof {
            assert(ls.subrange(0, i as int + 1).drop_last() =~= ls.subrange(0, i as int));
            assert(ls.subrange(0, i as int + 1).last() == lines@[i as int]@);
        }
        match append_line_rows(&mut out, i, cols, lines[i].as_str(), filter) {
            Err(e) => {
                proof {
                    lemma_fold_rows_err(
                        cols as nat,
                        ls,
                        i as int + 1,
                        filter_pattern(filter),
                    );
                }
                return Err(e);
            },
            Ok(()) => {},
        }
        i = i + 1;
    }
    proof {
        assert(ls.subrange(0, i as int) =~= ls);
    }
    let total = out.len();
    Ok(QueryResult { total_display_lines: total, display_lines: out, row_offset: 0 })
}

/// Once a prefix of the lines fails, so do all the lines.
pub proof fn lemma_fold_rows_err(cols: nat, ls: Seq<Seq<char>>, n: int, filter: Option<Seq<char>>)
    requires
        0 <= n <= ls.len(),
        fold_rows(cols, ls.subrange(0, n), filter) is Err,
    ensures
        fold_rows(cols, ls, filter) == fold_rows(cols, ls.subrange(0, n), filter),
    decreases ls.len() - n,
{
    if n < ls.len() {
        assert(ls.subrange(0, n + 1).drop_last() =~= ls.subrange(0, n));
        lemma_fold_rows_err(cols, ls, n + 1, filter);
    } else {
        assert(ls.subrange(0, n) =~= ls);
    }
}

/// A line whose residual text the filter does not match adds no rows: the
/// rows of the lines with it are those of the lines without it.
pub proof fn lemma_unmatched_line_adds_nothing(
    cols: nat,
    ls: Seq<Seq<char>>,
    line: Seq<char>,
    p: Seq<char>,
)
    requires
        regex_find_all(p, residual_text(line)).len() == 0,
    ensures
        line_rows(cols, line, Some(p)) matches Ok(r) ==> r is None,
        fold_rows(cols, ls.push(line), Some(p)) is Ok ==> fold_rows(cols, ls.push(line), Some(p))
            == fold_rows(cols, ls, Some(p)),
{
    assert(ls.push(line).drop_last() =~= ls);
}

/// The rows of lines `ls`, numbered from `base`, come in order of their
/// line numbers, each within `base .. base + ls.len()`.
pub proof fn lemma_fold_tags_ordered(
    cols: nat,
    ls: Seq<Seq<char>>,
    filter: Option<Seq<char>>,
    base: int,
)
    ensures
        forall|i: int|
            0 <= i < fold_tags(cols, ls, filter, base).len() ==> base <= (#[trigger] fold_tags(
                cols,
                ls,
                filter,
                base,
            )[i]).0 < base + ls.len(),
        forall|i: int, j: int|
            0 <= i <= j < fold_tags(cols, ls, filter, base).len() ==> (#[trigger] fold_tags(
                cols,
                ls,
                filter,
                base,
            )[i]).0 <= (#[trigger] fold_tags(cols, ls, filter, base)[j]).0,
    decreases ls.len(),
{
    if ls.len() > 0 {
        lemma_fold_tags_ordered(cols, ls.drop_last(), filter, base);
        let acc = fold_tags(cols, ls.drop_last(), filter, base);
        let t = fold_tags(cols, ls, filter, base);
        assert forall|i: int| 0 <= i < t.len() implies base <= (#[trigger] t[i]).0 < base
            + ls.len() by {
            if i < acc.len() {
                assert(t[i] == acc[i]);
            }
        }
        assert forall|i: int, j: int| 0 <= i <= j < t.len() implies (#[trigger] t[i]).0 <= (
        #[trigger] t[j]).0 by {
            if j < acc.len() {
                assert(t[i] == acc[i]);
                assert(t[j] == acc[j]);
            } else if i < acc.len() {
                assert(t[i] == acc[i]);
            }
        }
    }
}

/// A line whose residual text the filter does not match adds no rows
/// wherever it stands: the rows of the lines with it are those of the lines
/// without it.
pub proof fn lemma_unmatched_line_anywhere(
    cols: nat,
    before: Seq<Seq<char>>,
    line: Seq<char>,
    after: Seq<Seq<char>>,
    p: Seq<char>,
)
    requires
        regex_find_all(p, residual_text(line)).len() == 0,
    ensures
        fold_rows(cols, before.push(line) + after, Some(p)) is Ok ==> fold_rows(
            cols,
            before.push(line) + after,
            Some(p),
        ) == fold_rows(cols, before + after, Some(p)),
    decreases after.len(),
{
    if after.len() == 0 {
        assert(before.push(line) + after =~= before.push(line));
        assert(before + after =~= before);
        lemma_unmatched_line_adds_nothing(cols, before, line, p);
    } else {
        let with = before.push(line) + after;
        let without = before + after;
        assert(with.drop_last() =~= before.push(line) + after.drop_last());
        assert(without.drop_last() =~= before + after.drop_last());
        assert(with.last() == after.last());
        assert(without.last() == after.last());
        lemma_unmatched_line_anywhere(cols, before, line, after.drop_last(), p);
    }
}

/// The clamped range of rows `[from, to)` of `0..total`, `to` defaulting to
/// `total`: it starts at `min(from, total)` and is empty when `to` falls
/// before that.
pub open spec fn clamp_range(total: nat, from: nat, to: Option<nat>) -> (nat, nat) {
    let start = if from < total {
        from
    } else {
        total
    };
    let end = match to {
        Some(t) => if t < total {
            t
        } else {
            total
        },
        None => total,
    };
    (start, if end < start {
        start
    } else {
        end
    })
}

/// The line number, level and instant of each row.
pub open spec fn tags_model(v: Seq<DisplayLine>) -> Seq<(int, Option<i32>, Option<UtcTime>)> {
    v.map_values(|d: DisplayLine| (d.lln as int, d.ll, d.ts))
}

/// The tags of `n` rows of line `line` numbered `lln`.
pub open spec fn line_tags(lln: int, line: Seq<char>, n: nat) -> Seq<
    (int, Option<i32>, Option<UtcTime>),
> {
    Seq::new(n, |_i: int| (lln, line_level(line), line_instant(line)))
}

/// The tags of the rows of lines `ls`, the first numbered `base`: each row
/// carries the number, level and instant of its own line.
pub open spec fn fold_tags(cols: nat, ls: Seq<Seq<char>>, filter: Option<Seq<char>>, base: int) -> Seq<
    (int, Option<i32>, Option<UtcTime>),
>
    decreases ls.len(),
{
    if ls.len() == 0 {
        Seq::empty()
    } else {
        let acc = fold_tags(cols, ls.drop_last(), filter, base);
        match line_rows(cols, ls.last(), filter) {
            Ok(Some(rows)) => acc + line_tags(base + ls.len() - 1, ls.last(), rows.len()),
            _ => acc,
        }
    }
}

fn copy_line(d: &DisplayLine) -> (r: DisplayLine)
    ensures
        r.lln == d.lln,
        r.ll == d.ll,
        r.ts == d.ts,
        rows_model(seq![r]) == rows_model(seq![*d]),
{
    let mut spans: Vec<crate::span::Span> = Vec::new();
    let mut i: usize = 0;
    while i < d.spans.len()
        invariant
            i <= d.spans@.len(),
            spans@.len() == i,
            forall|j: int| 0 <= j < i ==> (#[trigger] spans@[j])@ == d.spans@[j]@,
        decreases d.spans@.len() - i,
    {
        let s = &d.spans[i];
        spans.push(crate::span::Span { text: s.text.clone(), label: s.label });
        i = i + 1;
    }
    let r = DisplayLine { lln: d.lln, ll: d.ll, ts: d.ts, spans };
    proof {
        assert(rows_model(seq![r])[0] =~= rows_model(seq![*d])[0]);
        assert(rows_model(seq![r]) =~= rows_model(seq![*d]));
    }
    r
}

impl QueryResult {
    /// The rows `[from, to)` of the result, clamped to the rows it holds, with the
    /// same total and `row_offset` set to the clamped start.
    pub fn range(&self, from: usize, to: Option<usize>) -> (r: QueryResult)
        ensures
            ({
                let (s, e) = clamp_range(
                    self.display_lines@.len() as nat,
                    from as nat,
                    match to {
                        Some(t) => Some(t as nat),
                        None => None,
                    },
                );
                &&& r.total_display_lines == self.total_display_lines
                &&& r.row_offset == s
                &&& rows_model(r.display_lines@) == rows_model(self.display_lines@).subrange(
                    s as int,
                    e as int,
                )
                &&& r.display_lines@.len() == e - s
                &&& tags_model(r.display_lines@) == tags_model(self.display_lines@).subrange(
                    s as int,
                    e as int,
                )
            }),
    {
        let total = self.display_lines.len();
        let start = if from < total {
            from
        } else {
            total
        };
        let to_end = match to {
            Some(t) => if t < total {
                t
            } else {
                total
            },
            None => total,
        };
        let end = if to_end < start {
            start
        } else {
            to_end
        };
        let mut out: Vec<DisplayLine> = Vec::new();
        let mut i = start;
        while i < end
            invariant
                start <= i <= end <= self.display_lines@.len(),
                out@.len() == i - start,
                rows_model(out@) == rows_model(self.display_lines@).subrange(start as int, i as int),
                tags_model(out@) == tags_model(self.display_lines@).subrange(start as int, i as int),
            decreases end - i,
        {
            let d = copy_line(&self.display_lines[i]);
            let ghost before = out@;
            out.push(d);
            proof {
                assert(rows_model(seq![d])[0] == rows_model(seq![self.display_lines@[i as int]])[0]);
                assert(rows_model(out@) =~= rows_model(self.display_lines@).subrange(
                    start as int,
                    i + 1,
                ));
                assert(tags_model(out@) =~= tags_model(self.display_lines@).subrange(
                    start as int,
                    i + 1,
                ));
            }
            i = i + 1;
        }
        QueryResult { total_display_lines: self.total_display_lines, display_lines: out, row_offset: start }
    }
}

} // verus!
