//! Turning one log line into display lines: header, filter, layout.
use vstd::prelude::*;
use vstd::string::*;
use vstd::utf8::*;
use crate::error::LogError;
use crate::filter::{find_matches, match_pieces, residual_pieces, Filter};
use crate::header::{header_shape, header_spec, lemma_header_shape, parse_header, Header};
use crate::layout::{
    lemma_push_all_append, push_all,
    finish_model, layout_text, layout_wf, lemma_push_model, lemma_rows_text_push, push_model,
    row_text, row_width, rows_model, rows_text, spans_model, DisplayLine, DisplayLinesBuilder, Layout,
};
use crate::span::{Span, SpanLabel};
use crate::text::{
    at_boundary, chars_between, lemma_ascii_boundary, lemma_chars_between_all,
    lemma_chars_between_concat, lemma_decode_of_view, slice_str,
};
use crate::time::UtcTime;

verus! {

/// The layout before anything is placed.
pub open spec fn empty_layout() -> Layout {
    Layout { rows: Seq::empty(), cur: Seq::empty(), cum: 0 }
}

/// The text of a sequence of spans.
pub open spec fn pieces_text(ps: Seq<(Seq<char>, SpanLabel)>) -> Seq<char> {
    ps.map_values(|p: (Seq<char>, SpanLabel)| p.0).flatten()
}

/// The seven spans of a recognised header: bracket, timestamp, whitespace,
/// level, whitespace, target, bracket.
pub open spec fn header_pieces(line: Seq<char>, h: Header) -> Seq<(Seq<char>, SpanLabel)> {
    seq![
        (chars_between(line, 0, 1), SpanLabel::Noise),
        (chars_between(line, 1, h.ts_end as int), SpanLabel::Timestamp),
        (chars_between(line, h.ts_end as int, h.ws1_end as int), SpanLabel::Noise),
        (chars_between(line, h.ws1_end as int, h.level_end as int), SpanLabel::Level),
        (chars_between(line, h.level_end as int, h.ws2_end as int), SpanLabel::Noise),
        (chars_between(line, h.ws2_end as int, h.target_end as int), SpanLabel::Target),
        (chars_between(line, h.target_end as int, h.target_end + 1), SpanLabel::Noise),
    ]
}

/// The text after the header of a line, or the whole line when it has none.
pub open spec fn residual_text(line: Seq<char>) -> Seq<char> {
    match header_spec(encode_utf8(line)) {
        Some(h) => chars_between(line, h.target_end + 1, encode_utf8(line).len() as int),
        None => line,
    }
}

/// The rows once the residual text `rem` is placed after layout `st`.
pub open spec fn rows_after(cols: nat, st: Layout, rem: Seq<char>, filter: Option<Seq<char>>) -> Result<
    Option<Seq<Seq<(Seq<char>, SpanLabel)>>>,
    LogError,
> {
    match residual_pieces(rem, filter) {
        None => Ok(None),
        Some(ps) => match push_all(cols, st, ps) {
            None => Err(LogError::LayoutImpossible),
            Some(s2) => Ok(Some(finish_model(s2))),
        },
    }
}

/// The rows of a line at `cols` columns under an optional filter pattern:
/// `Ok(None)` when the filter matches nowhere in the residual text.
pub open spec fn line_rows(cols: nat, line: Seq<char>, filter: Option<Seq<char>>) -> Result<
    Option<Seq<Seq<(Seq<char>, SpanLabel)>>>,
    LogError,
> {
    match header_spec(encode_utf8(line)) {
        Some(h) => if h.instant is None {
            Err(LogError::BadTimestamp)
        } else if residual_pieces(residual_text(line), filter) is None {
            Ok(None)
        } else {
            match push_all(cols, empty_layout(), header_pieces(line, h)) {
                None => Err(LogError::LayoutImpossible),
                Some(s1) => rows_after(cols, s1, residual_text(line), filter),
            }
        },
        None => rows_after(cols, empty_layout(), line, filter),
    }
}

/// The level code of a line's header.
pub open spec fn line_level(line: Seq<char>) -> Option<i32> {
    match header_spec(encode_utf8(line)) {
        Some(h) => Some(h.level),
        None => None,
    }
}

/// The instant of a line's header.
pub open spec fn line_instant(line: Seq<char>) -> Option<UtcTime> {
    match header_spec(encode_utf8(line)) {
        Some(h) => h.instant,
        None => None,
    }
}

/// The pattern of an optional filter.
pub open spec fn filter_pattern(filter: Option<&Filter>) -> Option<Seq<char>> {
    match filter {
        Some(f) => Some(f.pattern()),
        None => None,
    }
}

proof fn lemma_pieces_text_push(ps: Seq<(Seq<char>, SpanLabel)>, p: (Seq<char>, SpanLabel))
    ensures
        pieces_text(ps.push(p)) == pieces_text(ps) + p.0,
{
    let f = |q: (Seq<char>, SpanLabel)| q.0;
    assert(ps.push(p).map_values(f) =~= ps.map_values(f).push(p.0));
    ps.map_values(f).lemma_flatten_push(p.0);
}

/// Pushing spans keeps every row within `cols` cells and adds exactly their text.
pub proof fn lemma_push_all(cols: nat, st: Layout, ps: Seq<(Seq<char>, SpanLabel)>)
    requires
        layout_wf(cols, st),
    ensures
        push_all(cols, st, ps) matches Some(s2) ==> layout_wf(cols, s2) && layout_text(s2)
            == layout_text(st) + pieces_text(ps),
    decreases ps.len(),
{
    if ps.len() == 0 {
        assert(ps.map_values(|p: (Seq<char>, SpanLabel)| p.0) =~= Seq::<Seq<char>>::empty());
        assert(layout_text(st) + pieces_text(ps) =~= layout_text(st));
    } else {
        lemma_push_all(cols, st, ps.drop_last());
        if let Some(s) = push_all(cols, st, ps.drop_last()) {
            lemma_push_model(cols, s, ps.last().0, ps.last().1);
            lemma_pieces_text_push(ps.drop_last(), ps.last());
            assert(ps.drop_last().push(ps.last()) =~= ps);
            assert(layout_text(st) + pieces_text(ps) =~= layout_text(st) + pieces_text(
                ps.drop_last(),
            ) + ps.last().0);
        }
    }
}

/// Closing the open row loses no text, and leaves no row wider than `cols`.
pub proof fn lemma_finish(cols: nat, st: Layout)
    requires
        layout_wf(cols, st),
    ensures
        rows_text(finish_model(st)) == layout_text(st),
        forall|i: int|
            0 <= i < finish_model(st).len() ==> row_width(#[trigger] finish_model(st)[i]) <= cols,
{
    if st.cur.len() > 0 {
        lemma_rows_text_push(st.rows, st.cur);
        assert forall|i: int| 0 <= i < finish_model(st).len() implies row_width(
            #[trigger] finish_model(st)[i],
        ) <= cols by {
            if i < st.rows.len() {
                assert(finish_model(st)[i] == st.rows[i]);
            }
        }
    } else {
        assert(st.cur.map_values(|p: (Seq<char>, SpanLabel)| p.0) =~= Seq::<Seq<char>>::empty());
        assert(row_text(st.cur) =~= Seq::<char>::empty());
        assert(layout_text(st) =~= rows_text(st.rows));
    }
}

proof fn lemma_empty_layout(cols: nat)
    ensures
        layout_wf(cols, empty_layout()),
        layout_text(empty_layout()) == Seq::<char>::empty(),
{
    let e = empty_layout();
    assert(e.rows.map_values(|row: Seq<(Seq<char>, SpanLabel)>| row_text(row)) =~= Seq::<
        Seq<char>,
    >::empty());
    assert(e.cur.map_values(|p: (Seq<char>, SpanLabel)| p.0) =~= Seq::<Seq<char>>::empty());
    assert(layout_text(e) =~= Seq::<char>::empty());
}

/// The offsets of a recognised header fall on character boundaries of the line.
proof fn lemma_header_boundaries(line: Seq<char>)
    ensures
        header_spec(encode_utf8(line)) matches Some(h) ==> {
            &&& header_shape(encode_utf8(line), h)
            &&& at_boundary(line, 0)
            &&& at_boundary(line, 1)
            &&& at_boundary(line, h.ts_end as int)
            &&& at_boundary(line, h.ws1_end as int)
            &&& at_boundary(line, h.level_end as int)
            &&& at_boundary(line, h.ws2_end as int)
            &&& at_boundary(line, h.target_end as int)
            &&& at_boundary(line, h.target_end + 1)
            &&& at_boundary(line, encode_utf8(line).len() as int)
        },
{
    let b = encode_utf8(line);
    lemma_header_shape(b);
    lemma_chars_between_all(line);
    lemma_decode_of_view(line);
    if let Some(h) = header_spec(b) {
        lemma_ascii_boundary(b, 0);
        lemma_ascii_boundary(b, h.ts_end as int);
        lemma_ascii_boundary(b, h.ws1_end - 1);
        lemma_ascii_boundary(b, h.level_end as int);
        lemma_ascii_boundary(b, h.ws2_end - 1);
        lemma_ascii_boundary(b, h.target_end as int);
    }
}

/// The header spans and the residual text spell out the line.
proof fn lemma_header_text(line: Seq<char>)
    ensures
        header_spec(encode_utf8(line)) matches Some(h) ==> pieces_text(header_pieces(line, h))
            + residual_text(line) == line,
{
    lemma_header_boundaries(line);
    lemma_chars_between_all(line);
    if let Some(h) = header_spec(encode_utf8(line)) {
        let n = encode_utf8(line).len() as int;
        let hp = header_pieces(line, h);
        let e = Seq::<(Seq<char>, SpanLabel)>::empty();
        lemma_pieces_text_push(e, hp[0]);
        lemma_pieces_text_push(e.push(hp[0]), hp[1]);
        lemma_pieces_text_push(e.push(hp[0]).push(hp[1]), hp[2]);
        lemma_pieces_text_push(e.push(hp[0]).push(hp[1]).push(hp[2]), hp[3]);
        lemma_pieces_text_push(e.push(hp[0]).push(hp[1]).push(hp[2]).push(hp[3]), hp[4]);
        lemma_pieces_text_push(
            e.push(hp[0]).push(hp[1]).push(hp[2]).push(hp[3]).push(hp[4]),
            hp[5],
        );
        lemma_pieces_text_push(
            e.push(hp[0]).push(hp[1]).push(hp[2]).push(hp[3]).push(hp[4]).push(hp[5]),
            hp[6],
        );
        assert(e.push(hp[0]).push(hp[1]).push(hp[2]).push(hp[3]).push(hp[4]).push(hp[5]).push(
            hp[6],
        ) =~= hp);
        assert(e.map_values(|p: (Seq<char>, SpanLabel)| p.0) =~= Seq::<Seq<char>>::empty());
        let t1 = h.ts_end as int;
        let w1 = h.ws1_end as int;
        let l1 = h.level_end as int;
        let w2 = h.ws2_end as int;
        let te = h.target_end as int;
        lemma_chars_between_concat(line, 0, 1, t1);
        lemma_chars_between_concat(line, 0, t1, w1);
        lemma_chars_between_concat(line, 0, w1, l1);
        lemma_chars_between_concat(line, 0, l1, w2);
        lemma_chars_between_concat(line, 0, w2, te);
        lemma_chars_between_concat(line, 0, te, te + 1);
        lemma_chars_between_concat(line, 0, te + 1, n);
        assert(pieces_text(hp) =~= chars_between(line, 0, te + 1));
    }
}

/// Without a filter, the rows of a line spell the line out exactly.
pub proof fn lemma_line_round_trip(cols: nat, line: Seq<char>)
    ensures
        line_rows(cols, line, None) matches Ok(Some(rows)) ==> rows_text(rows) == line,
{
    lemma_empty_layout(cols);
    let rem = residual_text(line);
    let single = seq![(rem, SpanLabel::Text)];
    lemma_pieces_text_push(Seq::empty(), (rem, SpanLabel::Text));
    assert(Seq::<(Seq<char>, SpanLabel)>::empty().push((rem, SpanLabel::Text)) =~= single);
    assert(Seq::<(Seq<char>, SpanLabel)>::empty().map_values(|p: (Seq<char>, SpanLabel)| p.0)
        =~= Seq::<Seq<char>>::empty());
    match header_spec(encode_utf8(line)) {
        Some(h) => {
            lemma_header_text(line);
            lemma_push_all(cols, empty_layout(), header_pieces(line, h));
            if let Some(s1) = push_all(cols, empty_layout(), header_pieces(line, h)) {
                lemma_push_all(cols, s1, single);
                if let Some(s2) = push_all(cols, s1, single) {
                    lemma_finish(cols, s2);
                    assert(layout_text(s1) =~= pieces_text(header_pieces(line, h)));
                }
            }
        },
        None => {
            lemma_push_all(cols, empty_layout(), single);
            if let Some(s2) = push_all(cols, empty_layout(), single) {
                lemma_finish(cols, s2);
                assert(layout_text(s2) =~= line);
            }
        },
    }
}

/// No row of a line is wider than `cols` cells.
pub proof fn lemma_line_width(cols: nat, line: Seq<char>, filter: Option<Seq<char>>)
    ensures
        line_rows(cols, line, filter) matches Ok(Some(rows)) ==> forall|i: int|
            0 <= i < rows.len() ==> row_width(#[trigger] rows[i]) <= cols,
{
    lemma_empty_layout(cols);
    let st1 = match header_spec(encode_utf8(line)) {
        Some(h) => push_all(cols, empty_layout(), header_pieces(line, h)),
        None => Some(empty_layout()),
    };
    if let Some(h) = header_spec(encode_utf8(line)) {
        lemma_push_all(cols, empty_layout(), header_pieces(line, h));
    }
    if let Some(s1) = st1 {
        if let Some(ps) = residual_pieces(
            if header_spec(encode_utf8(line)) is Some {
                residual_text(line)
            } else {
                line
            },
            filter,
        ) {
            lemma_push_all(cols, s1, ps);
            if let Some(s2) = push_all(cols, s1, ps) {
                lemma_finish(cols, s2);
            }
        }
    }
}

/// Wrapping the text of a line's rows again, at the same width, gives the
/// same rows.
pub proof fn lemma_rewrap_idempotent(cols: nat, line: Seq<char>)
    ensures
        line_rows(cols, line, None) matches Ok(Some(rows)) ==> line_rows(cols, rows_text(rows), None)
            == line_rows(cols, line, None),
{
    lemma_line_round_trip(cols, line);
}

fn span_copy(s: &Span) -> (r: Span)
    ensures
        r@ == s@,
{
    Span { text: s.text.clone(), label: s.label }
}

/// Pushes `spans` in order (see `push_all`).
pub fn push_spans(builder: &mut DisplayLinesBuilder, spans: &Vec<Span>) -> (r: Result<(), LogError>)
    requires
        old(builder).wf(),
    ensures
        final(builder).cols_spec() == old(builder).cols_spec(),
        final(builder).lln_spec() == old(builder).lln_spec(),
        final(builder).ll_spec() == old(builder).ll_spec(),
        final(builder).ts_spec() == old(builder).ts_spec(),
        match push_all(old(builder).cols_spec(), old(builder).layout(), spans_model(spans@)) {
            Some(st) => r is Ok && final(builder).layout() == st && final(builder).wf(),
            None => r == Err::<(), LogError>(LogError::LayoutImpossible),
        },
{
    let ghost st0 = builder.layout();
    let ghost cols = builder.cols_spec();
    let ghost ps = spans_model(spans@);
    let mut i: usize = 0;
    while i < spans.len()
        invariant
            i <= spans@.len(),
            ps == spans_model(spans@),
            cols == old(builder).cols_spec(),
            st0 == old(builder).layout(),
            builder.wf(),
            builder.cols_spec() == cols,
            builder.lln_spec() == old(builder).lln_spec(),
            builder.ll_spec() == old(builder).ll_spec(),
            builder.ts_spec() == old(builder).ts_spec(),
            push_all(cols, st0, ps.subrange(0, i as int)) == Some(builder.layout()),
        decreases spans@.len() - i,
    {
        let s = span_copy(&spans[i]);
        let ghost before = builder.layout();
        proof {
            assert(ps.subrange(0, i as int + 1).drop_last() =~= ps.subrange(0, i as int));
            assert(ps.subrange(0, i as int + 1).last() == s@);
        }
        match builder.push_span(s) {
            Err(e) => {
                proof {
                    lemma_push_all_append(
                        cols,
                        st0,
                        ps.subrange(0, i as int + 1),
                        ps.subrange(i as int + 1, ps.len() as int),
                    );
                    assert(ps.subrange(0, i as int + 1) + ps.subrange(i as int + 1, ps.len() as int)
                        =~= ps);
                }
                return Err(e);
            },
            Ok(()) => {},
        }
        i = i + 1;
    }
    proof {
        assert(ps.subrange(0, i as int) =~= ps);
    }
    Ok(())
}

/// The spans of the residual text `rem` under filter `f`, with their labels,
/// or `None` when `f` matches nowhere in `rem`.
pub fn filtered_spans(rem: &str, f: &Filter) -> (r: Option<Vec<Span>>)
    ensures
        match residual_pieces(rem@, Some(f.pattern())) {
            Some(ps) => r is Some && spans_model(r->Some_0@) == ps,
            None => r is None,
        },
        r matches Some(v) ==> pieces_text(spans_model(v@)) == rem@,
{
    let ms = find_matches(f, rem);
    let ghost msv = ms@.map_values(|m: (usize, usize)| (m.0 as nat, m.1 as nat));
    if ms.len() == 0 {
        return None;
    }
    proof {
        lemma_chars_between_all(rem@);
    }
    let mut out: Vec<Span> = Vec::new();
    let mut last: usize = 0;
    let mut i: usize = 0;
    proof {
        assert(spans_model(out@).map_values(|p: (Seq<char>, SpanLabel)| p.0) =~= Seq::<
            Seq<char>,
        >::empty());
        assert(encode_utf8(rem@).subrange(0, 0) =~= Seq::<u8>::empty());
        assert(chars_between(rem@, 0, 0) =~= Seq::<char>::empty());
    }
    while i < ms.len()
        invariant
            i <= ms@.len(),
            at_boundary(rem@, 0),
            pieces_text(spans_model(out@)) == chars_between(rem@, 0, last as int),
            msv == ms@.map_values(|m: (usize, usize)| (m.0 as nat, m.1 as nat)),
            i == 0 ==> last == 0,
            i > 0 ==> last == ms@[i - 1].1,
            last <= rem.spec_bytes().len(),
            at_boundary(rem@, last as int),
            rem.spec_bytes() == encode_utf8(rem@),
            at_boundary(rem@, rem.spec_bytes().len() as int),
            forall|k: int|
                0 <= k < ms@.len() ==> ms@[k].0 <= ms@[k].1 <= rem.spec_bytes().len()
                    && at_boundary(rem@, #[trigger] ms@[k].0 as int) && at_boundary(
                    rem@,
                    ms@[k].1 as int,
                ),
            forall|k: int| 0 < k < ms@.len() ==> ms@[k - 1].1 <= #[trigger] ms@[k].0,
            spans_model(out@) + match_pieces(rem@, msv, i as int, last as int) == match_pieces(
                rem@,
                msv,
                0,
                0,
            ),
        decreases ms@.len() - i,
    {
        let (start, end) = ms[i];
        proof {
            if i > 0 {
                assert(ms@[i - 1].1 <= ms@[i as int].0);
            }
        }
        let gap = slice_str(rem, last, start);
        let hit = slice_str(rem, start, end);
        let ghost prev = spans_model(out@);
        out.push(Span::text(gap.to_owned()));
        out.push(Span::text_match(hit.to_owned()));
        proof {
            let two = seq![
                (chars_between(rem@, last as int, start as int), SpanLabel::Text),
                (chars_between(rem@, start as int, end as int), SpanLabel::TextMatch),
            ];
            assert(spans_model(out@) =~= prev + two);
            assert(prev + two =~= prev.push(two[0]).push(two[1]));
            lemma_pieces_text_push(prev, two[0]);
            lemma_pieces_text_push(prev.push(two[0]), two[1]);
            lemma_chars_between_concat(rem@, 0, last as int, start as int);
            lemma_chars_between_concat(rem@, 0, start as int, end as int);
            assert(match_pieces(rem@, msv, i as int, last as int) == two + match_pieces(
                rem@,
                msv,
                i + 1,
                end as int,
            ));
            assert(prev + (two + match_pieces(rem@, msv, i + 1, end as int)) =~= (prev + two)
                + match_pieces(rem@, msv, i + 1, end as int));
        }
        last = end;
        i = i + 1;
    }
    if last < rem.as_bytes().len() {
        let tail = slice_str(rem, last, rem.as_bytes().len());
        let ghost prev = spans_model(out@);
        out.push(Span::text(tail.to_owned()));
        proof {
            assert(spans_model(out@) =~= prev + match_pieces(rem@, msv, i as int, last as int));
            assert(spans_model(out@) =~= prev.push(
                (chars_between(rem@, last as int, rem.spec_bytes().len() as int), SpanLabel::Text),
            ));
            lemma_pieces_text_push(
                prev,
                (chars_between(rem@, last as int, rem.spec_bytes().len() as int), SpanLabel::Text),
            );
            lemma_chars_between_concat(rem@, 0, last as int, rem.spec_bytes().len() as int);
        }
    } else {
        proof {
            assert(msv.len() == ms@.len());
            assert(match_pieces(rem@, msv, i as int, last as int) =~= Seq::empty());
            assert(spans_model(out@) =~= spans_model(out@) + match_pieces(
                rem@,
                msv,
                i as int,
                last as int,
            ));
        }
    }
    Some(out)
}

/// Turns one log line into its display lines, numbered `lln`, at `cols`
/// columns. `Ok(None)` when a filter is given and matches nowhere in the text
/// after the header.
pub fn parse_log_line(lln: usize, cols: usize, line: &str, filter: Option<&Filter>) -> (r: Result<
    Option<Vec<DisplayLine>>,
    LogError,
>)
    ensures
        match line_rows(cols as nat, line@, filter_pattern(filter)) {
            Ok(Some(rows)) => r matches Ok(Some(v)) && rows_model(v@) == rows && forall|i: int|
                0 <= i < v@.len() ==> (#[trigger] v@[i]).lln == lln && v@[i].ll == line_level(
                    line@,
                ) && v@[i].ts == line_instant(line@),
            Ok(None) => r matches Ok(None),
            Err(e) => r == Err::<Option<Vec<DisplayLine>>, LogError>(e),
        },
        filter is None ==> !(r matches Ok(None)),
        r matches Ok(Some(v)) ==> rows_text(rows_model(v@)) == line@,
        line_rows(cols as nat, line@, filter_pattern(filter)) matches Ok(Some(rows)) ==> forall|
            i: int,
        | 0 <= i < rows.len() ==> row_width(#[trigger] rows[i]) <= cols,
{
    proof {
        lemma_line_round_trip(cols as nat, line@);
        lemma_line_width(cols as nat, line@, filter_pattern(filter));
        lemma_header_boundaries(line@);
        lemma_empty_layout(cols as nat);
        lemma_decode_of_view(line@);
    }
    let mut builder = DisplayLinesBuilder::new(lln, cols);
    let header = parse_header(line.as_bytes());
    let mut header_spans: Vec<Span> = Vec::new();
    let rem: &str = match header {
        Some(h) => {
            let inst = match h.instant {
                None => return Err(LogError::BadTimestamp),
                Some(t) => t,
            };
            builder.set_header(Some(h.level), Some(inst));
            let te = h.target_end;
            header_spans = vec![
                Span::noise(slice_str(line, 0, 1).to_owned()),
                Span::timestamp(slice_str(line, 1, h.ts_end).to_owned()),
                Span::noise(slice_str(line, h.ts_end, h.ws1_end).to_owned()),
                Span::level(slice_str(line, h.ws1_end, h.level_end).to_owned()),
                Span::noise(slice_str(line, h.level_end, h.ws2_end).to_owned()),
                Span::target(slice_str(line, h.ws2_end, te).to_owned()),
                Span::noise(slice_str(line, te, te + 1).to_owned()),
            ];
            proof {
                assert(spans_model(header_spans@) =~= header_pieces(line@, h));
            }
            slice_str(line, te + 1, line.as_bytes().len())
        },
        None => line,
    };
    proof {
        assert(rem@ == residual_text(line@));
    }
    let pieces = match filter {
        None => vec![Span::text(rem.to_owned())],
        Some(f) => match filtered_spans(rem, f) {
            None => return Ok(None),
            Some(v) => v,
        },
    };
    proof {
        if filter is None {
            assert(spans_model(pieces@) =~= seq![(rem@, SpanLabel::Text)]);
        }
        if header is None {
            assert(spans_model(header_spans@) =~= Seq::<(Seq<char>, SpanLabel)>::empty());
        }
    }
    let ghost s0 = builder.layout();
    match push_spans(&mut builder, &header_spans) {
        Err(e) => return Err(e),
        Ok(()) => {},
    }
    let ghost s1 = builder.layout();
    match push_spans(&mut builder, &pieces) {
        Err(e) => return Err(e),
        Ok(()) => {},
    }
    proof {
        let s2 = builder.layout();
        lemma_push_all(cols as nat, s0, spans_model(header_spans@));
        lemma_push_all(cols as nat, s1, spans_model(pieces@));
        lemma_finish(cols as nat, s2);
        lemma_header_text(line@);
        if filter is None {
            lemma_pieces_text_push(Seq::empty(), (rem@, SpanLabel::Text));
            assert(Seq::<(Seq<char>, SpanLabel)>::empty().push((rem@, SpanLabel::Text)) =~= seq![
                (rem@, SpanLabel::Text),
            ]);
        }
        assert(Seq::<(Seq<char>, SpanLabel)>::empty().map_values(|p: (Seq<char>, SpanLabel)| p.0)
            =~= Seq::<Seq<char>>::empty());
        assert(pieces_text(spans_model(pieces@)) == rem@);
        assert(layout_text(s2) =~= line@);
    }
    Ok(Some(builder.build()))
}

} // verus!
