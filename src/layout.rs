//! Greedy wrapping of labelled spans into rows of a fixed display width.
use vstd::prelude::*;
use vstd::string::*;
use crate::error::LogError;
use crate::span::{hard_split, lemma_soft_split_parts, soft_split, Span, SpanLabel};
use crate::time::UtcTime;
use crate::unicode::{display_width, str_width};

verus! {

/// One visual row of a logical log line.
#[derive(Clone, Debug, PartialEq, Eq)]
pub struct DisplayLine {
    /// The logical line number.
    pub lln: usize,
    /// The level code of the line, when its header was recognised.
    pub ll: Option<i32>,
    /// The instant of the line, when its header was recognised.
    pub ts: Option<UtcTime>,
    pub spans: Vec<Span>,
}

/// A row as its spans' texts and labels.
pub open spec fn spans_model(v: Seq<Span>) -> Seq<(Seq<char>, SpanLabel)> {
    v.map_values(|s: Span| s@)
}

/// The rows of a sequence of display lines.
pub open spec fn rows_model(v: Seq<DisplayLine>) -> Seq<Seq<(Seq<char>, SpanLabel)>> {
    v.map_values(|d: DisplayLine| spans_model(d.spans@))
}

/// Rows closed so far, the spans of the open row, and the cells they fill.
pub struct Layout {
    pub rows: Seq<Seq<(Seq<char>, SpanLabel)>>,
    pub cur: Seq<(Seq<char>, SpanLabel)>,
    pub cum: nat,
}

/// The display width of a row: the widths of its spans, added up.
pub open spec fn row_width(row: Seq<(Seq<char>, SpanLabel)>) -> nat
    decreases row.len(),
{
    if row.len() == 0 {
        0
    } else {
        row_width(row.drop_last()) + display_width(row.last().0)
    }
}

/// The text of a row.
pub open spec fn row_text(row: Seq<(Seq<char>, SpanLabel)>) -> Seq<char> {
    row.map_values(|p: (Seq<char>, SpanLabel)| p.0).flatten()
}

/// The text of several rows, one after another.
pub open spec fn rows_text(rows: Seq<Seq<(Seq<char>, SpanLabel)>>) -> Seq<char> {
    rows.map_values(|row: Seq<(Seq<char>, SpanLabel)>| row_text(row)).flatten()
}

/// Everything placed so far, closed rows and open row alike.
pub open spec fn layout_text(st: Layout) -> Seq<char> {
    rows_text(st.rows) + row_text(st.cur)
}

/// No row is wider than `cols`, and `cum` is the width of the open row.
pub open spec fn layout_wf(cols: nat, st: Layout) -> bool {
    &&& st.cum == row_width(st.cur)
    &&& st.cum <= cols
    &&& forall|i: int| 0 <= i < st.rows.len() ==> row_width(#[trigger] st.rows[i]) <= cols
}

/// Closes the open row.
pub open spec fn close_row(st: Layout) -> Layout {
    Layout { rows: st.rows.push(st.cur), cur: Seq::empty(), cum: 0 }
}

/// The layout after pushing `text` labelled `label` into rows `cols` cells
/// wide, or `None` when a grapheme cluster cannot be placed.
///
/// A span that fits the open row joins it (closing the row when it fills it
/// exactly). One that does not is cut at its first whitespace character and
/// its parts are pushed in turn; without one, a span wider than a whole row is
/// cut after its longest run of leading clusters that fits the open row (the
/// row is closed first when not even one fits, and the cut fails when not even
/// one fits an empty row), and any other span starts a fresh row.
pub open spec fn push_model(cols: nat, st: Layout, text: Seq<char>, label: SpanLabel) -> Option<
    Layout,
>
    decreases text.len(), (if st.cum == 0 {
        0nat
    } else {
        1nat
    }),
{
    let w = display_width(text);
    let ss = soft_split(text);
    if text.len() == 0 {
        Some(st)
    } else if st.cum + w <= cols {
        let cur = st.cur.push((text, label));
        if st.cum + w == cols {
            Some(close_row(Layout { rows: st.rows, cur, cum: st.cum + w }))
        } else {
            Some(Layout { rows: st.rows, cur, cum: st.cum + w })
        }
    } else if ss is Some && ss.unwrap().0.len() < text.len() && ss.unwrap().2.len() < text.len()
        && 1 < text.len() {
        let (l, c, r) = ss.unwrap();
        match push_model(cols, st, l, label) {
            None => None,
            Some(s1) => match push_model(cols, s1, seq![c], label) {
                None => None,
                Some(s2) => push_model(cols, s2, r, label),
            },
        }
    } else if w > cols {
        match hard_split(text, (cols - st.cum) as nat) {
            None => if st.cum > 0 {
                push_model(cols, close_row(st), text, label)
            } else {
                None
            },
            Some(p) => if p.0.len() == 0 {
                None
            } else {
                push_model(
                    cols,
                    close_row(Layout { rows: st.rows, cur: st.cur.push((p.0, label)), cum: st.cum }),
                    p.1,
                    label,
                )
            },
        }
    } else if st.cum > 0 {
        push_model(cols, close_row(st), text, label)
    } else {
        None
    }
}

/// The rows once the open row, if it holds anything, is closed.
pub open spec fn finish_model(st: Layout) -> Seq<Seq<(Seq<char>, SpanLabel)>> {
    if st.cur.len() > 0 {
        st.rows.push(st.cur)
    } else {
        st.rows
    }
}

pub proof fn lemma_row_text_push(row: Seq<(Seq<char>, SpanLabel)>, p: (Seq<char>, SpanLabel))
    ensures
        row_text(row.push(p)) == row_text(row) + p.0,
{
    let f = |q: (Seq<char>, SpanLabel)| q.0;
    assert(row.push(p).map_values(f) =~= row.map_values(f).push(p.0));
    row.map_values(f).lemma_flatten_push(p.0);
}

pub proof fn lemma_rows_text_push(
    rows: Seq<Seq<(Seq<char>, SpanLabel)>>,
    row: Seq<(Seq<char>, SpanLabel)>,
)
    ensures
        rows_text(rows.push(row)) == rows_text(rows) + row_text(row),
{
    let f = |r: Seq<(Seq<char>, SpanLabel)>| row_text(r);
    assert(rows.push(row).map_values(f) =~= rows.map_values(f).push(row_text(row)));
    rows.map_values(f).lemma_flatten_push(row_text(row));
}

proof fn lemma_close_row(cols: nat, st: Layout)
    requires
        row_width(st.cur) <= cols,
        forall|i: int| 0 <= i < st.rows.len() ==> row_width(#[trigger] st.rows[i]) <= cols,
    ensures
        layout_text(close_row(st)) == layout_text(st),
        layout_wf(cols, close_row(st)),
{
    lemma_rows_text_push(st.rows, st.cur);
    assert(row_text(Seq::<(Seq<char>, SpanLabel)>::empty()) =~= Seq::<char>::empty());
    let c = close_row(st);
    assert forall|i: int| 0 <= i < c.rows.len() implies row_width(#[trigger] c.rows[i]) <= cols by {
        if i < st.rows.len() {
            assert(c.rows[i] == st.rows[i]);
        }
    }
}

proof fn lemma_hard_split_parts(s: Seq<char>, k: nat)
    ensures
        hard_split(s, k) matches Some(p) ==> s == p.0 + p.1 && (p.0.len() > 0 ==> display_width(
            p.0,
        ) <= k),
{
    let g = crate::unicode::grapheme_clusters(s);
    let j = crate::span::fit_count(g, k, 0);
    crate::span::lemma_fit_count(g, k, 0);
    if j <= 0 {
        if s.len() == 0 {
            assert(s =~= Seq::<char>::empty() + s);
        }
    } else {
        let f = g.subrange(0, j).flatten().len() as int;
        let n = if f <= s.len() { f } else { s.len() as int };
        assert(s =~= s.subrange(0, n) + s.subrange(n, s.len() as int));
    }
}

/// Pushing a span keeps every row within `cols` cells and adds exactly the
/// span's text to what has been placed.
pub proof fn lemma_push_model(cols: nat, st: Layout, text: Seq<char>, label: SpanLabel)
    requires
        layout_wf(cols, st),
    ensures
        push_model(cols, st, text, label) matches Some(st2) ==> layout_wf(cols, st2) && layout_text(
            st2,
        ) == layout_text(st) + text,
    decreases text.len(), (if st.cum == 0 {
        0nat
    } else {
        1nat
    }),
{
    let w = display_width(text);
    let ss = soft_split(text);
    if text.len() == 0 {
        assert(layout_text(st) + text =~= layout_text(st));
    } else if st.cum + w <= cols {
        let cur = st.cur.push((text, label));
        lemma_row_text_push(st.cur, (text, label));
        assert(cur.drop_last() =~= st.cur);
        let s1 = Layout { rows: st.rows, cur, cum: st.cum + w };
        assert(layout_text(s1) =~= layout_text(st) + text);
        if st.cum + w == cols {
            lemma_close_row(cols, s1);
        }
    } else if ss is Some && ss.unwrap().0.len() < text.len() && ss.unwrap().2.len() < text.len()
        && 1 < text.len() {
        let (l, c, r) = ss.unwrap();
        lemma_soft_split_parts(text);
        lemma_push_model(cols, st, l, label);
        if let Some(s1) = push_model(cols, st, l, label) {
            lemma_push_model(cols, s1, seq![c], label);
            if let Some(s2) = push_model(cols, s1, seq![c], label) {
                lemma_push_model(cols, s2, r, label);
                assert(layout_text(st) + text =~= layout_text(st) + l + seq![c] + r);
            }
        }
    } else if w > cols {
        let k = (cols - st.cum) as nat;
        lemma_hard_split_parts(text, k);
        match hard_split(text, k) {
            None => {
                if st.cum > 0 {
                    lemma_close_row(cols, st);
                    lemma_push_model(cols, close_row(st), text, label);
                }
            },
            Some(p) => {
                if p.0.len() > 0 {
                    let s1 = Layout { rows: st.rows, cur: st.cur.push((p.0, label)), cum: st.cum };
                    assert(s1.cur.drop_last() =~= st.cur);
                    lemma_row_text_push(st.cur, (p.0, label));
                    lemma_close_row(cols, s1);
                    lemma_push_model(cols, close_row(s1), p.1, label);
                    assert(layout_text(s1) =~= layout_text(st) + p.0);
                }
            },
        }
    } else if st.cum > 0 {
        lemma_close_row(cols, st);
        lemma_push_model(cols, close_row(st), text, label);
    }
}

/// The layout after pushing `ps` in order, or `None` when one cannot be placed.
pub open spec fn push_all(cols: nat, st: Layout, ps: Seq<(Seq<char>, SpanLabel)>) -> Option<Layout>
    decreases ps.len(),
{
    if ps.len() == 0 {
        Some(st)
    } else {
        match push_all(cols, st, ps.drop_last()) {
            None => None,
            Some(s) => push_model(cols, s, ps.last().0, ps.last().1),
        }
    }
}

pub proof fn lemma_push_all_append(
    cols: nat,
    st: Layout,
    a: Seq<(Seq<char>, SpanLabel)>,
    b: Seq<(Seq<char>, SpanLabel)>,
)
    ensures
        push_all(cols, st, a + b) == match push_all(cols, st, a) {
            None => None,
            Some(s) => push_all(cols, s, b),
        },
    decreases b.len(),
{
    if b.len() == 0 {
        assert(a + b =~= a);
    } else {
        assert((a + b).drop_last() =~= a + b.drop_last());
        assert((a + b).last() == b.last());
        lemma_push_all_append(cols, st, a, b.drop_last());
    }
}

/// Pushing one span and then others is pushing them all.
pub proof fn lemma_push_all_first(
    cols: nat,
    st: Layout,
    p: (Seq<char>, SpanLabel),
    rest: Seq<(Seq<char>, SpanLabel)>,
)
    ensures
        push_all(cols, st, seq![p] + rest) == match push_model(cols, st, p.0, p.1) {
            None => None,
            Some(s) => push_all(cols, s, rest),
        },
{
    lemma_push_all_append(cols, st, seq![p], rest);
    assert(seq![p].drop_last() =~= Seq::<(Seq<char>, SpanLabel)>::empty());
    assert(seq![p].last() == p);
    assert(push_all(cols, st, Seq::<(Seq<char>, SpanLabel)>::empty()) == Some(st));
    assert(push_all(cols, st, seq![p]) == push_model(cols, st, p.0, p.1));
}

proof fn lemma_push_all_three(
    cols: nat,
    st: Layout,
    a: (Seq<char>, SpanLabel),
    b: (Seq<char>, SpanLabel),
    c: (Seq<char>, SpanLabel),
)
    ensures
        push_all(cols, st, seq![a, b, c]) == match push_model(cols, st, a.0, a.1) {
            None => None,
            Some(s1) => match push_model(cols, s1, b.0, b.1) {
                None => None,
                Some(s2) => push_model(cols, s2, c.0, c.1),
            },
        },
{
    let e = Seq::<(Seq<char>, SpanLabel)>::empty();
    assert(seq![a, b, c].drop_last() =~= seq![a, b]);
    assert(seq![a, b].drop_last() =~= seq![a]);
    assert(seq![a].drop_last() =~= e);
    assert(push_all(cols, st, e) == Some(st));
    assert(push_all(cols, st, seq![a]) == push_model(cols, st, a.0, a.1));
    assert(push_all(cols, st, seq![a, b]) == match push_all(cols, st, seq![a]) {
        None => None,
        Some(s) => push_model(cols, s, b.0, b.1),
    });
}

/// Three to the `n`.
pub open spec fn pow3(n: nat) -> nat
    decreases n,
{
    if n == 0 {
        1
    } else {
        3 * pow3((n - 1) as nat)
    }
}

proof fn lemma_pow3_mono(i: nat, j: nat)
    requires
        i < j,
    ensures
        1 <= pow3(i) < pow3(j),
    decreases j,
{
    if i + 1 < j {
        lemma_pow3_mono(i, (j - 1) as nat);
    } else {
        lemma_pow3_pos(i);
    }
}

proof fn lemma_pow3_pos(i: nat)
    ensures
        1 <= pow3(i),
    decreases i,
{
    if i > 0 {
        lemma_pow3_pos((i - 1) as nat);
    }
}

/// The weight of pieces still to place: three to the length of each, added up.
pub open spec fn pending_weight(ps: Seq<(Seq<char>, SpanLabel)>) -> nat
    decreases ps.len(),
{
    if ps.len() == 0 {
        0
    } else {
        pow3(ps[0].0.len()) + pending_weight(ps.drop_first())
    }
}

proof fn lemma_weight_first(p: (Seq<char>, SpanLabel), rest: Seq<(Seq<char>, SpanLabel)>)
    ensures
        pending_weight(seq![p] + rest) == pow3(p.0.len()) + pending_weight(rest),
{
    assert((seq![p] + rest).drop_first() =~= rest);
}

/// Cutting a text around one character lightens what is left to place.
proof fn lemma_weight_soft(n: nat, a: nat, b: nat)
    requires
        a + 1 + b == n,
        n > 1,
    ensures
        pow3(a) + pow3(1) + pow3(b) < pow3(n),
{
    let m = (n - 1) as nat;
    assert(pow3(n) == 3 * pow3(m));
    lemma_pow3_pos(m);
    if a == m {
        lemma_pow3_mono(b, m);
    } else if b == m {
        lemma_pow3_mono(a, m);
    } else {
        lemma_pow3_mono(a, m);
        lemma_pow3_mono(b, m);
    }
    if m > 1 {
        lemma_pow3_mono(1, m);
    }
}

/// The pieces of a work stack in the order they will be placed: the last
/// element first.
pub open spec fn stack_model(v: Seq<Span>) -> Seq<(Seq<char>, SpanLabel)> {
    Seq::new(v.len(), |i: int| v[v.len() - 1 - i]@)
}

proof fn lemma_stack_push(v: Seq<Span>, x: Span)
    ensures
        stack_model(v.push(x)) == seq![x@] + stack_model(v),
{
    assert(stack_model(v.push(x)) =~= seq![x@] + stack_model(v));
}

/// Accumulates the spans of one logical line into rows.
pub struct DisplayLinesBuilder {
    lln: usize,
    ll: Option<i32>,
    ts: Option<UtcTime>,
    spans: Vec<Span>,
    cum_width: usize,
    lines: Vec<DisplayLine>,
    cols: usize,
}

impl DisplayLinesBuilder {
    /// The builder's state in the terms of the layout model.
    pub closed spec fn layout(&self) -> Layout {
        Layout { rows: rows_model(self.lines@), cur: spans_model(self.spans@), cum: self.cum_width as nat }
    }

    pub closed spec fn cols_spec(&self) -> nat {
        self.cols as nat
    }

    pub closed spec fn lln_spec(&self) -> usize {
        self.lln
    }

    pub closed spec fn ll_spec(&self) -> Option<i32> {
        self.ll
    }

    pub closed spec fn ts_spec(&self) -> Option<UtcTime> {
        self.ts
    }

    /// Every closed row carries the builder's line number, level and instant.
    pub closed spec fn lines_tagged(&self) -> bool {
        forall|i: int|
            0 <= i < self.lines@.len() ==> (#[trigger] self.lines@[i]).lln == self.lln
                && self.lines@[i].ll == self.ll && self.lines@[i].ts == self.ts
    }

    /// The builder's invariant.
    pub open spec fn wf(&self) -> bool {
        &&& layout_wf(self.cols_spec(), self.layout())
        &&& self.lines_tagged()
    }

    pub fn new(lln: usize, cols: usize) -> (r: Self)
        ensures
            r.wf(),
            r.layout() == (Layout { rows: Seq::empty(), cur: Seq::empty(), cum: 0 }),
            r.cols_spec() == cols,
            r.lln_spec() == lln,
            r.ll_spec() is None,
            r.ts_spec() is None,
    {
        let r = DisplayLinesBuilder {
            lln,
            ll: None,
            ts: None,
            spans: Vec::new(),
            cum_width: 0,
            lines: Vec::new(),
            cols,
        };
        assert(r.layout().rows =~= Seq::empty());
        assert(r.layout().cur =~= Seq::empty());
        r
    }

    /// Sets the level and instant that the rows will carry.
    pub fn set_header(&mut self, ll: Option<i32>, ts: Option<UtcTime>)
        requires
            old(self).wf(),
            old(self).layout().rows.len() == 0,
        ensures
            final(self).wf(),
            final(self).layout() == old(self).layout(),
            final(self).cols_spec() == old(self).cols_spec(),
            final(self).lln_spec() == old(self).lln_spec(),
            final(self).ll_spec() == ll,
            final(self).ts_spec() == ts,
            final(self).layout().rows.len() == 0,
    {
        self.ll = ll;
        self.ts = ts;
    }

    /// The rows, once the open row (when it holds a span) is closed.
    pub fn build(self) -> (r: Vec<DisplayLine>)
        requires
            self.wf(),
        ensures
            rows_model(r@) == finish_model(self.layout()),
            forall|i: int|
                0 <= i < r@.len() ==> (#[trigger] r@[i]).lln == self.lln_spec() && r@[i].ll
                    == self.ll_spec() && r@[i].ts == self.ts_spec(),
    {
        let mut b = self;
        if b.spans.len() > 0 {
            b.push_line();
        }
        proof {
            assert(rows_model(b.lines@) =~= finish_model(self.layout()));
        }
        b.lines
    }

    fn push_line(&mut self)
        requires
            old(self).lines_tagged(),
        ensures
            final(self).layout() == close_row(old(self).layout()),
            final(self).lines_tagged(),
            final(self).cols == old(self).cols,
            final(self).lln == old(self).lln,
            final(self).ll == old(self).ll,
            final(self).ts == old(self).ts,
    {
        let mut spans = Vec::new();
        std::mem::swap(&mut spans, &mut self.spans);
        self.cum_width = 0;
        let line = DisplayLine { lln: self.lln, ll: self.ll, ts: self.ts, spans };
        self.lines.push(line);
        proof {
            assert(rows_model(self.lines@) =~= rows_model(old(self).lines@).push(spans_model(spans@)));
            assert(spans_model(self.spans@) =~= Seq::empty());
        }
    }

    /// Places a span into the rows (see `push_model`). The pieces still to
    /// place wait on an explicit work stack, so no call nests per row.
    #[verifier::rlimit(100)]
    pub fn push_span(&mut self, span: Span) -> (r: Result<(), LogError>)
        requires
            old(self).wf(),
        ensures
            final(self).cols_spec() == old(self).cols_spec(),
            final(self).lln_spec() == old(self).lln_spec(),
            final(self).ll_spec() == old(self).ll_spec(),
            final(self).ts_spec() == old(self).ts_spec(),
            match push_model(old(self).cols_spec(), old(self).layout(), span.text@, span.label) {
                Some(st) => r is Ok && final(self).layout() == st && final(self).wf(),
                None => r == Err::<(), LogError>(LogError::LayoutImpossible),
            },
            old(self).layout().rows.len() <= final(self).layout().rows.len(),
            final(self).layout().rows.subrange(0, old(self).layout().rows.len() as int) == old(
                self,
            ).layout().rows,
            final(self).lines_tagged(),
    {
        let ghost cols = self.cols as nat;
        let ghost target = push_model(cols, self.layout(), span.text@, span.label);
        let ghost rows0 = self.layout().rows;
        let mut pending: Vec<Span> = Vec::new();
        pending.push(span);
        proof {
            assert(stack_model(pending@) =~= seq![span@]);
            lemma_push_all_first(cols, self.layout(), span@, Seq::empty());
        }
        loop
            invariant
                self.wf(),
                cols == self.cols as nat,
                self.cols == old(self).cols,
                self.lln == old(self).lln,
                self.ll == old(self).ll,
                self.ts == old(self).ts,
                target == push_model(old(self).cols_spec(), old(self).layout(), span.text@, span.label),
                rows0 == old(self).layout().rows,
                target == push_all(cols, self.layout(), stack_model(pending@)),
                rows0.len() <= self.layout().rows.len(),
                self.layout().rows.subrange(0, rows0.len() as int) == rows0,
            ensures
                target == Some(self.layout()),
                self.wf(),
            decreases 2 * pending_weight(stack_model(pending@)) + (if self.cum_width > 0 {
                1int
            } else {
                0int
            }),
        {
            let ghost before = self.layout();
            let ghost stack = stack_model(pending@);
            let x = match pending.pop() {
                None => {
                    proof {
                        assert(stack =~= Seq::<(Seq<char>, SpanLabel)>::empty());
                    }
                    break;
                },
                Some(x) => x,
            };
            let ghost rest = stack_model(pending@);
            proof {
                assert(stack =~= seq![x@] + rest);
                lemma_push_all_first(cols, before, x@, rest);
                lemma_weight_first(x@, rest);
                lemma_push_model(cols, before, x.text@, x.label);
                lemma_soft_split_parts(x.text@);
            }
            if x.text.as_str().is_empty() {
                continue;
            }
            let w = str_width(x.text.as_str());
            if w <= self.cols - self.cum_width {
                self.cum_width = self.cum_width + w;
                self.spans.push(x);
                proof {
                    assert(spans_model(self.spans@) =~= before.cur.push(x@));
                }
                if self.cum_width == self.cols {
                    self.push_line();
                }
                proof {
                    assert(self.layout().rows.subrange(0, rows0.len() as int) =~= rows0);
                    lemma_pow3_mono(0, x.text@.len());
                }
                continue;
            }
            let soft = x.split_soft_once();
            if let Some((l, sp, r)) = soft {
                if !(l.text.as_str().is_empty() && r.text.as_str().is_empty()) {
                    let ghost three = seq![l@, sp@, r@];
                    pending.push(r);
                    pending.push(sp);
                    pending.push(l);
                    proof {
                        let ss = soft_split(x.text@).unwrap();
                        assert(x.text@ == ss.0 + seq![ss.1] + ss.2);
                        assert(push_model(cols, before, x.text@, x.label) == match push_model(
                            cols,
                            before,
                            l.text@,
                            x.label,
                        ) {
                            None => None,
                            Some(s1) => match push_model(cols, s1, sp.text@, x.label) {
                                None => None,
                                Some(s2) => push_model(cols, s2, r.text@, x.label),
                            },
                        });
                        lemma_push_all_three(cols, before, l@, sp@, r@);
                        lemma_stack_push(pending@.drop_last().drop_last(), sp);
                        assert(stack_model(pending@) =~= three + rest);
                        lemma_push_all_append(cols, before, three, rest);
                        assert(three.drop_last() =~= seq![l@, sp@]);
                        assert(seq![l@, sp@].drop_last() =~= seq![l@]);
                        assert(seq![l@].drop_last() =~= Seq::<(Seq<char>, SpanLabel)>::empty());
                        lemma_weight_first(l@, seq![sp@, r@] + rest);
                        assert(seq![l@, sp@, r@] + rest =~= seq![l@] + (seq![sp@, r@] + rest));
                        assert(seq![sp@, r@] + rest =~= seq![sp@] + (seq![r@] + rest));
                        lemma_weight_first(sp@, seq![r@] + rest);
                        lemma_weight_first(r@, rest);
                        lemma_weight_soft(x.text@.len(), l.text@.len(), r.text@.len());
                    }
                    continue;
                }
            }
            if w > self.cols {
                match x.split_at(self.cols - self.cum_width) {
                    Err(e) => {
                        if self.cum_width == 0 {
                            return Err(e);
                        }
                        self.push_line();
                        pending.push(x);
                        proof {
                            lemma_close_row(cols, before);
                            assert(push_model(cols, before, x.text@, x.label) == push_model(
                                cols,
                                close_row(before),
                                x.text@,
                                x.label,
                            ));
                            lemma_stack_push(pending@.drop_last(), x);
                            assert(stack_model(pending@) =~= stack);
                            lemma_push_all_first(cols, self.layout(), x@, rest);
                            assert(self.layout().rows.subrange(0, rows0.len() as int) =~= rows0);
                        }
                    },
                    Ok((l, r)) => {
                        if l.text.as_str().is_empty() {
                            return Err(LogError::LayoutImpossible);
                        }
                        self.spans.push(l);
                        proof {
                            assert(spans_model(self.spans@) =~= before.cur.push(l@));
                            assert(self.layout().cur.drop_last() =~= before.cur);
                            lemma_close_row(cols, self.layout());
                        }
                        self.push_line();
                        pending.push(r);
                        proof {
                            let ghost_l = (before.cur.push(l@));
                            assert(push_model(cols, before, x.text@, x.label) == push_model(
                                cols,
                                close_row(Layout { rows: before.rows, cur: ghost_l, cum: before.cum }),
                                r.text@,
                                x.label,
                            ));
                            lemma_stack_push(pending@.drop_last(), r);
                            assert(stack_model(pending@) =~= seq![r@] + rest);
                            lemma_push_all_first(cols, self.layout(), r@, rest);
                            lemma_weight_first(r@, rest);
                            lemma_pow3_mono(r.text@.len(), x.text@.len());
                            assert(self.layout().rows.subrange(0, rows0.len() as int) =~= rows0);
                        }
                    },
                }
                continue;
            }
            if self.cum_width == 0 {
                return Err(LogError::LayoutImpossible);
            }
            self.push_line();
            pending.push(x);
            proof {
                lemma_close_row(cols, before);
                assert(push_model(cols, before, x.text@, x.label) == push_model(
                    cols,
                    close_row(before),
                    x.text@,
                    x.label,
                ));
                lemma_stack_push(pending@.drop_last(), x);
                assert(stack_model(pending@) =~= stack);
                lemma_push_all_first(cols, self.layout(), x@, rest);
                assert(self.layout().rows.subrange(0, rows0.len() as int) =~= rows0);
            }
        }
        Ok(())
    }
}

} // verus!
