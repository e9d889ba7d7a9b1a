//! Following a growing log file: only complete lines, each read exactly once.
use vstd::prelude::*;
use vstd::string::*;
use vstd::utf8::*;
use crate::error::LogError;
use crate::filter::Filter;
use crate::header::{first_byte_from, first_from};
use crate::layout::{rows_model, DisplayLine};
use crate::parser::filter_pattern;
use crate::query::{append_line_rows, fold_rows, fold_tags, lemma_fold_rows_err, tags_model};
use crate::time::UtcTime;
use crate::span::SpanLabel;
use crate::text::{at_boundary, chars_between, lemma_ascii_boundary, lemma_decode_of_view, slice_str};

verus! {

/// The offsets of the line feeds of `b` at or after `i`, in order.
pub open spec fn line_feeds(b: Seq<u8>, i: int) -> Seq<int>
    decreases b.len() - i,
{
    match first_from(b, i, 10u8) {
        Some(k) => if i <= k < b.len() {
            seq![k] + line_feeds(b, k + 1)
        } else {
            Seq::empty()
        },
        None => Seq::empty(),
    }
}

/// The end of the text from `s` to `e` once trailing carriage returns are dropped.
pub open spec fn strip_cr(b: Seq<u8>, s: int, e: int) -> int
    decreases e - s,
{
    if s < e && b[e - 1] == 13u8 {
        strip_cr(b, s, e - 1)
    } else {
        e
    }
}

/// Where the `j`-th complete line of `text` starts, as a byte offset.
pub open spec fn line_start(text: Seq<char>, j: int) -> int {
    if j == 0 {
        0
    } else {
        line_feeds(encode_utf8(text), 0)[j - 1] + 1
    }
}

/// The complete lines of `text`, without their terminators: every piece that
/// a line feed ends, with the carriage returns before the line feed dropped.
pub open spec fn complete_lines(text: Seq<char>) -> Seq<Seq<char>> {
    let b = encode_utf8(text);
    let nl = line_feeds(b, 0);
    Seq::new(
        nl.len(),
        |j: int| chars_between(text, line_start(text, j), strip_cr(b, line_start(text, j), nl[j])),
    )
}

/// How many bytes of `text` its complete lines take, terminators included.
pub open spec fn consumed_bytes(text: Seq<char>) -> nat {
    let nl = line_feeds(encode_utf8(text), 0);
    if nl.len() == 0 {
        0
    } else {
        (nl.last() + 1) as nat
    }
}

proof fn lemma_line_feeds(b: Seq<u8>, i: int)
    requires
        0 <= i <= b.len(),
    ensures
        forall|j: int|
            0 <= j < line_feeds(b, i).len() ==> i <= #[trigger] line_feeds(b, i)[j] < b.len()
                && b[line_feeds(b, i)[j]] == 10u8,
        forall|j: int|
            0 < j < line_feeds(b, i).len() ==> line_feeds(b, i)[j - 1] < #[trigger] line_feeds(
                b,
                i,
            )[j],
        line_feeds(b, i).len() == 0 ==> forall|j: int| i <= j < b.len() ==> b[j] != 10u8,
        line_feeds(b, i).len() > 0 ==> forall|j: int|
            line_feeds(b, i).last() < j < b.len() ==> b[j] != 10u8,
    decreases b.len() - i,
{
    lemma_first_from_exact(b, i, 10u8);
    match first_from(b, i, 10u8) {
        Some(k) => {
            lemma_line_feeds(b, k + 1);
            let rest = line_feeds(b, k + 1);
            assert(line_feeds(b, i) == seq![k] + rest);
            assert forall|j: int| 0 < j < line_feeds(b, i).len() implies line_feeds(b, i)[j - 1]
                < #[trigger] line_feeds(b, i)[j] by {
                if j > 1 {
                    assert(line_feeds(b, i)[j] == rest[j - 1]);
                    assert(line_feeds(b, i)[j - 1] == rest[j - 2]);
                }
            }
            assert forall|j: int| 0 <= j < line_feeds(b, i).len() implies i <= #[trigger] line_feeds(
                b,
                i,
            )[j] < b.len() && b[line_feeds(b, i)[j]] == 10u8 by {
                if j > 0 {
                    assert(line_feeds(b, i)[j] == rest[j - 1]);
                }
            }
            if rest.len() > 0 {
                assert(line_feeds(b, i).last() == rest.last());
            }
        },
        None => {},
    }
}

proof fn lemma_first_from_exact(b: Seq<u8>, i: int, v: u8)
    requires
        0 <= i,
    ensures
        match first_from(b, i, v) {
            Some(k) => i <= k < b.len() && b[k] == v && forall|j: int| i <= j < k ==> b[j] != v,
            None => forall|j: int| i <= j < b.len() ==> b[j] != v,
        },
    decreases b.len() - i,
{
    if 0 <= i < b.len() && b[i] != v {
        lemma_first_from_exact(b, i + 1, v);
    }
}

proof fn lemma_strip_cr(b: Seq<u8>, s: int, e: int)
    requires
        0 <= s <= e < b.len(),
        b[e] < 128,
    ensures
        s <= strip_cr(b, s, e) <= e,
        b[strip_cr(b, s, e)] < 128,
    decreases e - s,
{
    if s < e && b[e - 1] == 13u8 {
        lemma_strip_cr(b, s, e - 1);
    }
}

/// What a read leaves unconsumed holds no line feed, so no complete line is
/// read again by the next read, which starts where this one stopped.
pub proof fn lemma_rest_has_no_line(text: Seq<char>)
    ensures
        consumed_bytes(text) <= encode_utf8(text).len(),
        forall|j: int|
            consumed_bytes(text) <= j < encode_utf8(text).len() ==> #[trigger] encode_utf8(text)[j]
                != 10u8,
{
    lemma_line_feeds(encode_utf8(text), 0);
}

/// The next line feed at or after `start`, and where the line before it ends
/// once its trailing carriage returns are dropped.
fn next_line_end(bytes: &[u8], start: usize) -> (r: Option<(usize, usize)>)
    requires
        start <= bytes@.len(),
    ensures
        match first_from(bytes@, start as int, 10u8) {
            Some(k) => r matches Some(p) && p.0 == k && p.1 == strip_cr(bytes@, start as int, k)
                && start <= p.1 <= p.0 < bytes@.len() && bytes@[p.1 as int] < 128
                && line_feeds(bytes@, start as int) == seq![k] + line_feeds(bytes@, k + 1),
            None => r is None && line_feeds(bytes@, start as int).len() == 0,
        },
{
    proof {
        lemma_first_from_exact(bytes@, start as int, 10u8);
    }
    let k = match first_byte_from(bytes, start, 10u8) {
        None => return None,
        Some(k) => k,
    };
    proof {
        lemma_strip_cr(bytes@, start as int, k as int);
    }
    let mut e = k;
    while e > start && bytes[e - 1] == 13u8
        invariant
            start <= e <= k < bytes@.len(),
            strip_cr(bytes@, start as int, e as int) == strip_cr(bytes@, start as int, k as int),
        decreases e - start,
    {
        e = e - 1;
    }
    Some((k, e))
}

/// The state of following one file: the column width, the filter, how many
/// bytes have been consumed and how many logical lines have been read.
pub struct Context {
    cols: usize,
    filter: Option<Filter>,
    pos: u64,
    lines_read: usize,
}

impl Context {
    pub closed spec fn cols_spec(&self) -> nat {
        self.cols as nat
    }

    pub closed spec fn filter_spec(&self) -> Option<Seq<char>> {
        match self.filter {
            Some(f) => Some(f.pattern()),
            None => None,
        }
    }

    pub closed spec fn pos_spec(&self) -> nat {
        self.pos as nat
    }

    pub closed spec fn lines_read_spec(&self) -> nat {
        self.lines_read as nat
    }

    /// A context at the start of the file, nothing read yet.
    pub fn new(cols: usize, filter: Option<Filter>) -> (r: Context)
        ensures
            r.cols_spec() == cols,
            r.filter_spec() == (match filter {
                Some(f) => Some(f.pattern()),
                None => None::<Seq<char>>,
            }),
            r.pos_spec() == 0,
            r.lines_read_spec() == 0,
    {
        Context { cols, filter, pos: 0, lines_read: 0 }
    }

    /// The byte offset up to which the file has been consumed.
    pub fn position(&self) -> (r: u64)
        ensures
            r == self.pos_spec(),
    {
        self.pos
    }

    /// The number of logical lines read so far.
    pub fn lines_read(&self) -> (r: usize)
        ensures
            r == self.lines_read_spec(),
    {
        self.lines_read
    }

    /// Handles the file having reached length `len`, given `contents`, the
    /// file's text from the consumed position on. When the file did not grow
    /// past that position nothing happens. Otherwise the complete lines of
    /// `contents` are laid out and consumed, numbered on from the lines read
    /// so far; a trailing partial line is left for a later call. On an error
    /// nothing is consumed.
    #[verifier::rlimit(100)]
    pub fn read_to(&mut self, len: u64, contents: &str) -> (r: Result<Vec<DisplayLine>, LogError>)
        requires
            old(self).pos_spec() + contents.spec_bytes().len() <= u64::MAX,
            old(self).lines_read_spec() + contents.spec_bytes().len() <= usize::MAX,
        ensures
            final(self).cols_spec() == old(self).cols_spec(),
            final(self).filter_spec() == old(self).filter_spec(),
            len <= old(self).pos_spec() ==> (r matches Ok(v) && v@.len() == 0 && *final(self)
                == *old(self)),
            len > old(self).pos_spec() ==> match fold_rows(
                old(self).cols_spec(),
                complete_lines(contents@),
                old(self).filter_spec(),
            ) {
                Ok(rows) => r matches Ok(v) && rows_model(v@) == rows && tags_model(v@) == fold_tags(
                    old(self).cols_spec(),
                    complete_lines(contents@),
                    old(self).filter_spec(),
                    old(self).lines_read_spec() as int,
                ) && final(self).pos_spec()
                    == old(self).pos_spec() + consumed_bytes(contents@)
                    && final(self).lines_read_spec() == old(self).lines_read_spec()
                    + complete_lines(contents@).len() && forall|i: int|
                    0 <= i < v@.len() ==> old(self).lines_read_spec() <= (#[trigger] v@[i]).lln
                        < final(self).lines_read_spec(),
                Err(e) => r == Err::<Vec<DisplayLine>, LogError>(e) && *final(self) == *old(self),
            },
            old(self).pos_spec() <= final(self).pos_spec(),
            old(self).lines_read_spec() <= final(self).lines_read_spec(),
    {
        if len <= self.pos {
            return Ok(Vec::new());
        }
        let bytes = contents.as_bytes();
        let ghost b = contents.spec_bytes();
        let ghost lines = complete_lines(contents@);
        let ghost nl = line_feeds(b, 0);
        proof {
            lemma_decode_of_view(contents@);
            lemma_line_feeds(b, 0);
            is_char_boundary_start_end_of_seq(b);
        }
        let mut out: Vec<DisplayLine> = Vec::new();
        let mut start: usize = 0;
        let mut j: usize = 0;
        proof {
            assert(lines.subrange(0, 0) =~= Seq::<Seq<char>>::empty());
            assert(rows_model(out@) =~= Seq::<Seq<(Seq<char>, SpanLabel)>>::empty());
            assert(tags_model(out@) =~= Seq::<(int, Option<i32>, Option<UtcTime>)>::empty());
        }
        loop
            invariant
                b == contents.spec_bytes(),
                b == bytes@,
                len > old(self).pos,
                b == encode_utf8(contents@),
                valid_utf8(b),
                nl == line_feeds(b, 0),
                lines == complete_lines(contents@),
                start <= b.len(),
                j <= nl.len(),
                start as int == line_start(contents@, j as int),
                at_boundary(contents@, start as int),
                line_feeds(b, start as int) == nl.subrange(j as int, nl.len() as int),
                old(self).lines_read_spec() + b.len() <= usize::MAX,
                j <= start,
                self.lines_read == old(self).lines_read,
                self.pos == old(self).pos,
                self.cols == old(self).cols,
                self.filter == old(self).filter,
                tags_model(out@) == fold_tags(
                    self.cols as nat,
                    lines.subrange(0, j as int),
                    self.filter_spec(),
                    old(self).lines_read_spec() as int,
                ),
                fold_rows(self.cols as nat, lines.subrange(0, j as int), self.filter_spec()) == Ok::<
                    Seq<Seq<(Seq<char>, SpanLabel)>>,
                    LogError,
                >(rows_model(out@)),
                forall|i: int|
                    0 <= i < out@.len() ==> old(self).lines_read_spec() <= (#[trigger] out@[i]).lln
                        < old(self).lines_read_spec() + j,
            ensures
                line_feeds(b, start as int).len() == 0,
            decreases b.len() - start,
        {
            let (k, e) = match next_line_end(bytes, start) {
                None => break,
                Some(p) => p,
            };
            proof {
                lemma_first_from_exact(b, start as int, 10u8);
                assert(line_feeds(b, start as int)[0] == k);
                assert(line_feeds(b, start as int).len() >= 1);
                assert(j < nl.len());
                assert(nl.subrange(j as int, nl.len() as int)[0] == nl[j as int]);
                assert(nl[j as int] == k);
                lemma_ascii_boundary(b, k as int);
                lemma_ascii_boundary(b, e as int);
                assert(lines[j as int] == chars_between(contents@, start as int, e as int));
                assert(lines.subrange(0, j as int + 1).drop_last() =~= lines.subrange(0, j as int));
                assert(lines.subrange(0, j as int + 1).last() == lines[j as int]);
            }
            let line = slice_str(contents, start, e);
            let f = match &self.filter {
                Some(f) => Some(f),
                None => None,
            };
            proof {
                assert(filter_pattern(f) == self.filter_spec());
            }
            let ghost before = out@;
            match append_line_rows(&mut out, self.lines_read + j, self.cols, line, f) {
                Err(e) => {
                    proof {
                        lemma_fold_rows_err(
                            self.cols as nat,
                            lines,
                            j as int + 1,
                            self.filter_spec(),
                        );
                    }
                    return Err(e);
                },
                Ok(()) => {},
            }
            proof {
                assert forall|i: int| 0 <= i < out@.len() implies old(self).lines_read_spec() <= (
                #[trigger] out@[i]).lln < old(self).lines_read_spec() + j + 1 by {
                    if i < before.len() {
                        assert(out@.subrange(0, before.len() as int)[i] == before[i]);
                    }
                }
                assert(line_feeds(b, k + 1) == nl.subrange(j + 1, nl.len() as int)) by {
                    assert(nl.subrange(j + 1, nl.len() as int) =~= nl.subrange(
                        j as int,
                        nl.len() as int,
                    ).drop_first());
                }
            }
            start = k + 1;
            j = j + 1;
        }
        proof {
            assert(nl.subrange(j as int, nl.len() as int).len() == 0);
            assert(j == nl.len());
            assert(lines.subrange(0, j as int) =~= lines);
        }
        self.pos = self.pos + start as u64;
        self.lines_read = self.lines_read + j;
        Ok(out)
    }
}

} // verus!
