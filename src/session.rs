//! One connection's state: its tail context and its last query result.
use vstd::prelude::*;
use vstd::string::*;
use crate::error::LogError;
use crate::filter::Filter;
use crate::layout::{rows_model, DisplayLine};
use crate::query::{clamp_range, fold_rows, fold_tags, tags_model, QueryResult};
use crate::protocol::LogsRequest;
use crate::tail::{complete_lines, consumed_bytes, Context};

verus! {

/// Where the session stands with tailing.
#[derive(Clone, Copy, Debug, PartialEq, Eq, Structural)]
pub enum TailPhase {
    /// No tail was asked for.
    Idle,
    /// A file is followed.
    Attached,
    /// The followed file went away; nothing more is read from it.
    Ended,
}

/// What to do about a change of the followed file.
#[derive(Clone, Copy, Debug, PartialEq, Eq, Structural)]
pub enum ChangeAction {
    /// Nothing.
    Ignore,
    /// Read the file from the consumed position on, its length now being the value.
    Read(u64),
    /// Send the one notification that tailing has ended.
    Done,
}

/// The phase and action after a change signal: `Some(len)` when the file has
/// length `len`, `None` when it went away.
pub open spec fn change_step(phase: TailPhase, len: Option<u64>) -> (TailPhase, ChangeAction) {
    match phase {
        TailPhase::Attached => match len {
            Some(n) => (TailPhase::Attached, ChangeAction::Read(n)),
            None => (TailPhase::Ended, ChangeAction::Done),
        },
        _ => (phase, ChangeAction::Ignore),
    }
}

/// The actions for a run of change signals, starting in `phase`.
pub open spec fn change_actions(phase: TailPhase, events: Seq<Option<u64>>) -> Seq<ChangeAction>
    decreases events.len(),
{
    if events.len() == 0 {
        Seq::empty()
    } else {
        let (next, act) = change_step(phase, events[0]);
        seq![act] + change_actions(next, events.drop_first())
    }
}

/// Once the followed file is gone, every later change signal is ignored.
pub proof fn lemma_ended_stays_quiet(events: Seq<Option<u64>>)
    ensures
        forall|i: int|
            0 <= i < events.len() ==> #[trigger] change_actions(TailPhase::Ended, events)[i]
                == ChangeAction::Ignore,
        change_actions(TailPhase::Ended, events).len() == events.len(),
    decreases events.len(),
{
    if events.len() > 0 {
        lemma_ended_stays_quiet(events.drop_first());
        let rest = change_actions(TailPhase::Ended, events.drop_first());
        assert forall|i: int| 0 <= i < events.len() implies #[trigger] change_actions(
            TailPhase::Ended,
            events,
        )[i] == ChangeAction::Ignore by {
            if i > 0 {
                assert(change_actions(TailPhase::Ended, events)[i] == rest[i - 1]);
            }
        }
    }
}

/// When the followed file goes away, exactly one `Done` follows, and no read
/// after it, whatever signals come later.
pub proof fn lemma_done_exactly_once(later: Seq<Option<u64>>)
    ensures
        ({
            let acts = change_actions(TailPhase::Attached, seq![None::<u64>] + later);
            &&& acts.len() == later.len() + 1
            &&& acts[0] == ChangeAction::Done
            &&& forall|i: int| 0 < i < acts.len() ==> #[trigger] acts[i] == ChangeAction::Ignore
        }),
{
    let evs = seq![None::<u64>] + later;
    assert(evs.drop_first() =~= later);
    lemma_ended_stays_quiet(later);
    let acts = change_actions(TailPhase::Attached, evs);
    assert forall|i: int| 0 < i < acts.len() implies #[trigger] acts[i] == ChangeAction::Ignore by {
        assert(acts[i] == change_actions(TailPhase::Ended, later)[i - 1]);
    }
}

/// The parameters that decide a query's full result: columns, filter, file.
#[derive(Clone, Debug, PartialEq, Eq)]
pub struct QueryKey {
    pub cols: usize,
    pub filter: Option<String>,
    pub log_file: String,
}

impl View for QueryKey {
    type V = (usize, Option<Seq<char>>, Seq<char>);

    open spec fn view(&self) -> (usize, Option<Seq<char>>, Seq<char>) {
        (
            self.cols,
            match self.filter {
                Some(f) => Some(f@),
                None => None,
            },
            self.log_file@,
        )
    }
}

impl QueryKey {
    /// Whether two keys hold the same parameters.
    pub fn same(&self, other: &QueryKey) -> (r: bool)
        ensures
            r == (self@ == other@),
    {
        if self.cols != other.cols || self.log_file != other.log_file {
            return false;
        }
        match (&self.filter, &other.filter) {
            (Some(a), Some(b)) => *a == *b,
            (None, None) => true,
            _ => false,
        }
    }
}

/// The full result a cache holds for `key`, if it holds one.
pub open spec fn cache_hit(
    cache: Option<((usize, Option<Seq<char>>, Seq<char>), QueryResult)>,
    key: (usize, Option<Seq<char>>, Seq<char>),
) -> Option<QueryResult> {
    match cache {
        Some(entry) => if entry.0 == key {
            Some(entry.1)
        } else {
            None
        },
        None => None,
    }
}

/// A query repeated with the same parameters is answered from the cache,
/// with the total of the stored result.
pub proof fn lemma_repeat_query_hits(
    key: (usize, Option<Seq<char>>, Seq<char>),
    other: (usize, Option<Seq<char>>, Seq<char>),
    result: QueryResult,
)
    requires
        other == key,
    ensures
        cache_hit(Some((key, result)), other) == Some(result),
        cache_hit(Some((key, result)), other).unwrap().total_display_lines
            == result.total_display_lines,
{
}

/// What a `logs` request calls for.
#[derive(Clone, Debug)]
pub enum LogsAction {
    /// Answer with these rows of the cached result.
    Answer(QueryResult),
    /// Scan the file, answer with the requested rows, and cache the result.
    Scan,
    /// Follow the file afresh.
    Follow,
}

/// The state of one connection.
pub struct Session {
    tail: Option<Context>,
    ended: bool,
    cache: Option<(QueryKey, QueryResult)>,
}

impl Session {
    pub closed spec fn phase(&self) -> TailPhase {
        if self.ended {
            TailPhase::Ended
        } else if self.tail is Some {
            TailPhase::Attached
        } else {
            TailPhase::Idle
        }
    }

    /// The followed file's context, while one is attached.
    pub closed spec fn context(&self) -> Option<Context> {
        if self.ended {
            None
        } else {
            self.tail
        }
    }

    /// The cached query, as its key's view and its full result.
    pub closed spec fn cache_spec(&self) -> Option<((usize, Option<Seq<char>>, Seq<char>), QueryResult)> {
        match self.cache {
            Some(entry) => Some((entry.0@, entry.1)),
            None => None,
        }
    }

    /// A session with no tail and no cached query.
    pub fn new() -> (r: Session)
        ensures
            r.phase() == TailPhase::Idle,
            r.cache_spec() is None,
    {
        Session { tail: None, ended: false, cache: None }
    }

    /// Follows a file afresh, dropping any earlier tail context.
    pub fn start_tail(&mut self, cols: usize, filter: Option<Filter>)
        ensures
            final(self).phase() == TailPhase::Attached,
            final(self).context() matches Some(c) && c.pos_spec() == 0 && c.lines_read_spec() == 0
                && c.cols_spec() == cols && c.filter_spec() == (match filter {
                Some(f) => Some(f.pattern()),
                None => None::<Seq<char>>,
            }),
            final(self).cache_spec() == old(self).cache_spec(),
    {
        self.tail = Some(Context::new(cols, filter));
        self.ended = false;
    }

    /// Decides what a change signal of the followed file calls for (see
    /// `change_step`).
    pub fn on_change(&mut self, len: Option<u64>) -> (r: ChangeAction)
        ensures
            (final(self).phase(), r) == change_step(old(self).phase(), len),
            final(self).phase() == TailPhase::Attached ==> final(self).context() == old(
                self,
            ).context(),
            final(self).cache_spec() == old(self).cache_spec(),
    {
        if self.ended || self.tail.is_none() {
            return ChangeAction::Ignore;
        }
        match len {
            Some(n) => ChangeAction::Read(n),
            None => {
                self.ended = true;
                ChangeAction::Done
            },
        }
    }

    /// The byte offset up to which the followed file has been consumed.
    pub fn tail_position(&self) -> (r: Option<u64>)
        ensures
            match self.context() {
                Some(c) => r == Some(c.pos_spec() as u64),
                None => r is None,
            },
    {
        if self.ended {
            return None;
        }
        match &self.tail {
            Some(c) => Some(c.position()),
            None => None,
        }
    }

    /// The number of lines of the followed file read so far.
    pub fn tail_lines_read(&self) -> (r: Option<usize>)
        ensures
            match self.context() {
                Some(c) => r == Some(c.lines_read_spec() as usize),
                None => r is None,
            },
    {
        if self.ended {
            return None;
        }
        match &self.tail {
            Some(c) => Some(c.lines_read()),
            None => None,
        }
    }

    /// Hands the followed file's new text to its context (see `Context::read_to`).
    pub fn read_tail(&mut self, len: u64, contents: &str) -> (r: Result<Vec<DisplayLine>, LogError>)
        requires
            old(self).context() matches Some(c) && c.pos_spec() + contents.spec_bytes().len()
                <= u64::MAX && c.lines_read_spec() + contents.spec_bytes().len() <= usize::MAX,
        ensures
            final(self).phase() == old(self).phase(),
            final(self).cache_spec() == old(self).cache_spec(),
            final(self).context() matches Some(c) && old(self).context().unwrap().pos_spec()
                <= c.pos_spec() && old(self).context().unwrap().lines_read_spec()
                <= c.lines_read_spec(),
            ({
                let c0 = old(self).context().unwrap();
                let c1 = final(self).context().unwrap();
                if len <= c0.pos_spec() {
                    r matches Ok(v) && v@.len() == 0 && c1 == c0
                } else {
                    match fold_rows(c0.cols_spec(), complete_lines(contents@), c0.filter_spec()) {
                        Ok(rows) => r matches Ok(v) && rows_model(v@) == rows && tags_model(v@)
                            == fold_tags(
                            c0.cols_spec(),
                            complete_lines(contents@),
                            c0.filter_spec(),
                            c0.lines_read_spec() as int,
                        ) && c1.pos_spec()
                            == c0.pos_spec() + consumed_bytes(contents@) && c1.lines_read_spec()
                            == c0.lines_read_spec() + complete_lines(contents@).len(),
                        Err(e) => r == Err::<Vec<DisplayLine>, LogError>(e) && c1 == c0,
                    }
                }
            }),
    {
        match &mut self.tail {
            Some(c) => c.read_to(len, contents),
            None => Ok(Vec::new()),
        }
    }

    /// The rows `[from, to)` of the cached result when the cache holds one
    /// for `key`.
    pub fn cached_query(&self, key: &QueryKey, from: usize, to: Option<usize>) -> (r: Option<QueryResult>)
        ensures
            match cache_hit(self.cache_spec(), key@) {
                Some(q) => r matches Some(v) && v.total_display_lines == q.total_display_lines
                    && v.row_offset == clamp_range(
                    q.display_lines@.len() as nat,
                    from as nat,
                    match to {
                        Some(t) => Some(t as nat),
                        None => None,
                    },
                ).0 && v.display_lines@.len() == clamp_range(
                    q.display_lines@.len() as nat,
                    from as nat,
                    match to {
                        Some(t) => Some(t as nat),
                        None => None,
                    },
                ).1 - v.row_offset && rows_model(v.display_lines@) == rows_model(
                    q.display_lines@,
                ).subrange(v.row_offset as int, v.row_offset + v.display_lines@.len())
                    && tags_model(v.display_lines@) == tags_model(q.display_lines@).subrange(
                    v.row_offset as int,
                    v.row_offset + v.display_lines@.len(),
                ),
                None => r is None,
            },
    {
        match &self.cache {
            Some(entry) => if entry.0.same(key) {
                Some(entry.1.range(from, to))
            } else {
                None
            },
            None => None,
        }
    }

    /// Decides what a `logs` request calls for: following the file when it
    /// names no first row; otherwise the cached rows when the cache holds the
    /// request's columns, filter and file, or a scan.
    pub fn logs_step(&self, req: &LogsRequest) -> (r: LogsAction)
        ensures
            match req.from {
                None => r is Follow,
                Some(from) => match cache_hit(
                    self.cache_spec(),
                    (
                        req.cols,
                        match req.filter {
                            Some(f) => Some(f@),
                            None => None,
                        },
                        req.log_file@,
                    ),
                ) {
                    Some(q) => r matches LogsAction::Answer(v) && v.total_display_lines
                        == q.total_display_lines && v.row_offset == clamp_range(
                        q.display_lines@.len() as nat,
                        from as nat,
                        match req.to {
                            Some(t) => Some(t as nat),
                            None => None,
                        },
                    ).0 && v.display_lines@.len() == clamp_range(
                        q.display_lines@.len() as nat,
                        from as nat,
                        match req.to {
                            Some(t) => Some(t as nat),
                            None => None,
                        },
                    ).1 - v.row_offset && tags_model(v.display_lines@) == tags_model(
                        q.display_lines@,
                    ).subrange(v.row_offset as int, v.row_offset + v.display_lines@.len())
                        && rows_model(v.display_lines@) == rows_model(q.display_lines@).subrange(
                        v.row_offset as int,
                        v.row_offset + v.display_lines@.len(),
                    ),
                    None => r is Scan,
                },
            },
    {
        match req.from {
            None => LogsAction::Follow,
            Some(from) => {
                let key = QueryKey {
                    cols: req.cols,
                    filter: req.filter.clone(),
                    log_file: req.log_file.clone(),
                };
                proof {
                    assert(key@ == (
                        req.cols,
                        match req.filter {
                            Some(f) => Some(f@),
                            None => None,
                        },
                        req.log_file@,
                    ));
                }
                match self.cached_query(&key, from, req.to) {
                    Some(v) => LogsAction::Answer(v),
                    None => LogsAction::Scan,
                }
            },
        }
    }

    /// Replaces the cached query with `key` and its full result.
    pub fn store_query(&mut self, key: QueryKey, result: QueryResult)
        ensures
            final(self).cache_spec() == Some((key@, result)),
            final(self).phase() == old(self).phase(),
            final(self).context() == old(self).context(),
    {
        self.cache = Some((key, result));
    }
}

} // verus!
