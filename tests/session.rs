use logview::filter::Filter;
use logview::layout::DisplayLine;
use logview::protocol::{Error, Response};
use logview::error::LogError;
use logview::query::{query_lines, QueryResult};
use logview::protocol::LogsRequest;
use logview::session::{ChangeAction, LogsAction, QueryKey, Session, TailPhase};
use logview::tail::Context;

fn texts(v: &[DisplayLine]) -> Vec<String> {
    v.iter().map(|l| l.spans.iter().map(|s| s.text.clone()).collect::<String>()).collect()
}

#[test]
fn tail_in_two_steps_gives_two_lines() {
    let file = "abc\ndef\n";
    let mut ctx = Context::new(80, None);
    let first = ctx.read_to(4, &file[0..4]).unwrap();
    assert_eq!(texts(&first), vec!["abc"]);
    assert_eq!(first[0].lln, 0);
    assert_eq!(ctx.position(), 4);
    let pos = ctx.position() as usize;
    let second = ctx.read_to(8, &file[pos..8]).unwrap();
    assert_eq!(texts(&second), vec!["def"]);
    assert_eq!(second[0].lln, 1);
    assert_eq!(ctx.position(), 8);
    assert_eq!(ctx.lines_read(), 2);
}

#[test]
fn partial_line_waits_for_its_end() {
    let mut ctx = Context::new(80, None);
    let r = ctx.read_to(5, "abc\nde").unwrap();
    assert_eq!(texts(&r), vec!["abc"]);
    assert_eq!(ctx.position(), 4);
    let r = ctx.read_to(9, "def\r\n").unwrap();
    assert_eq!(texts(&r), vec!["def"]);
    assert_eq!(ctx.position(), 9);
    assert_eq!(ctx.lines_read(), 2);
    let r = ctx.read_to(12, "gh").unwrap();
    assert!(r.is_empty());
    assert_eq!(ctx.position(), 9);
}

#[test]
fn no_growth_reads_nothing() {
    let mut ctx = Context::new(80, None);
    ctx.read_to(4, "abc\n").unwrap();
    let r = ctx.read_to(4, "xyz\n").unwrap();
    assert!(r.is_empty());
    assert_eq!(ctx.position(), 4);
    let r = ctx.read_to(2, "xyz\n").unwrap();
    assert!(r.is_empty());
    assert_eq!(ctx.lines_read(), 1);
}

#[test]
fn filtered_tail_lines_still_count() {
    let mut ctx = Context::new(80, Some(Filter::new("b").unwrap()));
    let r = ctx.read_to(12, "abc\nxyz\nb\n").unwrap();
    assert_eq!(texts(&r), vec!["abc", "b"]);
    assert_eq!(r[1].lln, 2);
    assert_eq!(ctx.lines_read(), 3);
    assert_eq!(ctx.position(), 10);
}

#[test]
fn tail_error_consumes_nothing() {
    let mut ctx = Context::new(80, None);
    let r = ctx.read_to(40, "ok\n[2024-02-30T20:49:42Z INFO t] m\n");
    assert_eq!(r, Err(LogError::BadTimestamp));
    assert_eq!(ctx.position(), 0);
    assert_eq!(ctx.lines_read(), 0);
}

#[test]
fn removed_file_gives_one_done() {
    let mut s = Session::new();
    assert_eq!(s.on_change(Some(3)), ChangeAction::Ignore);
    s.start_tail(80, None);
    assert_eq!(s.tail_position(), Some(0));
    assert_eq!(s.on_change(Some(4)), ChangeAction::Read(4));
    assert_eq!(s.on_change(None), ChangeAction::Done);
    assert_eq!(s.on_change(Some(9)), ChangeAction::Ignore);
    assert_eq!(s.on_change(None), ChangeAction::Ignore);
    assert_eq!(s.tail_position(), None);
}

#[test]
fn session_reads_tail() {
    let mut s = Session::new();
    s.start_tail(80, None);
    let r = s.read_tail(4, "abc\n").unwrap();
    assert_eq!(texts(&r), vec!["abc"]);
    assert_eq!(s.tail_position(), Some(4));
    s.start_tail(80, None);
    assert_eq!(s.tail_position(), Some(0));
    let _ = TailPhase::Attached;
}

fn lines(v: &[&str]) -> Vec<String> {
    v.iter().map(|s| s.to_string()).collect()
}

#[test]
fn query_counts_every_row() {
    let ls = lines(&["abcdef", "gh", "[2024-02-25T20:49:42Z INFO t] ij"]);
    let q = query_lines(&ls, 4, None).unwrap();
    assert_eq!(q.total_display_lines, q.display_lines.len());
    assert_eq!(q.row_offset, 0);
    assert_eq!(texts(&q.display_lines)[0..3], ["abcd", "ef", "gh"]);
    assert_eq!(q.display_lines[2].lln, 1);
    assert_eq!(q.display_lines.last().unwrap().lln, 2);
}

#[test]
fn unmatched_lines_add_no_rows() {
    let ls = lines(&["alpha", "beta", "gamma"]);
    let all = query_lines(&ls, 80, None).unwrap();
    assert_eq!(all.total_display_lines, 3);
    let f = Filter::new("mm").unwrap();
    let q = query_lines(&ls, 80, Some(&f)).unwrap();
    assert_eq!(q.total_display_lines, 1);
    assert_eq!(q.display_lines[0].lln, 2);
    let f = Filter::new("zzz").unwrap();
    assert_eq!(query_lines(&ls, 80, Some(&f)).unwrap().total_display_lines, 0);
}

#[test]
fn query_error_propagates() {
    let ls = lines(&["fine", "中"]);
    assert_eq!(query_lines(&ls, 1, None), Err(LogError::LayoutImpossible));
}

#[test]
fn range_is_clamped() {
    let ls = lines(&["a", "b", "c", "d"]);
    let q = query_lines(&ls, 80, None).unwrap();
    let r = q.range(1, Some(3));
    assert_eq!(texts(&r.display_lines), vec!["b", "c"]);
    assert_eq!(r.row_offset, 1);
    assert_eq!(r.total_display_lines, 4);
    let r = q.range(2, None);
    assert_eq!(texts(&r.display_lines), vec!["c", "d"]);
    let r = q.range(3, Some(99));
    assert_eq!(texts(&r.display_lines), vec!["d"]);
    let r = q.range(9, Some(2));
    assert!(r.display_lines.is_empty());
    assert_eq!(r.row_offset, 4);
    let r = q.range(3, Some(1));
    assert!(r.display_lines.is_empty());
    assert_eq!(r.row_offset, 3);
    assert_eq!(r.total_display_lines, 4);
}

#[test]
fn repeated_query_is_served_from_cache() {
    let ls = lines(&["a", "b", "c"]);
    let key = QueryKey { cols: 80, filter: None, log_file: "x.log".to_string() };
    let mut s = Session::new();
    assert!(s.cached_query(&key, 0, None).is_none());
    let full: QueryResult = query_lines(&ls, 80, None).unwrap();
    s.store_query(key.clone(), full.clone());
    let again = s.cached_query(&key, 1, Some(2)).unwrap();
    assert_eq!(again.total_display_lines, full.total_display_lines);
    assert_eq!(texts(&again.display_lines), vec!["b"]);
    let other = QueryKey { cols: 40, filter: None, log_file: "x.log".to_string() };
    assert!(s.cached_query(&other, 0, None).is_none());
    let other = QueryKey { cols: 80, filter: Some("a".to_string()), log_file: "x.log".to_string() };
    assert!(s.cached_query(&other, 0, None).is_none());
}

#[test]
fn logs_step_dispatches() {
    let ls = lines(&["a", "b", "c"]);
    let mut s = Session::new();
    let mut req = LogsRequest {
        cols: 80,
        filter: None,
        log_file: "x.log".to_string(),
        from: None,
        to: None,
    };
    assert!(matches!(s.logs_step(&req), LogsAction::Follow));
    req.from = Some(1);
    assert!(matches!(s.logs_step(&req), LogsAction::Scan));
    let key = QueryKey { cols: 80, filter: None, log_file: "x.log".to_string() };
    s.store_query(key, query_lines(&ls, 80, None).unwrap());
    match s.logs_step(&req) {
        LogsAction::Answer(v) => {
            assert_eq!(v.total_display_lines, 3);
            assert_eq!(texts(&v.display_lines), vec!["b", "c"]);
            assert_eq!(v.display_lines[0].lln, 1);
        }
        _ => panic!("expected a cached answer"),
    }
}

#[test]
fn query_rows_carry_their_line() {
    let ls = lines(&["abcdef", "[2024-02-25T20:49:42Z WARN t] x"]);
    let q = query_lines(&ls, 4, None).unwrap();
    assert_eq!(q.display_lines[0].lln, 0);
    assert_eq!(q.display_lines[1].lln, 0);
    assert_eq!(q.display_lines[0].ll, None);
    let last = q.display_lines.last().unwrap();
    assert_eq!(last.lln, 1);
    assert_eq!(last.ll, Some(1));
    assert!(last.ts.is_some());
}

#[test]
fn error_reply_carries_message() {
    let e = Error::from_log_error(LogError::LayoutImpossible);
    assert_eq!(e.code, 3);
    assert_eq!(e.message, LogError::LayoutImpossible.message());
}

#[test]
fn responses_carry_ids() {
    let ok: Response<u8> = Response::success(7, 1);
    assert_eq!(ok.id, 7);
    assert_eq!(ok.result, Some(1));
    let e = Error::from_log_error(LogError::InvalidFilter);
    assert_eq!(e.code, 1);
    let bad: Response<u8> = Response::failure(8, e.clone());
    assert_eq!(bad.error, Some(e));
    assert!(bad.result.is_none());
}
