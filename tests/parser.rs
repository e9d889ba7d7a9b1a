use chrono::{DateTime, Utc};
use logview::error::LogError;
use logview::filter::Filter;
use logview::layout::{DisplayLine, DisplayLinesBuilder};
use logview::parser::parse_log_line;
use logview::span::{Span, SpanLabel};
use logview::time::UtcTime;
use unicode_width::UnicodeWidthStr;

fn melt(lines: Vec<DisplayLine>) -> String {
    lines
        .iter()
        .map(|line| {
            line.spans
                .iter()
                .map(|span| span.text.clone())
                .collect::<Vec<String>>()
                .join("")
        })
        .collect::<Vec<String>>()
        .join("\n")
}

fn utc(s: &str) -> UtcTime {
    let ts: DateTime<Utc> = s.parse().unwrap();
    UtcTime { secs: ts.timestamp(), nanos: ts.timestamp_subsec_nanos() }
}

const LINE: &str = "[2024-02-25T20:49:42Z TRACE s8] Petersburg, used only by the elite";

#[test]
fn test_parse_log_line() {
    let s = LINE;
    let r = parse_log_line(0, 80, s, None).unwrap().unwrap();
    let ts = utc("2024-02-25T20:49:42Z");
    assert_eq!(
        r,
        vec![DisplayLine {
            lln: 0,
            ll: Some(4),
            ts: Some(ts),
            spans: vec![
                Span::noise("[".to_string()),
                Span::timestamp("2024-02-25T20:49:42Z".to_string()),
                Span::noise(" ".to_string()),
                Span::level("TRACE".to_string()),
                Span::noise(" ".to_string()),
                Span::target("s8".to_string()),
                Span::noise("]".to_string()),
                Span::text(" Petersburg, used only by the elite".to_string()),
            ],
        }]
    );
    // test soft breaks
    let r = parse_log_line(0, 100, s, None).unwrap().unwrap();
    assert_eq!(melt(r), s);
    let r = parse_log_line(0, 40, s, None).unwrap().unwrap();
    assert_eq!(
        melt(r),
        ["[2024-02-25T20:49:42Z TRACE s8] ", "Petersburg, used only by the elite"].join("\n")
    );
    let r = parse_log_line(0, 1, s, None).unwrap().unwrap();
    assert_eq!(
        melt(r),
        s.chars().map(|c| c.to_string()).collect::<Vec<String>>().join("\n")
    );
    // make sure it doesn't stack overflow
    for i in 1..=100 {
        parse_log_line(0, i, s, None).unwrap();
    }
}

#[test]
fn forty_columns_gives_two_rows() {
    let r = parse_log_line(3, 40, LINE, None).unwrap().unwrap();
    assert_eq!(r.len(), 2);
    let texts: Vec<String> =
        r.iter().map(|l| l.spans.iter().map(|s| s.text.clone()).collect::<String>()).collect();
    assert_eq!(texts, vec!["[2024-02-25T20:49:42Z TRACE s8] ", "Petersburg, used only by the elite"]);
    for row in &r {
        assert_eq!(row.lln, 3);
        assert_eq!(row.ll, Some(4));
        assert_eq!(row.ts, Some(utc("2024-02-25T20:49:42Z")));
    }
}

#[test]
fn one_column_gives_one_row_per_char() {
    let r = parse_log_line(0, 1, LINE, None).unwrap().unwrap();
    assert_eq!(r.len(), LINE.chars().count());
    for (row, c) in r.iter().zip(LINE.chars()) {
        let text: String = row.spans.iter().map(|s| s.text.clone()).collect();
        assert_eq!(text, c.to_string());
    }
}

#[test]
fn rows_spell_out_the_line_at_every_width() {
    let lines = [
        LINE,
        "plain text without a header, but with  double  spaces",
        "[2024-02-25T20:49:42Z ERROR a::b] x",
        "中文字符 and émoji 👍🏽 mixed",
        "",
        "   ",
    ];
    for line in lines {
        for cols in 1..=60 {
            let r = match parse_log_line(0, cols, line, None) {
                Ok(Some(r)) => r,
                // a wide glyph that must be cut cannot be placed
                Err(LogError::LayoutImpossible) if !line.is_ascii() => continue,
                other => panic!("unexpected {:?} at {cols}", other),
            };
            assert_eq!(melt(r.clone()).replace('\n', ""), line);
            for row in &r {
                let w: usize = row.spans.iter().map(|s| s.text.as_str().width()).sum();
                assert!(w <= cols, "row wider than {cols}: {:?}", row);
            }
        }
    }
}

#[test]
fn rewrapping_rows_gives_the_same_rows() {
    for cols in [1usize, 7, 20, 40, 80] {
        let first = parse_log_line(0, cols, LINE, None).unwrap().unwrap();
        let again_text: String = melt(first.clone()).replace('\n', "");
        let second = parse_log_line(0, cols, &again_text, None).unwrap().unwrap();
        assert_eq!(first, second);
    }
}

#[test]
fn header_levels_have_their_codes() {
    let cases = [("ERROR", 0), ("WARN", 1), ("INFO", 2), ("DEBUG", 3), ("TRACE", 4)];
    for (name, code) in cases {
        let line = format!("[2024-02-25T20:49:42Z {name} t] m");
        let r = parse_log_line(0, 80, &line, None).unwrap().unwrap();
        assert_eq!(r[0].ll, Some(code));
        assert_eq!(r[0].spans[3], Span::level(name.to_string()));
    }
}

#[test]
fn line_without_header_is_one_text_span() {
    let r = parse_log_line(5, 80, "[not a header] text", None).unwrap().unwrap();
    assert_eq!(
        r,
        vec![DisplayLine {
            lln: 5,
            ll: None,
            ts: None,
            spans: vec![Span::text("[not a header] text".to_string())],
        }]
    );
}

#[test]
fn timestamp_offset_is_taken_to_utc() {
    let r = parse_log_line(0, 80, "[2024-02-25T22:49:42+02:00 INFO t] m", None).unwrap().unwrap();
    assert_eq!(r[0].ts, Some(utc("2024-02-25T20:49:42Z")));
    assert_eq!(r[0].spans[1], Span::timestamp("2024-02-25T22:49:42+02:00".to_string()));
}

#[test]
fn impossible_timestamp_is_an_error() {
    let r = parse_log_line(0, 80, "[2024-02-30T20:49:42Z INFO t] m", None);
    assert_eq!(r, Err(LogError::BadTimestamp));
}

#[test]
fn zero_columns_is_an_error() {
    assert_eq!(parse_log_line(0, 0, "abc", None), Err(LogError::LayoutImpossible));
}

#[test]
fn wide_glyph_in_one_column_is_an_error() {
    assert_eq!(parse_log_line(0, 1, "中", None), Err(LogError::LayoutImpossible));
}

#[test]
fn wide_glyphs_wrap_by_width() {
    let r = parse_log_line(0, 2, "中 文", None).unwrap().unwrap();
    assert_eq!(melt(r), "中\n \n文");
    let r = parse_log_line(0, 4, "中文", None).unwrap().unwrap();
    assert_eq!(melt(r), "中文");
    // a hard break takes the clusters that fit the remaining cells
    let r = parse_log_line(0, 3, "中文", None).unwrap().unwrap();
    assert_eq!(melt(r), "中\n文");
    let wide: String = std::iter::repeat('中').take(30).collect();
    let r = parse_log_line(0, 40, &wide, None).unwrap().unwrap();
    let rows: Vec<String> = melt(r).split('\n').map(|s| s.to_string()).collect();
    assert_eq!(rows.len(), 2);
    assert_eq!(rows[0].chars().count(), 20);
    assert_eq!(rows[1].chars().count(), 10);
}

#[test]
fn grapheme_clusters_are_not_split() {
    let s = "e\u{301}e\u{301}";
    let r = parse_log_line(0, 1, s, None).unwrap().unwrap();
    assert_eq!(melt(r), "e\u{301}\ne\u{301}");
}

#[test]
fn filter_marks_matches() {
    let f = Filter::new("foo").unwrap();
    let r = parse_log_line(0, 80, "[2024-02-25T20:49:42Z INFO t] a foo b foo", Some(&f))
        .unwrap()
        .unwrap();
    let tail: Vec<Span> = r[0].spans[7..].to_vec();
    assert_eq!(
        tail,
        vec![
            Span::text(" a ".to_string()),
            Span::text_match("foo".to_string()),
            Span::text(" b ".to_string()),
            Span::text_match("foo".to_string()),
        ]
    );
}

#[test]
fn filter_without_match_drops_the_line() {
    let f = Filter::new("zzz").unwrap();
    assert_eq!(parse_log_line(0, 80, LINE, Some(&f)), Ok(None));
    // the header is not searched
    let f = Filter::new("TRACE").unwrap();
    assert_eq!(parse_log_line(0, 80, LINE, Some(&f)), Ok(None));
}

#[test]
fn filtered_spans_cover_the_text() {
    let f = Filter::new("o+").unwrap();
    let line = "[2024-02-25T20:49:42Z INFO t] foo bar boo";
    for cols in 1..=50 {
        let r = parse_log_line(0, cols, line, Some(&f)).unwrap().unwrap();
        assert_eq!(melt(r).replace('\n', ""), line);
    }
}

#[test]
fn long_line_at_one_column_is_placed() {
    let line: String = std::iter::repeat("ab ").take(20000).collect();
    let r = parse_log_line(0, 1, &line, None).unwrap().unwrap();
    assert_eq!(r.len(), line.chars().count());
}

#[test]
fn tab_gives_a_soft_break() {
    let r = parse_log_line(0, 4, "abc\tdefg", None).unwrap().unwrap();
    assert_eq!(melt(r), "abc\t\ndefg");
}

#[test]
fn filter_is_consulted_before_the_header_is_placed() {
    let f = Filter::new("zzz").unwrap();
    let line = "[2024-02-25T20:49:42Z INFO 中] text";
    assert_eq!(parse_log_line(0, 1, line, None), Err(LogError::LayoutImpossible));
    assert_eq!(parse_log_line(0, 1, line, Some(&f)), Ok(None));
}

#[test]
fn invalid_filter_is_refused() {
    assert!(matches!(Filter::new("(unclosed"), Err(LogError::InvalidFilter)));
    assert_eq!(Filter::new("a+").unwrap().as_str(), "a+");
}

#[test]
fn split_soft_once_cuts_at_first_space() {
    let s = Span::text("ab cd ef".to_string());
    let (l, w, r) = s.split_soft_once().unwrap();
    assert_eq!(l, Span::text("ab".to_string()));
    assert_eq!(w, Span::text(" ".to_string()));
    assert_eq!(r, Span::text("cd ef".to_string()));
    assert!(Span::text("abc".to_string()).split_soft_once().is_none());
    let (l, w, r) = Span::text("a\tb c".to_string()).split_soft_once().unwrap();
    assert_eq!(l.text, "a");
    assert_eq!(w.text, "\t");
    assert_eq!(r.text, "b c");
    let (l, w, r) = Span::text("x\u{3000}y".to_string()).split_soft_once().unwrap();
    assert_eq!((l.text.as_str(), w.text.as_str(), r.text.as_str()), ("x", "\u{3000}", "y"));
}

#[test]
fn split_at_counts_clusters() {
    let s = Span::target("héllo".to_string());
    let (l, r) = s.split_at(2).unwrap();
    assert_eq!(l, Span::target("hé".to_string()));
    assert_eq!(r, Span::target("llo".to_string()));
    let (l, r) = s.split_at(9).unwrap();
    assert_eq!(l.text, "héllo");
    assert_eq!(r.text, "");
    assert_eq!(Span::text("中x".to_string()).split_at(1), Err(LogError::LayoutImpossible));
    assert_eq!(Span::text("中".to_string()).split_at(1), Err(LogError::LayoutImpossible));
    let (l, r) = Span::text("".to_string()).split_at(1).unwrap();
    assert_eq!((l.text.as_str(), r.text.as_str()), ("", ""));
    let (l, r) = Span::text("中文x".to_string()).split_at(3).unwrap();
    assert_eq!(l.text, "中");
    assert_eq!(r.text, "文x");
}

#[test]
fn builder_closes_full_rows() {
    let mut b = DisplayLinesBuilder::new(7, 4);
    b.push_span(Span::noise("ab".to_string())).unwrap();
    b.push_span(Span::text("cd".to_string())).unwrap();
    b.push_span(Span::text("e".to_string())).unwrap();
    let rows = b.build();
    assert_eq!(rows.len(), 2);
    assert_eq!(rows[0].spans, vec![Span::noise("ab".to_string()), Span::text("cd".to_string())]);
    assert_eq!(rows[1].spans, vec![Span::text("e".to_string())]);
    assert_eq!(rows[1].lln, 7);
    assert_eq!(SpanLabel::Noise, rows[0].spans[0].label);
}

#[test]
fn error_messages_are_distinct() {
    let a = LogError::InvalidFilter.message();
    let b = LogError::BadTimestamp.message();
    let c = LogError::LayoutImpossible.message();
    assert!(a != b && b != c && a != c);
}
