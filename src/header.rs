//! The fixed header grammar of a log line:
//! `[` timestamp whitespace level whitespace target `]`.
use vstd::prelude::*;
use crate::time::{iso_datetime_prefix, parse_iso_datetime, UtcTime};

verus! {

/// Where the pieces of a recognised header end, as byte offsets into the line,
/// with the level code and the instant of the timestamp (`None` where the
/// timestamp names no instant). The header starts with `[` at offset 0; the
/// timestamp starts at offset 1 and the closing `]` sits at `target_end`.
#[derive(Clone, Copy, Debug, PartialEq, Eq, Structural)]
pub struct Header {
    pub ts_end: usize,
    pub ws1_end: usize,
    pub level_end: usize,
    pub ws2_end: usize,
    pub target_end: usize,
    pub level: i32,
    pub instant: Option<UtcTime>,
}

/// A space, tab, carriage return or line feed.
pub open spec fn is_space_byte(c: u8) -> bool {
    c == 32u8 || c == 9u8 || c == 13u8 || c == 10u8
}

/// The end of the run of whitespace bytes that starts at `i`.
pub open spec fn space_run_end(b: Seq<u8>, i: int) -> int
    decreases b.len() - i,
{
    if 0 <= i < b.len() && is_space_byte(b[i]) {
        space_run_end(b, i + 1)
    } else {
        i
    }
}

/// `t` appears in `b` at offset `i`.
pub open spec fn bytes_at(b: Seq<u8>, i: int, t: Seq<u8>) -> bool {
    0 <= i && i + t.len() <= b.len() && b.subrange(i, i + t.len()) == t
}

/// The level name at offset `i`, as its length and its code:
/// ERROR 0, WARN 1, INFO 2, DEBUG 3, TRACE 4.
pub open spec fn level_at(b: Seq<u8>, i: int) -> Option<(nat, i32)> {
    if bytes_at(b, i, seq![69u8, 82, 82, 79, 82]) {
        Some((5, 0))
    } else if bytes_at(b, i, seq![87u8, 65, 82, 78]) {
        Some((4, 1))
    } else if bytes_at(b, i, seq![73u8, 78, 70, 79]) {
        Some((4, 2))
    } else if bytes_at(b, i, seq![68u8, 69, 66, 85, 71]) {
        Some((5, 3))
    } else if bytes_at(b, i, seq![84u8, 82, 65, 67, 69]) {
        Some((5, 4))
    } else {
        None
    }
}

/// The first offset at or after `i` that holds `v`.
pub open spec fn first_from(b: Seq<u8>, i: int, v: u8) -> Option<int>
    decreases b.len() - i,
{
    if 0 <= i < b.len() {
        if b[i] == v {
            Some(i)
        } else {
            first_from(b, i + 1, v)
        }
    } else {
        None
    }
}

/// The header at the front of the UTF-8 bytes `b` of a line, if they open with one.
pub open spec fn header_spec(b: Seq<u8>) -> Option<Header> {
    if b.len() == 0 || b.len() > usize::MAX || b[0] != 91u8 {
        None
    } else {
        match iso_datetime_prefix(b.subrange(1, b.len() as int)) {
            None => None,
            Some(p) => {
                let ts_end = b.len() - p.0;
                let ws1_end = space_run_end(b, ts_end);
                if ws1_end == ts_end || ts_end < 1 {
                    None
                } else {
                    match level_at(b, ws1_end) {
                        None => None,
                        Some(lv) => {
                            let level_end = ws1_end + lv.0;
                            let ws2_end = space_run_end(b, level_end);
                            if ws2_end == level_end {
                                None
                            } else {
                                match first_from(b, ws2_end, 93u8) {
                                    None => None,
                                    Some(target_end) => Some(
                                        Header {
                                            ts_end: ts_end as usize,
                                            ws1_end: ws1_end as usize,
                                            level_end: level_end as usize,
                                            ws2_end: ws2_end as usize,
                                            target_end: target_end as usize,
                                            level: lv.1,
                                            instant: p.1,
                                        },
                                    ),
                                }
                            }
                        },
                    }
                }
            },
        }
    }
}

/// The offsets of a recognised header are ordered, lie in the line, and all
/// but the last pieces end where a whitespace run or an ASCII byte begins.
pub open spec fn header_shape(b: Seq<u8>, h: Header) -> bool {
    &&& 1 <= h.ts_end < h.ws1_end < h.level_end < h.ws2_end <= h.target_end < b.len()
    &&& b[0] == 91u8
    &&& b[h.target_end as int] == 93u8
    &&& is_space_byte(b[h.ts_end as int])
    &&& is_space_byte(b[h.ws1_end - 1])
    &&& b[h.ws1_end as int] < 128
    &&& is_space_byte(b[h.level_end as int])
    &&& is_space_byte(b[h.ws2_end - 1])
}

proof fn lemma_space_run(b: Seq<u8>, i: int)
    requires
        0 <= i <= b.len(),
    ensures
        i <= space_run_end(b, i) <= b.len(),
        space_run_end(b, i) > i ==> is_space_byte(b[space_run_end(b, i) - 1]),
        forall|j: int| i <= j < space_run_end(b, i) ==> is_space_byte(#[trigger] b[j]),
    decreases b.len() - i,
{
    if i < b.len() && is_space_byte(b[i]) {
        lemma_space_run(b, i + 1);
    }
}

proof fn lemma_first_from(b: Seq<u8>, i: int, v: u8)
    requires
        0 <= i,
    ensures
        first_from(b, i, v) matches Some(k) ==> i <= k < b.len() && b[k] == v,
    decreases b.len() - i,
{
    if 0 <= i < b.len() && b[i] != v {
        lemma_first_from(b, i + 1, v);
    }
}

pub proof fn lemma_header_shape(b: Seq<u8>)
    ensures
        header_spec(b) matches Some(h) ==> header_shape(b, h),
{
    if let Some(h) = header_spec(b) {
        let p = iso_datetime_prefix(b.subrange(1, b.len() as int)).unwrap();
        let ts_end = b.len() - p.0;
        let w1 = space_run_end(b, ts_end);
        lemma_space_run(b, ts_end);
        let lv = level_at(b, w1).unwrap();
        let le = w1 + lv.0;
        assert(b[w1] < 128) by {
            if bytes_at(b, w1, seq![69u8, 82, 82, 79, 82]) {
                assert(b.subrange(w1, w1 + 5)[0] == b[w1]);
            } else if bytes_at(b, w1, seq![87u8, 65, 82, 78]) {
                assert(b.subrange(w1, w1 + 4)[0] == b[w1]);
            } else if bytes_at(b, w1, seq![73u8, 78, 70, 79]) {
                assert(b.subrange(w1, w1 + 4)[0] == b[w1]);
            } else if bytes_at(b, w1, seq![68u8, 69, 66, 85, 71]) {
                assert(b.subrange(w1, w1 + 5)[0] == b[w1]);
            } else {
                assert(b.subrange(w1, w1 + 5)[0] == b[w1]);
            }
        }
        assert(le <= b.len());
        lemma_space_run(b, le);
        let w2 = space_run_end(b, le);
        lemma_first_from(b, w2, 93u8);
        assert(h.ts_end == ts_end);
        assert(h.ws1_end == w1);
        assert(h.level_end == le);
        assert(h.ws2_end == w2);
    }
}

fn space_run(b: &[u8], i: usize) -> (r: usize)
    requires
        i <= b@.len(),
    ensures
        r == space_run_end(b@, i as int),
        i <= r <= b@.len(),
{
    proof {
        lemma_space_run(b@, i as int);
    }
    let mut j = i;
    while j < b.len() && (b[j] == 32u8 || b[j] == 9u8 || b[j] == 13u8 || b[j] == 10u8)
        invariant
            i <= j <= b@.len(),
            space_run_end(b@, i as int) == space_run_end(b@, j as int),
        decreases b@.len() - j,
    {
        j = j + 1;
    }
    j
}

fn has_bytes_at(b: &[u8], i: usize, t: &[u8]) -> (r: bool)
    ensures
        r == bytes_at(b@, i as int, t@),
{
    if i > b.len() || t.len() > b.len() - i {
        return false;
    }
    let blen = b.len();
    let mut k: usize = 0;
    while k < t.len()
        invariant
            blen == b@.len(),
            i + t@.len() <= b@.len(),
            k <= t@.len(),
            forall|j: int| 0 <= j < k ==> b@[i + j] == t@[j],
        decreases t@.len() - k,
    {
        assert(i + k < b@.len());
        if b[i + k] != t[k] {
            proof {
                assert(b@.subrange(i as int, i + t@.len())[k as int] != t@[k as int]);
            }
            return false;
        }
        k = k + 1;
    }
    proof {
        assert(b@.subrange(i as int, i + t@.len()) =~= t@);
    }
    true
}

fn level_of(b: &[u8], i: usize) -> (r: Option<(usize, i32)>)
    ensures
        match r {
            Some(p) => level_at(b@, i as int) == Some((p.0 as nat, p.1)),
            None => level_at(b@, i as int) is None,
        },
{
    let error: [u8; 5] = [69u8, 82, 82, 79, 82];
    let warn: [u8; 4] = [87u8, 65, 82, 78];
    let info: [u8; 4] = [73u8, 78, 70, 79];
    let debug: [u8; 5] = [68u8, 69, 66, 85, 71];
    let trace: [u8; 5] = [84u8, 82, 65, 67, 69];
    proof {
        assert(error@ =~= seq![69u8, 82, 82, 79, 82]);
        assert(warn@ =~= seq![87u8, 65, 82, 78]);
        assert(info@ =~= seq![73u8, 78, 70, 79]);
        assert(debug@ =~= seq![68u8, 69, 66, 85, 71]);
        assert(trace@ =~= seq![84u8, 82, 65, 67, 69]);
    }
    if has_bytes_at(b, i, error.as_slice()) {
        Some((5, 0))
    } else if has_bytes_at(b, i, warn.as_slice()) {
        Some((4, 1))
    } else if has_bytes_at(b, i, info.as_slice()) {
        Some((4, 2))
    } else if has_bytes_at(b, i, debug.as_slice()) {
        Some((5, 3))
    } else if has_bytes_at(b, i, trace.as_slice()) {
        Some((5, 4))
    } else {
        None
    }
}

pub(crate) fn first_byte_from(b: &[u8], i: usize, v: u8) -> (r: Option<usize>)
    requires
        i <= b@.len(),
    ensures
        match r {
            Some(k) => first_from(b@, i as int, v) == Some(k as int),
            None => first_from(b@, i as int, v) is None,
        },
{
    let mut j = i;
    while j < b.len()
        invariant
            i <= j <= b@.len(),
            first_from(b@, i as int, v) == first_from(b@, j as int, v),
        decreases b@.len() - j,
    {
        if b[j] == v {
            return Some(j);
        }
        j = j + 1;
    }
    None
}

/// Recognises the header at the front of the UTF-8 bytes of a line.
pub fn parse_header(b: &[u8]) -> (r: Option<Header>)
    ensures
        r == header_spec(b@),
{
    if b.len() == 0 || b[0] != 91u8 {
        return None;
    }
    let tail = b.split_at(1).1;
    proof {
        assert(tail@ =~= b@.subrange(1, b@.len() as int));
    }
    let (rest, instant) = match parse_iso_datetime(tail) {
        None => return None,
        Some(p) => p,
    };
    let ts_end = b.len() - rest;
    if ts_end < 1 {
        return None;
    }
    let ws1_end = space_run(b, ts_end);
    if ws1_end == ts_end {
        return None;
    }
    let (n, level) = match level_of(b, ws1_end) {
        None => return None,
        Some(p) => p,
    };
    let level_end = ws1_end + n;
    let ws2_end = space_run(b, level_end);
    if ws2_end == level_end {
        return None;
    }
    match first_byte_from(b, ws2_end, 93u8) {
        None => None,
        Some(target_end) => Some(
            Header { ts_end, ws1_end, level_end, ws2_end, target_end, level, instant },
        ),
    }
}

} // verus!
