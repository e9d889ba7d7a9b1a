//! Labelled fragments of a display row, and the two ways of cutting one.
use vstd::prelude::*;
use vstd::string::*;
use crate::error::LogError;
use crate::unicode::{display_width, grapheme_clusters, graphemes_of, str_width};

verus! {

/// What a fragment of a row shows.
#[derive(Clone, Copy, Debug, PartialEq, Eq, Structural)]
pub enum SpanLabel {
    Noise,
    Timestamp,
    Level,
    Target,
    Text,
    TextMatch,
}

/// A labelled, contiguous piece of text within a display line.
#[derive(Clone, Debug, PartialEq, Eq)]
pub struct Span {
    pub text: String,
    pub label: SpanLabel,
}

impl View for Span {
    type V = (Seq<char>, SpanLabel);

    open spec fn view(&self) -> (Seq<char>, SpanLabel) {
        (self.text@, self.label)
    }
}

/// A whitespace character: those with the Unicode `White_Space` property.
pub open spec fn is_whitespace_char(c: char) -> bool {
    let v = c as u32;
    ||| 9 <= v <= 13
    ||| v == 32
    ||| v == 0x85
    ||| v == 0xA0
    ||| v == 0x1680
    ||| 0x2000 <= v <= 0x200A
    ||| v == 0x2028
    ||| v == 0x2029
    ||| v == 0x202F
    ||| v == 0x205F
    ||| v == 0x3000
}

/// `s` holds no whitespace character.
pub open spec fn no_whitespace(s: Seq<char>) -> bool {
    forall|j: int| 0 <= j < s.len() ==> !is_whitespace_char(#[trigger] s[j])
}

/// The text before the first whitespace character of `s`, that character,
/// and the text after it.
pub open spec fn soft_split(s: Seq<char>) -> Option<(Seq<char>, char, Seq<char>)>
    decreases s.len(),
{
    if s.len() == 0 {
        None
    } else if is_whitespace_char(s[0]) {
        Some((Seq::<char>::empty(), s[0], s.drop_first()))
    } else {
        match soft_split(s.drop_first()) {
            Some(p) => Some((seq![s[0]] + p.0, p.1, p.2)),
            None => None,
        }
    }
}

/// How many leading grapheme clusters of `g`, from the `i`-th on, can join
/// while their text stays within `k` cells.
pub open spec fn fit_count(g: Seq<Seq<char>>, k: nat, i: int) -> int
    decreases g.len() - i,
{
    if 0 <= i < g.len() && display_width(g.subrange(0, i + 1).flatten()) <= k {
        fit_count(g, k, i + 1)
    } else {
        i
    }
}

/// The two parts of a hard break of `s` within `k` cells: the longest run of
/// leading grapheme clusters whose text fits in `k` cells, and the rest. The
/// parts spell `s` out. `None` when `s` is not empty and not even its first
/// cluster fits.
pub open spec fn hard_split(s: Seq<char>, k: nat) -> Option<(Seq<char>, Seq<char>)> {
    let g = grapheme_clusters(s);
    let j = fit_count(g, k, 0);
    if j <= 0 {
        if s.len() == 0 {
            Some((Seq::<char>::empty(), s))
        } else {
            None
        }
    } else {
        let f = g.subrange(0, j).flatten().len() as int;
        let n = if f <= s.len() { f } else { s.len() as int };
        let l = s.subrange(0, n);
        if display_width(l) > k {
            None
        } else {
            Some((l, s.subrange(n, s.len() as int)))
        }
    }
}

pub proof fn lemma_fit_count(g: Seq<Seq<char>>, k: nat, i: int)
    requires
        0 <= i <= g.len(),
    ensures
        i <= fit_count(g, k, i) <= g.len(),
    decreases g.len() - i,
{
    if i < g.len() && display_width(g.subrange(0, i + 1).flatten()) <= k {
        lemma_fit_count(g, k, i + 1);
    }
}

pub proof fn lemma_soft_split_parts(s: Seq<char>)
    ensures
        match soft_split(s) {
            Some(p) => s == p.0 + seq![p.1] + p.2 && is_whitespace_char(p.1) && no_whitespace(p.0),
            None => no_whitespace(s),
        },
    decreases s.len(),
{
    if s.len() > 0 {
        let t = s.drop_first();
        lemma_soft_split_parts(t);
        assert(s =~= seq![s[0]] + t);
        if is_whitespace_char(s[0]) {
            assert(s =~= Seq::<char>::empty() + seq![s[0]] + t);
        } else {
            match soft_split(t) {
                Some(p) => {
                    assert(s =~= (seq![s[0]] + p.0) + seq![p.1] + p.2);
                    assert forall|j: int| 0 <= j < (seq![s[0]] + p.0).len() implies !is_whitespace_char(
                        #[trigger] (seq![s[0]] + p.0)[j],
                    ) by {
                        if j > 0 {
                            assert((seq![s[0]] + p.0)[j] == p.0[j - 1]);
                        }
                    }
                },
                None => {
                    assert forall|j: int| 0 <= j < s.len() implies !is_whitespace_char(
                        #[trigger] s[j],
                    ) by {
                        if j > 0 {
                            assert(s[j] == t[j - 1]);
                        }
                    }
                },
            }
        }
    }
}

/// The split at a whitespace character with none before it is the soft split.
pub proof fn lemma_soft_split_at(s: Seq<char>, i: int)
    requires
        0 <= i < s.len(),
        is_whitespace_char(s[i]),
        forall|j: int| 0 <= j < i ==> !is_whitespace_char(#[trigger] s[j]),
    ensures
        soft_split(s) == Some((s.subrange(0, i), s[i], s.subrange(i + 1, s.len() as int))),
    decreases i,
{
    let t = s.drop_first();
    if i == 0 {
        assert(t =~= s.subrange(1, s.len() as int));
        assert(s.subrange(0, 0) =~= Seq::<char>::empty());
    } else {
        assert(!is_whitespace_char(s[0]));
        assert forall|j: int| 0 <= j < i - 1 implies !is_whitespace_char(#[trigger] t[j]) by {
            assert(t[j] == s[j + 1]);
        }
        lemma_soft_split_at(t, i - 1);
        assert(seq![s[0]] + t.subrange(0, i - 1) =~= s.subrange(0, i));
        assert(t.subrange(i, t.len() as int) =~= s.subrange(i + 1, s.len() as int));
    }
}

pub proof fn lemma_no_whitespace_no_split(s: Seq<char>)
    requires
        no_whitespace(s),
    ensures
        soft_split(s) is None,
    decreases s.len(),
{
    if s.len() > 0 {
        let t = s.drop_first();
        assert forall|j: int| 0 <= j < t.len() implies !is_whitespace_char(#[trigger] t[j]) by {
            assert(t[j] == s[j + 1]);
        }
        lemma_no_whitespace_no_split(t);
    }
}

fn is_whitespace(c: char) -> (r: bool)
    ensures
        r == is_whitespace_char(c),
{
    let v = c as u32;
    (9 <= v && v <= 13) || v == 32 || v == 0x85 || v == 0xA0 || v == 0x1680 || (0x2000 <= v && v
        <= 0x200A) || v == 0x2028 || v == 0x2029 || v == 0x202F || v == 0x205F || v == 0x3000
}

impl Span {
    pub fn noise(text: String) -> (r: Span)
        ensures
            r@ == (text@, SpanLabel::Noise),
    {
        Span { text, label: SpanLabel::Noise }
    }

    pub fn timestamp(text: String) -> (r: Span)
        ensures
            r@ == (text@, SpanLabel::Timestamp),
    {
        Span { text, label: SpanLabel::Timestamp }
    }

    pub fn level(text: String) -> (r: Span)
        ensures
            r@ == (text@, SpanLabel::Level),
    {
        Span { text, label: SpanLabel::Level }
    }

    pub fn target(text: String) -> (r: Span)
        ensures
            r@ == (text@, SpanLabel::Target),
    {
        Span { text, label: SpanLabel::Target }
    }

    pub fn text(text: String) -> (r: Span)
        ensures
            r@ == (text@, SpanLabel::Text),
    {
        Span { text, label: SpanLabel::Text }
    }

    pub fn text_match(text: String) -> (r: Span)
        ensures
            r@ == (text@, SpanLabel::TextMatch),
    {
        Span { text, label: SpanLabel::TextMatch }
    }

    /// Cuts the span after its longest run of leading grapheme clusters that
    /// fits in `width` cells. `LayoutImpossible` when the span is not empty
    /// and not even its first cluster fits.
    pub fn split_at(&self, width: usize) -> (r: Result<(Span, Span), LogError>)
        ensures
            match hard_split(self.text@, width as nat) {
                Some(p) => r == Ok::<(Span, Span), LogError>((
                    Span { text: r->Ok_0.0.text, label: self.label },
                    Span { text: r->Ok_0.1.text, label: self.label },
                )) && r->Ok_0.0.text@ == p.0 && r->Ok_0.1.text@ == p.1,
                None => r == Err::<(Span, Span), LogError>(LogError::LayoutImpossible),
            },
            r is Err <==> (self.text@.len() > 0 && fit_count(
                grapheme_clusters(self.text@),
                width as nat,
                0,
            ) == 0),
            r matches Ok(p) ==> p.0.text@ == grapheme_clusters(self.text@).subrange(
                0,
                fit_count(grapheme_clusters(self.text@), width as nat, 0),
            ).flatten() && self.text@ == p.0.text@ + p.1.text@,
    {
        let glyphs = graphemes_of(self.text.as_str());
        let ghost g = grapheme_clusters(self.text@);
        let ghost s = self.text@;
        let ghost k = width as nat;
        let mut l = String::new();
        let mut i: usize = 0;
        let mut fits = true;
        proof {
            assert(g.subrange(0, 0) =~= Seq::<Seq<char>>::empty());
        }
        while fits && i < glyphs.len()
            invariant
                i <= glyphs@.len(),
                k == width as nat,
                g == glyphs@.map_values(|x: &str| x@),
                g.len() == glyphs@.len(),
                l@ == g.subrange(0, i as int).flatten(),
                i > 0 ==> display_width(l@) <= k,
                fits ==> fit_count(g, k, 0) == fit_count(g, k, i as int),
                !fits ==> fit_count(g, k, 0) == i,
            decreases glyphs@.len() - i + (if fits { 1int } else { 0int }),
        {
            let mut cand = l.clone();
            cand.append(glyphs[i]);
            proof {
                assert(g.subrange(0, i as int + 1) =~= g.subrange(0, i as int).push(g[i as int]));
                g.subrange(0, i as int).lemma_flatten_push(g[i as int]);
                assert(g[i as int] == glyphs@[i as int]@);
                assert(cand@ == g.subrange(0, i as int + 1).flatten());
            }
            if str_width(cand.as_str()) > width {
                fits = false;
            } else {
                l = cand;
                i = i + 1;
            }
        }
        let ghost j = i as int;
        if i == 0 {
            proof {
                assert(g.subrange(0, 0) =~= Seq::<Seq<char>>::empty());
                if g.len() == 0 {
                    assert(g =~= Seq::<Seq<char>>::empty());
                    assert(glyphs@.map_values(|x: &str| x@).flatten() == s);
                }
            }
            if glyphs.len() > 0 {
                return Err(LogError::LayoutImpossible);
            }
            return Ok(
                (
                    Span { text: String::new(), label: self.label },
                    Span { text: self.text.clone(), label: self.label },
                ),
            );
        }
        let mut r = String::new();
        let mut m = i;
        proof {
            assert(g.subrange(j, j) =~= Seq::<Seq<char>>::empty());
        }
        while m < glyphs.len()
            invariant
                j <= m <= glyphs@.len(),
                j == i as int,
                g == glyphs@.map_values(|x: &str| x@),
                g.len() == glyphs@.len(),
                r@ == g.subrange(j, m as int).flatten(),
            decreases glyphs@.len() - m,
        {
            proof {
                assert(g.subrange(j, m as int + 1) =~= g.subrange(j, m as int).push(g[m as int]));
                g.subrange(j, m as int).lemma_flatten_push(g[m as int]);
            }
            r.append(glyphs[m]);
            m = m + 1;
        }
        proof {
            assert(g =~= g.subrange(0, j) + g.subrange(j, g.len() as int));
            vstd::seq_lib::lemma_flatten_concat(g.subrange(0, j), g.subrange(j, g.len() as int));
            assert(s == l@ + r@);
            assert(l@ =~= s.subrange(0, l@.len() as int));
            assert(r@ =~= s.subrange(l@.len() as int, s.len() as int));
        }
        Ok((Span { text: l, label: self.label }, Span { text: r, label: self.label }))
    }

    /// Cuts the span around its first whitespace character: the text before
    /// it, that character, and the text after it. `None` when the span holds
    /// no whitespace.
    pub fn split_soft_once(&self) -> (r: Option<(Span, Span, Span)>)
        ensures
            match soft_split(self.text@) {
                Some(p) => r is Some && r->Some_0.0@ == (p.0, self.label) && r->Some_0.1@ == (
                    seq![p.1],
                    self.label,
                ) && r->Some_0.2@ == (p.2, self.label),
                None => r is None,
            },
            r is None <==> no_whitespace(self.text@),
            r matches Some(p) ==> no_whitespace(p.0.text@) && is_whitespace_char(p.1.text@[0])
                && self.text@ == p.0.text@ + p.1.text@ + p.2.text@,
    {
        let s = self.text.as_str();
        let n = s.unicode_len();
        let mut i: usize = 0;
        proof {
            lemma_soft_split_parts(s@);
        }
        while i < n
            invariant
                i <= n,
                n == s@.len(),
                s@ == self.text@,
                forall|j: int| 0 <= j < i ==> !is_whitespace_char(#[trigger] s@[j]),
            decreases n - i,
        {
            let c = s.get_char(i);
            if is_whitespace(c) {
                proof {
                    lemma_soft_split_at(s@, i as int);
                }
                let left = s.substring_char(0, i);
                let ws = s.substring_char(i, i + 1);
                let right = s.substring_char(i + 1, n);
                proof {
                    assert(ws@ =~= seq![s@[i as int]]);
                    assert(s@ == self.text@);
                    assert(left@ == s@.subrange(0, i as int));
                    assert(right@ == s@.subrange(i + 1, n as int));
                    assert(!no_whitespace(s@)) by {
                        assert(is_whitespace_char(s@[i as int]));
                    }
                    assert(s@ =~= left@ + ws@ + right@);
                    assert(no_whitespace(left@));
                }
                return Some(
                    (
                        Span { text: left.to_owned(), label: self.label },
                        Span { text: ws.to_owned(), label: self.label },
                        Span { text: right.to_owned(), label: self.label },
                    ),
                );
            }
            i = i + 1;
        }
        proof {
            lemma_no_whitespace_no_split(s@);
        }
        None
    }
}

} // verus!
