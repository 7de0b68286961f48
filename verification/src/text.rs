//! The text span model: a markup-bearing paragraph string is split
//! into tagged runs. A hyperlink is written `<a href='URL'>TEXT</a>`
//! and a bold run `<b>TEXT</b>`; matches are found leftmost-first,
//! with the hyperlink form preferred where both could start; the text
//! between and after matches becomes plain runs.

use crate::winansi;
use vstd::prelude::*;
use vstd::string::StrSliceExecFns;
use vstd::string::StringExecFns;

verus! {

/// A whitespace character, as the markup between `<a` and `href`
/// allows: the Unicode white-space set.
pub open spec fn sp_is_space(c: char) -> bool {
    c == '\u{9}' || c == '\u{a}' || c == '\u{b}' || c == '\u{c}' || c == '\u{d}' || c == ' '
        || c == '\u{85}' || c == '\u{a0}' || c == '\u{1680}' || c == '\u{2000}' || c == '\u{2001}'
        || c == '\u{2002}' || c == '\u{2003}' || c == '\u{2004}' || c == '\u{2005}'
        || c == '\u{2006}' || c == '\u{2007}' || c == '\u{2008}' || c == '\u{2009}'
        || c == '\u{200a}' || c == '\u{2028}' || c == '\u{2029}' || c == '\u{202f}'
        || c == '\u{205f}' || c == '\u{3000}'
}

/// Whether `t` occurs in `s` starting at position `i`.
pub open spec fn sp_starts_at(s: Seq<char>, i: int, t: Seq<char>) -> bool {
    0 <= i && i + t.len() <= s.len() && s.subrange(i, i + t.len()) == t
}

/// The first position at or after `i` that is not whitespace.
pub open spec fn sp_ws_end(s: Seq<char>, i: int) -> int
    decreases s.len() - i,
{
    if i < 0 || i >= s.len() {
        i
    } else if sp_is_space(s[i]) {
        sp_ws_end(s, i + 1)
    } else {
        i
    }
}

/// The first position at or after `i` holding character `c`.
pub open spec fn sp_find_char(s: Seq<char>, i: int, c: char) -> Option<int>
    decreases s.len() - i,
{
    if i < 0 || i >= s.len() {
        None
    } else if s[i] == c {
        Some(i)
    } else {
        sp_find_char(s, i + 1, c)
    }
}

/// The first position at or after `i` where the closing tag `</tc>`
/// begins, provided no newline stands before it (the text in between
/// must stay on one line).
pub open spec fn sp_find_close(s: Seq<char>, i: int, tc: char) -> Option<int>
    decreases s.len() - i,
{
    if i < 0 || i + 4 > s.len() {
        None
    } else if sp_starts_at(s, i, seq!['<', '/', tc, '>']) {
        Some(i)
    } else if s[i] == '\n' {
        None
    } else {
        sp_find_close(s, i + 1, tc)
    }
}

/// A hyperlink match starting at `i`: the position after `</a>`, the
/// URL, and the anchor text, if the markup parses there.
pub open spec fn sp_match_a(s: Seq<char>, i: int) -> Option<(int, Seq<char>, Seq<char>)> {
    if !sp_starts_at(s, i, seq!['<', 'a']) {
        None
    } else {
        let j = sp_ws_end(s, i + 2);
        if j == i + 2 || !sp_starts_at(s, j, seq!['h', 'r', 'e', 'f', '=', '\'']) {
            None
        } else {
            match sp_find_char(s, j + 6, '\'') {
                None => None,
                Some(q) => {
                    if q == j + 6 {
                        None
                    } else {
                        match sp_find_char(s, q + 1, '>') {
                            None => None,
                            Some(g) => match sp_find_close(s, g + 1, 'a') {
                                None => None,
                                Some(e) => Some(
                                    (e + 4, s.subrange(j + 6, q), s.subrange(g + 1, e)),
                                ),
                            },
                        }
                    }
                },
            }
        }
    }
}

/// A bold match starting at `i`: the position after `</b>` and the
/// inner text, if the markup parses there.
pub open spec fn sp_match_b(s: Seq<char>, i: int) -> Option<(int, Seq<char>)> {
    if !sp_starts_at(s, i, seq!['<', 'b', '>']) {
        None
    } else {
        match sp_find_close(s, i + 3, 'b') {
            None => None,
            Some(e) => Some((e + 4, s.subrange(i + 3, e))),
        }
    }
}

/// The leftmost match at or after `i`: its start, its end, its kind
/// (1 for a hyperlink, 2 for bold), its text and its URL. At equal
/// starting positions the hyperlink form wins.
pub open spec fn sp_find_match(s: Seq<char>, i: int) -> Option<(int, int, int, Seq<char>, Seq<char>)>
    decreases s.len() - i,
{
    if i < 0 || i >= s.len() {
        None
    } else {
        match sp_match_a(s, i) {
            Some(m) => Some((i, m.0, 1, m.2, m.1)),
            None => match sp_match_b(s, i) {
                Some(m) => Some((i, m.0, 2, m.1, Seq::empty())),
                None => sp_find_match(s, i + 1),
            },
        }
    }
}

proof fn lemma_ws_end_bounds(s: Seq<char>, i: int)
    requires
        0 <= i,
    ensures
        i <= sp_ws_end(s, i),
        sp_ws_end(s, i) <= s.len() || sp_ws_end(s, i) == i,
    decreases s.len() - i,
{
    if i < s.len() && sp_is_space(s[i]) {
        lemma_ws_end_bounds(s, i + 1);
    }
}

proof fn lemma_find_char_bounds(s: Seq<char>, i: int, c: char)
    requires
        0 <= i,
    ensures
        sp_find_char(s, i, c) matches Some(q) ==> i <= q < s.len(),
    decreases s.len() - i,
{
    if 0 <= i && i < s.len() && s[i] != c {
        lemma_find_char_bounds(s, i + 1, c);
    }
}

proof fn lemma_find_close_bounds(s: Seq<char>, i: int, tc: char)
    requires
        0 <= i,
    ensures
        sp_find_close(s, i, tc) matches Some(e) ==> i <= e && e + 4 <= s.len(),
    decreases s.len() - i,
{
    if 0 <= i && i + 4 <= s.len() && !sp_starts_at(s, i, seq!['<', '/', tc, '>']) && s[i] != '\n' {
        lemma_find_close_bounds(s, i + 1, tc);
    }
}

proof fn lemma_match_a_bounds(s: Seq<char>, i: int)
    requires
        0 <= i,
    ensures
        sp_match_a(s, i) matches Some(m) ==> i < m.0 && m.0 <= s.len(),
{
    if sp_match_a(s, i) is Some {
        let j = sp_ws_end(s, i + 2);
        lemma_ws_end_bounds(s, i + 2);
        let q = sp_find_char(s, j + 6, '\'')->Some_0;
        lemma_find_char_bounds(s, j + 6, '\'');
        let g = sp_find_char(s, q + 1, '>')->Some_0;
        lemma_find_char_bounds(s, q + 1, '>');
        lemma_find_close_bounds(s, g + 1, 'a');
    }
}

proof fn lemma_match_b_bounds(s: Seq<char>, i: int)
    requires
        0 <= i,
    ensures
        sp_match_b(s, i) matches Some(m) ==> i < m.0 && m.0 <= s.len(),
{
    if sp_match_b(s, i) is Some {
        lemma_find_close_bounds(s, i + 3, 'b');
    }
}

proof fn lemma_find_match_bounds(s: Seq<char>, i: int)
    requires
        0 <= i,
    ensures
        sp_find_match(s, i) matches Some(m) ==> i <= m.0 && m.0 < m.1 && m.1 <= s.len(),
    decreases s.len() - i,
{
    if 0 <= i && i < s.len() {
        lemma_match_a_bounds(s, i);
        lemma_match_b_bounds(s, i);
        if sp_match_a(s, i) is None && sp_match_b(s, i) is None {
            lemma_find_match_bounds(s, i + 1);
        }
    }
}

/// The tagged-run decomposition of `s` from position `cur` on: each
/// element is a kind (0 plain, 1 hyperlink, 2 bold), the run's text,
/// and for a hyperlink its URL.
pub open spec fn sp_spans(s: Seq<char>, cur: int) -> Seq<(int, Seq<char>, Seq<char>)>
    decreases s.len() - cur,
        when 0 <= cur
        via sp_spans_decreases
{
    match sp_find_match(s, cur) {
        None => {
            if cur < s.len() {
                seq![(0int, s.subrange(cur, s.len() as int), Seq::<char>::empty())]
            } else {
                Seq::empty()
            }
        },
        Some(m) => {
            (if m.0 > cur {
                seq![(0int, s.subrange(cur, m.0), Seq::<char>::empty())]
            } else {
                Seq::empty()
            }) + (if m.3.len() > 0 {
                seq![(m.2, m.3, m.4)]
            } else {
                Seq::empty()
            }) + sp_spans(s, m.1)
        },
    }
}

#[via_fn]
proof fn sp_spans_decreases(s: Seq<char>, cur: int) {
    lemma_find_match_bounds(s, cur);
}

/// The text with every hyperlink markup replaced by its anchor text.
pub open spec fn sp_links_removed(s: Seq<char>, cur: int) -> Seq<char>
    decreases s.len() - cur,
        when 0 <= cur
        via sp_links_removed_decreases
{
    match sp_find_link(s, cur) {
        None => s.subrange(cur, s.len() as int),
        Some(m) => s.subrange(cur, m.0) + m.3 + sp_links_removed(s, m.1),
    }
}

/// The leftmost hyperlink match at or after `i`.
pub open spec fn sp_find_link(s: Seq<char>, i: int) -> Option<(int, int, int, Seq<char>, Seq<char>)>
    decreases s.len() - i,
{
    if i < 0 || i >= s.len() {
        None
    } else {
        match sp_match_a(s, i) {
            Some(m) => Some((i, m.0, 1, m.2, m.1)),
            None => sp_find_link(s, i + 1),
        }
    }
}

proof fn lemma_find_link_bounds(s: Seq<char>, i: int)
    requires
        0 <= i,
    ensures
        sp_find_link(s, i) matches Some(m) ==> i <= m.0 && m.0 < m.1 && m.1 <= s.len(),
    decreases s.len() - i,
{
    if 0 <= i && i < s.len() {
        lemma_match_a_bounds(s, i);
        if sp_match_a(s, i) is None {
            lemma_find_link_bounds(s, i + 1);
        }
    }
}

#[via_fn]
proof fn sp_links_removed_decreases(s: Seq<char>, cur: int) {
    lemma_find_link_bounds(s, cur);
}

/// The formatting tag a span carries.
#[derive(Debug, Clone)]
pub enum Tag {
    Span,
    Link { url: String },
    Bold,
}

/// A contiguous run of paragraph text carrying one formatting tag.
#[derive(Debug, Clone)]
pub struct TextSpan {
    pub text: String,
    pub tag: Tag,
}

/// The abstract form of a span: its kind (0 plain, 1 hyperlink,
/// 2 bold), its text, and for a hyperlink its URL.
pub open spec fn sp_span_rep(sp: TextSpan) -> (int, Seq<char>, Seq<char>) {
    match sp.tag {
        Tag::Span => (0int, sp.text@, Seq::<char>::empty()),
        Tag::Link { url } => (1int, sp.text@, url@),
        Tag::Bold => (2int, sp.text@, Seq::<char>::empty()),
    }
}

/// A span's text encoded as a parenthesised string followed by the
/// text-show operator.
pub open spec fn sp_encoded_text(s: Seq<char>) -> Seq<u8> {
    seq![40u8] + winansi::win_ansi_encoded(s) + seq![41u8, 32u8, 84u8, 106u8, 32u8]
}

/// The concatenated encodings of a list of spans.
pub open spec fn sp_encoded_spans(spans: Seq<TextSpan>) -> Seq<u8> {
    Seq::new(spans.len(), |i: int| sp_encoded_text(spans[i].text@)).flatten()
}

/// The characters of a text, one by one.
fn str_chars(s: &str) -> (r: Vec<char>)
    ensures
        r@ == s@,
{
    let n = s.unicode_len();
    let mut r: Vec<char> = Vec::new();
    let mut i: usize = 0;
    while i < n
        invariant
            n == s@.len(),
            i <= n,
            r@ == s@.take(i as int),
        decreases n - i,
    {
        r.push(s.get_char(i));
        proof {
            assert(s@.take(i + 1) =~= s@.take(i as int).push(s@[i as int]));
        }
        i = i + 1;
    }
    proof {
        assert(s@.take(n as int) =~= s@);
    }
    r
}

/// Whether `c` is Unicode whitespace.
fn is_space(c: char) -> (r: bool)
    ensures
        r == sp_is_space(c),
{
    c == '\u{9}' || c == '\u{a}' || c == '\u{b}' || c == '\u{c}' || c == '\u{d}' || c == ' '
        || c == '\u{85}' || c == '\u{a0}' || c == '\u{1680}' || c == '\u{2000}'
        || c == '\u{2001}' || c == '\u{2002}' || c == '\u{2003}' || c == '\u{2004}'
        || c == '\u{2005}' || c == '\u{2006}' || c == '\u{2007}' || c == '\u{2008}'
        || c == '\u{2009}' || c == '\u{200a}' || c == '\u{2028}' || c == '\u{2029}'
        || c == '\u{202f}' || c == '\u{205f}' || c == '\u{3000}'
}

fn ws_end_at(chars: &Vec<char>, i: usize) -> (r: usize)
    requires
        i <= chars@.len(),
    ensures
        r as int == sp_ws_end(chars@, i as int),
        i <= r <= chars@.len(),
{
    let n = chars.len();
    let mut k = i;
    while k < n && is_space(chars[k])
        invariant
            n == chars@.len(),
            i <= k <= n,
            sp_ws_end(chars@, i as int) == sp_ws_end(chars@, k as int),
        decreases n - k,
    {
        k = k + 1;
    }
    k
}

fn find_char_at(chars: &Vec<char>, i: usize, c: char) -> (r: Option<usize>)
    requires
        i <= chars@.len(),
    ensures
        r matches Some(q) ==> sp_find_char(chars@, i as int, c) == Some(q as int) && i <= q
            && q < chars@.len(),
        r is None ==> sp_find_char(chars@, i as int, c) is None,
{
    let n = chars.len();
    let mut k = i;
    while k < n
        invariant
            n == chars@.len(),
            i <= k <= n,
            sp_find_char(chars@, i as int, c) == sp_find_char(chars@, k as int, c),
        decreases n - k,
    {
        if chars[k] == c {
            return Some(k);
        }
        k = k + 1;
    }
    None
}

fn find_close_at(chars: &Vec<char>, i: usize, tc: char) -> (r: Option<usize>)
    requires
        i <= chars@.len(),
    ensures
        r matches Some(e) ==> sp_find_close(chars@, i as int, tc) == Some(e as int) && i <= e
            && e + 4 <= chars@.len(),
        r is None ==> sp_find_close(chars@, i as int, tc) is None,
{
    let n = chars.len();
    let mut k = i;
    while k < n && n - k >= 4
        invariant
            n == chars@.len(),
            i <= k,
            sp_find_close(chars@, i as int, tc) == sp_find_close(chars@, k as int, tc),
        decreases n - k,
    {
        if chars[k] == '<' && chars[k + 1] == '/' && chars[k + 2] == tc && chars[k + 3] == '>' {
            proof {
                assert(chars@.subrange(k as int, k + 4) =~= seq!['<', '/', tc, '>']);
            }
            return Some(k);
        }
        proof {
            if chars@.subrange(k as int, k + 4) == seq!['<', '/', tc, '>'] {
                assert(chars@.subrange(k as int, k + 4)[0] == chars@[k as int]);
                assert(chars@.subrange(k as int, k + 4)[1] == chars@[k as int + 1]);
                assert(chars@.subrange(k as int, k + 4)[2] == chars@[k as int + 2]);
                assert(chars@.subrange(k as int, k + 4)[3] == chars@[k as int + 3]);
                assert(false);
            }
        }
        if chars[k] == '\n' {
            return None;
        }
        k = k + 1;
    }
    None
}

fn try_match_a(chars: &Vec<char>, i: usize) -> (r: Option<(usize, usize, usize, usize, usize)>)
    requires
        i < chars@.len(),
    ensures
        r is Some <==> sp_match_a(chars@, i as int) is Some,
        r matches Some(t) ==> ({
            let m = sp_match_a(chars@, i as int)->Some_0;
            &&& t.0 <= t.1 <= chars@.len()
            &&& t.2 <= t.3 <= chars@.len()
            &&& m.0 == t.4
            &&& i < t.4 <= chars@.len()
            &&& m.1 == chars@.subrange(t.0 as int, t.1 as int)
            &&& m.2 == chars@.subrange(t.2 as int, t.3 as int)
        }),
{
    let n = chars.len();
    if !(n - i >= 2 && chars[i] == '<' && chars[i + 1] == 'a') {
        proof {
            if sp_starts_at(chars@, i as int, seq!['<', 'a']) {
                assert(chars@.subrange(i as int, i + 2)[0] == chars@[i as int]);
                assert(chars@.subrange(i as int, i + 2)[1] == chars@[i as int + 1]);
            }
        }
        return None;
    }
    proof {
        assert(chars@.subrange(i as int, i + 2) =~= seq!['<', 'a']);
    }
    let j = ws_end_at(chars, i + 2);
    let href_ok = j != i + 2 && n - j >= 6 && chars[j] == 'h' && chars[j + 1] == 'r' && chars[j
        + 2] == 'e' && chars[j + 3] == 'f' && chars[j + 4] == '=' && chars[j + 5] == '\'';
    if !href_ok {
        proof {
            if j != i + 2 && sp_starts_at(chars@, j as int, seq!['h', 'r', 'e', 'f', '=', '\'']) {
                let sub = chars@.subrange(j as int, j + 6);
                assert(sub[0] == chars@[j as int]);
                assert(sub[1] == chars@[j as int + 1]);
                assert(sub[2] == chars@[j as int + 2]);
                assert(sub[3] == chars@[j as int + 3]);
                assert(sub[4] == chars@[j as int + 4]);
                assert(sub[5] == chars@[j as int + 5]);
            }
        }
        return None;
    }
    proof {
        assert(chars@.subrange(j as int, j + 6) =~= seq!['h', 'r', 'e', 'f', '=', '\'']);
    }
    let q = match find_char_at(chars, j + 6, '\'') {
        Some(q) => q,
        None => {
            return None;
        },
    };
    if q == j + 6 {
        return None;
    }
    let g = match find_char_at(chars, q + 1, '>') {
        Some(g) => g,
        None => {
            return None;
        },
    };
    let e = match find_close_at(chars, g + 1, 'a') {
        Some(e) => e,
        None => {
            return None;
        },
    };
    Some((j + 6, q, g + 1, e, e + 4))
}

fn try_match_b(chars: &Vec<char>, i: usize) -> (r: Option<(usize, usize, usize)>)
    requires
        i < chars@.len(),
    ensures
        r is Some <==> sp_match_b(chars@, i as int) is Some,
        r matches Some(t) ==> ({
            let m = sp_match_b(chars@, i as int)->Some_0;
            &&& t.0 <= t.1 <= chars@.len()
            &&& m.0 == t.2
            &&& i < t.2 <= chars@.len()
            &&& m.1 == chars@.subrange(t.0 as int, t.1 as int)
        }),
{
    let n = chars.len();
    if !(n - i >= 3 && chars[i] == '<' && chars[i + 1] == 'b' && chars[i + 2] == '>') {
        proof {
            if sp_starts_at(chars@, i as int, seq!['<', 'b', '>']) {
                let sub = chars@.subrange(i as int, i + 3);
                assert(sub[0] == chars@[i as int]);
                assert(sub[1] == chars@[i as int + 1]);
                assert(sub[2] == chars@[i as int + 2]);
            }
        }
        return None;
    }
    proof {
        assert(chars@.subrange(i as int, i + 3) =~= seq!['<', 'b', '>']);
    }
    let e = match find_close_at(chars, i + 3, 'b') {
        Some(e) => e,
        None => {
            return None;
        },
    };
    Some((i + 3, e, e + 4))
}

/// The leftmost markup match at or after `from`, as positions: start,
/// end, kind, text range, URL range.
fn find_match_at(chars: &Vec<char>, from: usize) -> (r: Option<
    (usize, usize, usize, usize, usize, usize, usize),
>)
    requires
        from <= chars@.len(),
    ensures
        r is Some <==> sp_find_match(chars@, from as int) is Some,
        r matches Some(t) ==> ({
            let m = sp_find_match(chars@, from as int)->Some_0;
            &&& m.0 == t.0
            &&& m.1 == t.1
            &&& m.2 == t.2
            &&& from <= t.0 < t.1 <= chars@.len()
            &&& t.3 <= t.4 <= chars@.len()
            &&& t.5 <= t.6 <= chars@.len()
            &&& m.3 == chars@.subrange(t.3 as int, t.4 as int)
            &&& m.4 == chars@.subrange(t.5 as int, t.6 as int)
            &&& t.2 == 1 || t.2 == 2
            &&& t.2 == 2 ==> m.4 == Seq::<char>::empty()
        }),
{
    let n = chars.len();
    let mut i = from;
    while i < n
        invariant
            n == chars@.len(),
            from <= i <= n,
            sp_find_match(chars@, from as int) == sp_find_match(chars@, i as int),
        decreases n - i,
    {
        match try_match_a(chars, i) {
            Some(t) => {
                return Some((i, t.4, 1, t.2, t.3, t.0, t.1));
            },
            None => {},
        }
        match try_match_b(chars, i) {
            Some(t) => {
                proof {
                    assert(chars@.subrange(0, 0) =~= Seq::<char>::empty());
                }
                return Some((i, t.2, 2, t.0, t.1, 0, 0));
            },
            None => {},
        }
        i = i + 1;
    }
    None
}

impl TextSpan {
    /// A span from its text and tag.
    pub fn new(text: &str, tag: Tag) -> (r: TextSpan)
        ensures
            r.text@ == text@,
            r.tag == tag,
    {
        TextSpan { text: String::from_str(text), tag }
    }

    /// Split a markup-bearing text into tagged spans: hyperlink and
    /// bold matches found leftmost-first become tagged spans holding
    /// the inner text only, and the text between and after matches
    /// becomes plain spans.
    pub fn extract_spans(p_text: &str) -> (r: Vec<TextSpan>)
        ensures
            r@.map_values(|sp: TextSpan| sp_span_rep(sp)) == sp_spans(p_text@, 0),
    {
        let chars = str_chars(p_text);
        let n = chars.len();
        let mut out: Vec<TextSpan> = Vec::new();
        let mut cur: usize = 0;
        proof {
            assert(out@.map_values(|sp: TextSpan| sp_span_rep(sp)) =~= Seq::<
                (int, Seq<char>, Seq<char>),
            >::empty());
            assert(Seq::<(int, Seq<char>, Seq<char>)>::empty() + sp_spans(p_text@, 0) =~= sp_spans(
                p_text@,
                0,
            ));
        }
        loop
            invariant
                n == chars@.len(),
                chars@ == p_text@,
                cur <= n,
                sp_spans(p_text@, 0) == out@.map_values(|sp: TextSpan| sp_span_rep(sp)) + sp_spans(
                    p_text@,
                    cur as int,
                ),
            decreases n - cur,
        {
            let ghost rep = |sp: TextSpan| sp_span_rep(sp);
            match find_match_at(&chars, cur) {
                None => {
                    if cur < n {
                        let sub = p_text.substring_char(cur, n);
                        let sp = TextSpan {
                            text: String::from_str(sub),
                            tag: Tag::Span,
                        };
                        proof {
                            assert(sp_spans(p_text@, cur as int) =~= seq![
                                (0int, p_text@.subrange(cur as int, n as int), Seq::<
                                    char,
                                >::empty()),
                            ]);
                            assert(out@.push(sp).map_values(|sp: TextSpan| sp_span_rep(sp)) =~= out@
                                .map_values(|sp: TextSpan| sp_span_rep(sp)).push(sp_span_rep(sp)));
                            assert(out@.map_values(|sp: TextSpan| sp_span_rep(sp)).push(
                                sp_span_rep(sp),
                            ) =~= out@.map_values(|sp: TextSpan| sp_span_rep(sp)) + sp_spans(
                                p_text@,
                                cur as int,
                            ));
                        }
                        out.push(sp);
                    } else {
                        proof {
                            assert(sp_spans(p_text@, cur as int) =~= Seq::<
                                (int, Seq<char>, Seq<char>),
                            >::empty());
                            assert(out@.map_values(|sp: TextSpan| sp_span_rep(sp)) + Seq::<
                                (int, Seq<char>, Seq<char>),
                            >::empty() =~= out@.map_values(|sp: TextSpan| sp_span_rep(sp)));
                        }
                    }
                    return out;
                },
                Some(t) => {
                    let ghost m = sp_find_match(p_text@, cur as int)->Some_0;
                    let ghost before = out@;
                    if t.0 > cur {
                        let sub = p_text.substring_char(cur, t.0);
                        let sp = TextSpan {
                            text: String::from_str(sub),
                            tag: Tag::Span,
                        };
                        let ghost gsp = sp;
                        out.push(sp);
                        proof {
                            assert(sp_span_rep(gsp) == (
                                0int,
                                p_text@.subrange(cur as int, t.0 as int),
                                Seq::<char>::empty(),
                            ));
                            assert(out@.map_values(rep) =~= before.map_values(rep).push(
                                sp_span_rep(gsp),
                            ));
                        }
                    }
                    let ghost mid = out@;
                    if t.3 < t.4 {
                        let txt = p_text.substring_char(t.3, t.4);
                        let sp = if t.2 == 1 {
                            let url = p_text.substring_char(t.5, t.6);
                            TextSpan {
                                text: String::from_str(txt),
                                tag: Tag::Link { url: String::from_str(url) },
                            }
                        } else {
                            TextSpan { text: String::from_str(txt), tag: Tag::Bold }
                        };
                        let ghost gsp = sp;
                        out.push(sp);
                        proof {
                            assert(m.2 == t.2 as int);
                            assert(gsp.text@ == p_text@.subrange(t.3 as int, t.4 as int));
                            assert(m.3 == p_text@.subrange(t.3 as int, t.4 as int));
                            assert(m.4 == p_text@.subrange(t.5 as int, t.6 as int));
                            assert(sp_span_rep(gsp) =~= (m.2, m.3, m.4));
                            assert(out@.map_values(rep) =~= mid.map_values(rep).push(
                                sp_span_rep(gsp),
                            ));
                        }
                    }
                    proof {
                        let plain = if m.0 > cur as int {
                            seq![
                                (0int, p_text@.subrange(cur as int, m.0), Seq::<char>::empty()),
                            ]
                        } else {
                            Seq::<(int, Seq<char>, Seq<char>)>::empty()
                        };
                        let tagged = if m.3.len() > 0 {
                            seq![(m.2, m.3, m.4)]
                        } else {
                            Seq::<(int, Seq<char>, Seq<char>)>::empty()
                        };
                        assert(sp_spans(p_text@, cur as int) == (plain + tagged) + sp_spans(
                            p_text@,
                            m.1,
                        ));
                        assert(out@.map_values(rep) =~~= before.map_values(rep) + (plain
                            + tagged));
                        assert(out@.map_values(rep) + sp_spans(p_text@, m.1) =~= before.map_values(
                            rep,
                        ) + ((plain + tagged) + sp_spans(p_text@, m.1)));
                    }
                    cur = t.1;
                },
            }
        }
    }

    /// The number of characters in the span's text.
    pub fn get_length(&self) -> (r: usize)
        ensures
            r as nat == self.text@.len(),
    {
        self.text.as_str().unicode_len()
    }

    /// This span's text, encoded for the content stream.
    pub fn encoded_text(&self) -> (r: Vec<u8>)
        ensures
            r@ == sp_encoded_text(self.text@),
    {
        TextSpan::encode_text(self.text.as_str())
    }

    /// A text as a parenthesised string followed by the text-show
    /// operator.
    pub fn encode_text(text: &str) -> (r: Vec<u8>)
        ensures
            r@ == sp_encoded_text(text@),
    {
        let mut out: Vec<u8> = Vec::new();
        out.push(40);
        let enc = winansi::encode(text);
        out.extend_from_slice(enc.as_slice());
        out.push(41);
        out.push(32);
        out.push(84);
        out.push(106);
        out.push(32);
        proof {
            assert(out@ =~= sp_encoded_text(text@));
        }
        out
    }

    /// The concatenated encodings of all the given spans.
    pub fn encoded_spans(spans: &Vec<TextSpan>) -> (r: Vec<u8>)
        ensures
            r@ == sp_encoded_spans(spans@),
    {
        let mut out: Vec<u8> = Vec::new();
        let mut i: usize = 0;
        proof {
            assert(Seq::new(0, |l: int| sp_encoded_text(spans@[l].text@)).flatten() =~= Seq::<
                u8,
            >::empty());
        }
        while i < spans.len()
            invariant
                i <= spans@.len(),
                out@ == Seq::new(i as nat, |l: int| sp_encoded_text(spans@[l].text@)).flatten(),
            decreases spans@.len() - i,
        {
            let e = spans[i].encoded_text();
            out.extend_from_slice(e.as_slice());
            proof {
                broadcast use Seq::lemma_flatten_push;

                let f = |l: int| sp_encoded_text(spans@[l].text@);
                assert(Seq::new((i + 1) as nat, f) =~= Seq::new(i as nat, f).push(f(i as int)));
            }
            i = i + 1;
        }
        out
    }
}

/// Operator-stream helpers for simple one-line texts.
pub struct Text {}

impl Text {
    /// A bullet glyph as an encoded text-show fragment.
    pub fn get_bullet_text(input: &str) -> (r: Vec<u8>)
        ensures
            r@ == sp_encoded_text(input@),
    {
        TextSpan::encode_text(input)
    }
}

/// Strip hyperlink markup, keeping each link's anchor text.
pub fn extract_links(text: &str) -> (r: String)
    ensures
        r@ == sp_links_removed(text@, 0),
{
    let chars = str_chars(text);
    let n = chars.len();
    let mut out = String::new();
    let mut cur: usize = 0;
    proof {
        assert(Seq::<char>::empty() + sp_links_removed(text@, 0) =~= sp_links_removed(text@, 0));
    }
    loop
        invariant
            n == chars@.len(),
            chars@ == text@,
            cur <= n,
            sp_links_removed(text@, 0) == out@ + sp_links_removed(text@, cur as int),
        decreases n - cur,
    {
        let mut i = cur;
        let mut found: Option<(usize, usize, usize, usize, usize)> = None;
        while i < n && found.is_none()
            invariant
                n == chars@.len(),
                chars@ == text@,
                cur <= i <= n,
                found is None ==> sp_find_link(text@, cur as int) == sp_find_link(
                    text@,
                    i as int,
                ),
                found matches Some(t) ==> ({
                    let m = sp_find_link(text@, cur as int)->Some_0;
                    &&& sp_find_link(text@, cur as int) is Some
                    &&& m.0 == i
                    &&& m.1 == t.4
                    &&& cur <= i < t.4 <= n
                    &&& t.2 <= t.3 <= n
                    &&& m.3 == text@.subrange(t.2 as int, t.3 as int)
                }),
            decreases n - i, (if found is None {
                1int
            } else {
                0int
            }),
        {
            match try_match_a(&chars, i) {
                Some(t) => {
                    found = Some(t);
                },
                None => {
                    i = i + 1;
                },
            }
        }
        match found {
            Some(t) => {
                let ghost m = sp_find_link(text@, cur as int)->Some_0;
                let pre = text.substring_char(cur, i);
                out.append(pre);
                let anchor = text.substring_char(t.2, t.3);
                out.append(anchor);
                proof {
                    assert(sp_links_removed(text@, cur as int) == text@.subrange(
                        cur as int,
                        m.0,
                    ) + m.3 + sp_links_removed(text@, m.1));
                    assert(sp_links_removed(text@, 0) =~= out@ + sp_links_removed(
                        text@,
                        t.4 as int,
                    ));
                }
                cur = t.4;
            },
            None => {
                let rest = text.substring_char(cur, n);
                out.append(rest);
                proof {
                    assert(sp_find_link(text@, cur as int) is None);
                    assert(sp_links_removed(text@, cur as int) == text@.subrange(
                        cur as int,
                        n as int,
                    ));
                }
                return out;
            },
        }
    }
}

} // verus!
