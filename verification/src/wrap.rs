//! Word wrapping of styled text into rows of at most a given number of columns.

use vstd::prelude::*;
use crate::style::{Span, Style, plain, span_v, spans_v};
use crate::text::{chars_of, copy_string, push_char};
use crate::width::{char_width, spec_char_width, spec_str_width, str_width};

verus! {

/// Unicode `White_Space`, as `char::is_whitespace` documents it.
pub open spec fn is_ws(c: char) -> bool {
    let u = c as u32;
    (0x09 <= u && u <= 0x0d) || u == 0x20 || u == 0x85 || u == 0xa0 || u == 0x1680
        || (0x2000 <= u && u <= 0x200a) || u == 0x2028 || u == 0x2029 || u == 0x202f
        || u == 0x205f || u == 0x3000
}

/// Whether `c` is white space in the sense of Unicode's `White_Space` property.
pub fn is_whitespace(c: char) -> (b: bool)
    ensures
        b == is_ws(c),
{
    let u = c as u32;
    (0x09 <= u && u <= 0x0d) || u == 0x20 || u == 0x85 || u == 0xa0 || u == 0x1680
        || (0x2000 <= u && u <= 0x200a) || u == 0x2028 || u == 0x2029 || u == 0x202f
        || u == 0x205f || u == 0x3000
}

/// Every character of `spans`, each with the style of its span.
pub open spec fn spec_to_chars(spans: Seq<(Seq<char>, Style)>) -> Seq<(char, Style)>
    decreases spans.len(),
{
    if spans.len() == 0 {
        Seq::empty()
    } else {
        let sp = spans.last();
        spec_to_chars(spans.drop_last()) + sp.0.map_values(|c: char| (c, sp.1))
    }
}

/// Every character of the spans, each paired with the style of its span.
pub fn to_chars(spans: &[Span]) -> (v: Vec<(char, Style)>)
    ensures
        v@ == spec_to_chars(spans_v(spans@)),
{
    let mut v: Vec<(char, Style)> = Vec::new();
    let mut i: usize = 0;
    while i < spans.len()
        invariant
            i <= spans.len(),
            v@ == spec_to_chars(spans_v(spans@.take(i as int))),
        decreases spans.len() - i,
    {
        let cs = chars_of(spans[i].text.as_str());
        let st = spans[i].style;
        let ghost base = v@;
        let mut j: usize = 0;
        while j < cs.len()
            invariant
                j <= cs.len(),
                v@ == base + cs@.take(j as int).map_values(|c: char| (c, st)),
            decreases cs.len() - j,
        {
            v.push((cs[j], st));
            j += 1;
            assert(v@ == base + cs@.take(j as int).map_values(|c: char| (c, st)));
        }
        assert(cs@.take(j as int) == cs@);
        assert(spans_v(spans@.take(i + 1)).drop_last() == spans_v(spans@.take(i as int)));
        i += 1;
    }
    assert(spans@.take(i as int) == spans@);
    v
}

/// Runs of equal style: newlines dropped, each character appended to the last
/// span when it has the same style, else starting a new span.
pub open spec fn spec_coalesce(chars: Seq<(char, Style)>) -> Seq<(Seq<char>, Style)>
    decreases chars.len(),
{
    if chars.len() == 0 {
        Seq::empty()
    } else {
        let rest = spec_coalesce(chars.drop_last());
        let (c, st) = chars.last();
        if c == '\n' {
            rest
        } else if rest.len() > 0 && rest.last().1 == st {
            rest.update(rest.len() - 1, (rest.last().0.push(c), st))
        } else {
            rest.push((seq![c], st))
        }
    }
}

/// Groups consecutive characters of one style into spans, dropping newlines.
pub fn coalesce(chars: &[(char, Style)]) -> (spans: Vec<Span>)
    ensures
        spans_v(spans@) == spec_coalesce(chars@),
{
    let mut spans: Vec<Span> = Vec::new();
    let mut i: usize = 0;
    while i < chars.len()
        invariant
            i <= chars.len(),
            spans_v(spans@) == spec_coalesce(chars@.take(i as int)),
        decreases chars.len() - i,
    {
        let (c, st) = chars[i];
        assert(chars@.take(i + 1).drop_last() == chars@.take(i as int));
        if c != '\n' {
            let n = spans.len();
            if n > 0 && spans[n - 1].style == st {
                let mut t = copy_string(&spans[n - 1].text);
                push_char(&mut t, c);
                spans.set(n - 1, Span { text: t, style: st });
            } else {
                let mut t = String::new();
                push_char(&mut t, c);
                spans.push(Span { text: t, style: st });
            }
        }
        i += 1;
        assert(spans_v(spans@) == spec_coalesce(chars@.take(i as int)));
    }
    assert(chars@.take(i as int) == chars@);
    spans
}

/// Sum of the column widths of the characters.
pub open spec fn seq_width(cs: Seq<(char, Style)>) -> int
    decreases cs.len(),
{
    if cs.len() == 0 {
        0
    } else {
        seq_width(cs.drop_last()) + spec_char_width(cs.last().0)
    }
}

/// Length of the leading run of non-white-space characters.
pub open spec fn word_len(cs: Seq<(char, Style)>) -> nat
    decreases cs.len(),
{
    if cs.len() == 0 || is_ws(cs[0].0) {
        0
    } else {
        1 + word_len(cs.drop_first())
    }
}

/// The state of the wrapper: finished rows, the row being filled, and its width.
pub type WrapState = (Seq<Seq<(char, Style)>>, Seq<(char, Style)>, int);

/// One character of a word that did not fit: it starts a new row when the current
/// row is non-empty and would grow past `width`.
pub open spec fn break_step(st: WrapState, c: (char, Style), width: int) -> WrapState {
    let cw = spec_char_width(c.0) as int;
    if st.2 + cw > width && st.1.len() > 0 {
        (st.0.push(st.1), seq![c], cw)
    } else {
        (st.0, st.1.push(c), st.2 + cw)
    }
}

/// A word that did not fit, placed character by character.
pub open spec fn break_word(st: WrapState, word: Seq<(char, Style)>, width: int) -> WrapState
    decreases word.len(),
{
    if word.len() == 0 {
        st
    } else {
        break_word(break_step(st, word[0], width), word.drop_first(), width)
    }
}

/// The plain space that separates two words on one row.
pub open spec fn sep_char() -> (char, Style) {
    (' ', plain())
}

/// Places one word: on the current row after a separating space when it fits,
/// else the current row (if any) is finished and the word is broken across rows.
pub open spec fn place_word(st: WrapState, word: Seq<(char, Style)>, width: int) -> WrapState {
    let sep: int = if st.1.len() == 0 { 0 } else { 1 };
    let ww = seq_width(word);
    if st.2 + sep + ww <= width {
        let cur = if sep == 1 { st.1.push(sep_char()) } else { st.1 };
        (st.0, cur + word, st.2 + sep + ww)
    } else {
        let rows = if st.1.len() > 0 { st.0.push(st.1) } else { st.0 };
        break_word((rows, Seq::empty(), 0), word, width)
    }
}

/// `word_len` counts the leading characters up to the first whitespace.
pub proof fn lemma_word_len(cs: Seq<(char, Style)>)
    ensures
        word_len(cs) <= cs.len(),
        cs.len() > 0 && !is_ws(cs[0].0) ==> word_len(cs) >= 1,
        forall|k: int| 0 <= k < word_len(cs) ==> !is_ws(#[trigger] cs[k].0),
        word_len(cs) < cs.len() ==> is_ws(cs[word_len(cs) as int].0),
    decreases cs.len(),
{
    if cs.len() > 0 && !is_ws(cs[0].0) {
        lemma_word_len(cs.drop_first());
        assert forall|k: int| 0 <= k < word_len(cs) implies !is_ws(#[trigger] cs[k].0) by {
            if k > 0 {
                assert(cs[k] == cs.drop_first()[k - 1]);
            }
        }
    }
}

/// Scans the characters: white space is skipped, each maximal word is placed.
pub open spec fn wrap_scan(st: WrapState, cs: Seq<(char, Style)>, width: int) -> WrapState
    decreases cs.len(),
{
    if cs.len() == 0 {
        st
    } else if is_ws(cs[0].0) {
        wrap_scan(st, cs.drop_first(), width)
    } else {
        let wl = word_len(cs);
        proof { lemma_word_len(cs); }
        wrap_scan(place_word(st, cs.take(wl as int), width), cs.skip(wl as int), width)
    }
}

/// The rows of greedy word wrapping at `width` columns (at least 1): words are
/// the maximal runs of non-white-space, joined on a row by one plain space; a word
/// that fits on no row is broken between characters; there is always one row.
pub open spec fn spec_wrap_widths(cs: Seq<(char, Style)>, width: int) -> Seq<Seq<(char, Style)>> {
    let w = if width < 1 { 1 } else { width };
    let st = wrap_scan((Seq::empty(), Seq::empty(), 0), cs, w);
    if st.1.len() > 0 || st.0.len() == 0 { st.0.push(st.1) } else { st.0 }
}

proof fn lemma_seq_width_push(cs: Seq<(char, Style)>, c: (char, Style))
    ensures
        seq_width(cs.push(c)) == seq_width(cs) + spec_char_width(c.0),
{
    assert(cs.push(c).drop_last() == cs);
}

proof fn lemma_seq_width_concat(a: Seq<(char, Style)>, b: Seq<(char, Style)>)
    ensures
        seq_width(a + b) == seq_width(a) + seq_width(b),
    decreases b.len(),
{
    if b.len() > 0 {
        lemma_seq_width_concat(a, b.drop_last());
        assert((a + b).drop_last() == a + b.drop_last());
    } else {
        assert(a + b == a);
    }
}

/// The views of a sequence of rows.
pub open spec fn rows_v(rows: Seq<Vec<(char, Style)>>) -> Seq<Seq<(char, Style)>> {
    rows.map_values(|r: Vec<(char, Style)>| r@)
}

proof fn lemma_rows_v_push(rows: Seq<Vec<(char, Style)>>, r: Vec<(char, Style)>)
    ensures
        rows_v(rows.push(r)) == rows_v(rows).push(r@),
{
    assert(rows_v(rows.push(r)) =~= rows_v(rows).push(r@));
}

proof fn lemma_word_len_exact(cs: Seq<(char, Style)>, k: int)
    requires
        0 <= k <= cs.len(),
        forall|j: int| 0 <= j < k ==> !is_ws(#[trigger] cs[j].0),
        k == cs.len() || is_ws(cs[k].0),
    ensures
        word_len(cs) == k,
    decreases k,
{
    if k > 0 {
        assert forall|j: int| 0 <= j < k - 1 implies !is_ws(#[trigger] cs.drop_first()[j].0) by {
            assert(cs.drop_first()[j] == cs[j + 1]);
        }
        if k < cs.len() {
            assert(cs.drop_first()[k - 1] == cs[k]);
        }
        lemma_word_len_exact(cs.drop_first(), k - 1);
        assert(!is_ws(cs[0].0));
    }
}

fn place_fit(
    rows: &Vec<Vec<(char, Style)>>,
    cur: &mut Vec<(char, Style)>,
    cur_w: u128,
    chars: &[(char, Style)],
    start: usize,
    end: usize,
    word_w: u128,
) -> (new_w: u128)
    requires
        start < end <= chars.len(),
        cur_w == seq_width(old(cur)@),
        word_w == seq_width(chars@.subrange(start as int, end as int)),
        cur_w + (if old(cur)@.len() == 0 { 0int } else { 1int }) + word_w <= usize::MAX,
    ensures
        ({
            let sep: int = if old(cur)@.len() == 0 { 0 } else { 1 };
            let word = chars@.subrange(start as int, end as int);
            &&& final(cur)@ == (if sep == 1 { old(cur)@.push(sep_char()) } else { old(cur)@ }) + word
            &&& new_w == cur_w + sep + word_w
            &&& new_w == seq_width(final(cur)@)
        }),
{
    let ghost word = chars@.subrange(start as int, end as int);
    let mut w = cur_w;
    if cur.len() > 0 {
        proof { lemma_seq_width_push(cur@, sep_char()); }
        cur.push((' ', Style::plain_style()));
        w = w + 1;
    }
    let ghost base = cur@;
    let mut k = start;
    while k < end
        invariant
            start <= k <= end,
            end <= chars.len(),
            cur@ == base + chars@.subrange(start as int, k as int),
        decreases end - k,
    {
        cur.push(chars[k]);
        k += 1;
        assert(cur@ == base + chars@.subrange(start as int, k as int));
    }
    proof { lemma_seq_width_concat(base, word); }
    w + word_w
}

proof fn lemma_break_word_step(st: WrapState, word: Seq<(char, Style)>, k: int, width: int)
    requires
        0 <= k < word.len(),
    ensures
        break_word(st, word.skip(k), width) == break_word(break_step(st, word[k], width), word.skip(k + 1), width),
{
    assert(word.skip(k).drop_first() == word.skip(k + 1));
}

fn place_break(
    rows: &mut Vec<Vec<(char, Style)>>,
    cur: &mut Vec<(char, Style)>,
    chars: &[(char, Style)],
    start: usize,
    end: usize,
    width: usize,
) -> (new_w: u128)
    requires
        start < end <= chars.len(),
        old(cur)@.len() == 0,
    ensures
        (rows_v(final(rows)@), final(cur)@, new_w as int) == break_word(
            (rows_v(old(rows)@), Seq::empty(), 0),
            chars@.subrange(start as int, end as int),
            width as int,
        ),
        new_w <= width + 3,
        new_w == seq_width(final(cur)@),
{
    let ghost word = chars@.subrange(start as int, end as int);
    let ghost init: WrapState = (rows_v(rows@), Seq::empty(), 0);
    let mut ww: u128 = 0;
    let mut k = start;
    assert(word.skip(0) == word);
    assert(cur@ == Seq::<(char, Style)>::empty());
    while k < end
        invariant
            start <= k <= end,
            end <= chars.len(),
            word == chars@.subrange(start as int, end as int),
            break_word((rows_v(rows@), cur@, ww as int), word.skip(k - start), width as int)
                == break_word(init, word, width as int),
            ww <= width + 3,
            ww == seq_width(cur@),
            cur@.len() == 0 ==> ww == 0,
        decreases end - k,
    {
        let c = chars[k];
        let cw = char_width(c.0) as u128;
        proof { lemma_break_word_step((rows_v(rows@), cur@, ww as int), word, k - start, width as int); }
        assert(word[k - start] == c);
        if ww + cw > width as u128 && cur.len() > 0 {
            let mut full = Vec::new();
            std::mem::swap(&mut full, cur);
            proof { lemma_rows_v_push(rows@, full); }
            rows.push(full);
            ww = 0;
        }
        proof { lemma_seq_width_push(cur@, c); }
        cur.push(c);
        ww = ww + cw;
        k += 1;
    }
    assert(word.skip(end - start).len() == 0);
    ww
}

/// Greedy word wrapping at `width` columns (at least 1); see `spec_wrap_widths`.
pub fn wrap_widths(chars: &[(char, Style)], width: usize) -> (rows: Vec<Vec<(char, Style)>>)
    ensures
        rows_v(rows@) == spec_wrap_widths(chars@, width as int),
{
    let w: usize = if width < 1 { 1 } else { width };
    let ghost init: WrapState = (Seq::empty(), Seq::empty(), 0);
    let mut rows: Vec<Vec<(char, Style)>> = Vec::new();
    let mut cur: Vec<(char, Style)> = Vec::new();
    let mut cur_w: u128 = 0;
    let mut i: usize = 0;
    assert(rows_v(rows@) == Seq::<Seq<(char, Style)>>::empty());
    assert(chars@.skip(0) == chars@);
    while i < chars.len()
        invariant
            i <= chars.len(),
            wrap_scan((rows_v(rows@), cur@, cur_w as int), chars@.skip(i as int), w as int)
                == wrap_scan(init, chars@, w as int),
            cur_w <= w + 3,
            cur_w == seq_width(cur@),
            w >= 1,
        decreases chars.len() - i,
    {
        let ghost st: WrapState = (rows_v(rows@), cur@, cur_w as int);
        let start = i;
        let mut word_w: u128 = 0;
        while i < chars.len() && !is_whitespace(chars[i].0)
            invariant
                start <= i <= chars.len(),
                word_w == seq_width(chars@.subrange(start as int, i as int)),
                word_w <= 3 * (i - start),
                forall|j: int| start <= j < i ==> !is_ws(#[trigger] chars@[j].0),
            decreases chars.len() - i,
        {
            let cw = char_width(chars[i].0);
            proof {
                lemma_seq_width_push(chars@.subrange(start as int, i as int), chars@[i as int]);
                assert(chars@.subrange(start as int, i as int).push(chars@[i as int]) == chars@.subrange(start as int, i + 1));
            }
            word_w = word_w + cw as u128;
            i += 1;
        }
        let end = i;
        if end > start {
            let ghost cs = chars@.skip(start as int);
            let ghost word = chars@.subrange(start as int, end as int);
            proof {
                assert forall|j: int| 0 <= j < end - start implies !is_ws(#[trigger] cs[j].0) by {
                    assert(cs[j] == chars@[start + j]);
                }
                if end < chars.len() {
                    assert(cs[end - start] == chars@[end as int]);
                }
                lemma_word_len_exact(cs, end - start);
                assert(cs.take(end - start) == word);
                assert(cs.skip(end - start) == chars@.skip(end as int));
                assert(!is_ws(cs[0].0));
            }
            let sep: u128 = if cur.len() == 0 { 0 } else { 1 };
            if cur_w + sep + word_w <= w as u128 {
                cur_w = place_fit(&rows, &mut cur, cur_w, chars, start, end, word_w);
            } else {
                if cur.len() > 0 {
                    let mut full = Vec::new();
                    std::mem::swap(&mut full, &mut cur);
                    proof { lemma_rows_v_push(rows@, full); }
                    rows.push(full);
                }
                cur_w = place_break(&mut rows, &mut cur, chars, start, end, w);
            }
            assert((rows_v(rows@), cur@, cur_w as int) == place_word(st, word, w as int));
        }
        while i < chars.len() && is_whitespace(chars[i].0)
            invariant
                end <= i <= chars.len(),
                wrap_scan((rows_v(rows@), cur@, cur_w as int), chars@.skip(i as int), w as int)
                    == wrap_scan(init, chars@, w as int),
            decreases chars.len() - i,
        {
            assert(chars@.skip(i as int).drop_first() == chars@.skip(i + 1));
            i += 1;
        }
    }
    if cur.len() > 0 || rows.len() == 0 {
        proof { lemma_rows_v_push(rows@, cur); }
        rows.push(cur);
    }
    rows
}

/// Total columns of the span texts.
pub open spec fn spans_width(spans: Seq<(Seq<char>, Style)>) -> int
    decreases spans.len(),
{
    if spans.len() == 0 {
        0
    } else {
        spans_width(spans.drop_last()) + spec_str_width(spans.last().0)
    }
}

/// Columns that a prefix of spans occupies.
pub fn prefix_width(prefix: &[Span]) -> (w: u128)
    ensures
        w == spans_width(spans_v(prefix@)),
{
    let mut w: u128 = 0;
    let mut i: usize = 0;
    while i < prefix.len()
        invariant
            i <= prefix.len(),
            w == spans_width(spans_v(prefix@.take(i as int))),
            w <= i * 0x1_0000_0000_0000_0000,
        decreases prefix.len() - i,
    {
        let x = str_width(prefix[i].text.as_str());
        assert(spans_v(prefix@.take(i + 1)).drop_last() == spans_v(prefix@.take(i as int)));
        assert(x as int <= 0x1_0000_0000_0000_0000) by {
            assert(usize::MAX < 0x1_0000_0000_0000_0000);
        }
        assert(w + x <= (i + 1) * 0x1_0000_0000_0000_0000) by (nonlinear_arith)
            requires w <= i * 0x1_0000_0000_0000_0000, x <= 0x1_0000_0000_0000_0000;
        assert((i + 1) * 0x1_0000_0000_0000_0000 <= 0x1_0000_0000_0000_0000 * 0x1_0000_0000_0000_0000) by (nonlinear_arith)
            requires i + 1 <= 0x1_0000_0000_0000_0000;
        w = w + x as u128;
        i += 1;
    }
    assert(prefix@.take(i as int) == prefix@);
    w
}

proof fn lemma_spans_v_push(s: Seq<Span>, sp: Span)
    ensures
        spans_v(s.push(sp)) == spans_v(s).push(span_v(sp)),
{
    assert(spans_v(s.push(sp)) =~= spans_v(s).push(span_v(sp)));
}

/// A copy of the spans, with the same texts and styles.
pub fn clone_spans(v: &[Span]) -> (r: Vec<Span>)
    ensures
        spans_v(r@) == spans_v(v@),
{
    let mut r: Vec<Span> = Vec::new();
    let mut i: usize = 0;
    while i < v.len()
        invariant
            i <= v.len(),
            spans_v(r@) == spans_v(v@.take(i as int)),
        decreases v.len() - i,
    {
        let sp = Span { text: copy_string(&v[i].text), style: v[i].style };
        proof {
            lemma_spans_v_push(r@, sp);
            lemma_spans_v_push(v@.take(i as int), v@[i as int]);
            assert(v@.take(i + 1) == v@.take(i as int).push(v@[i as int]));
        }
        r.push(sp);
        i += 1;
    }
    assert(v@.take(i as int) == v@);
    r
}

/// Columns left for content beside a prefix of `pw` columns: at least one.
pub open spec fn budget(width: int, pw: int) -> int {
    if pw < width { width - pw } else { 1 }
}

/// Paragraph layout: the content wrapped to the columns that the wider prefix
/// leaves, each row led by `first` (the first row) or `rest` (later rows).
pub open spec fn spec_wrap_with_prefix(
    content: Seq<(Seq<char>, Style)>,
    first: Seq<(Seq<char>, Style)>,
    rest: Seq<(Seq<char>, Style)>,
    width: int,
) -> Seq<Seq<(Seq<char>, Style)>> {
    let pw = vstd::math::max(spans_width(first), spans_width(rest));
    let rows = spec_wrap_widths(spec_to_chars(content), budget(width, pw));
    Seq::new(rows.len(), |i: int| (if i == 0 { first } else { rest }) + spec_coalesce(rows[i]))
}

/// The views of a sequence of span rows.
pub open spec fn span_rows_v(rows: Seq<Vec<Span>>) -> Seq<Seq<(Seq<char>, Style)>> {
    rows.map_values(|r: Vec<Span>| spans_v(r@))
}


/// Wraps `content` beside the prefixes; see `spec_wrap_with_prefix`.
pub fn wrap_with_prefix(content: &[Span], first: &[Span], rest: &[Span], width: usize) -> (out: Vec<Vec<Span>>)
    ensures
        span_rows_v(out@) == spec_wrap_with_prefix(spans_v(content@), spans_v(first@), spans_v(rest@), width as int),
{
    let pf = prefix_width(first);
    let pr = prefix_width(rest);
    let pw = if pf >= pr { pf } else { pr };
    let b: usize = if pw < width as u128 { (width as u128 - pw) as usize } else { 1 };
    let chars = to_chars(content);
    let rows = wrap_widths(&chars, b);
    let ghost srows = spec_wrap_widths(spec_to_chars(spans_v(content@)), budget(width as int, pw as int));
    assert(rows_v(rows@) == srows);
    let mut out: Vec<Vec<Span>> = Vec::new();
    let mut idx: usize = 0;
    while idx < rows.len()
        invariant
            idx <= rows.len(),
            rows_v(rows@) == srows,
            span_rows_v(out@) == Seq::new(idx as nat, |i: int| (if i == 0 { spans_v(first@) } else { spans_v(rest@) }) + spec_coalesce(srows[i])),
        decreases rows.len() - idx,
    {
        let mut spans = if idx == 0 { clone_spans(first) } else { clone_spans(rest) };
        let tail = coalesce(rows[idx].as_slice());
        assert(rows[idx as int]@ == srows[idx as int]);
        let ghost head = spans_v(spans@);
        let mut k: usize = 0;
        while k < tail.len()
            invariant
                k <= tail.len(),
                spans_v(spans@) == head + spans_v(tail@.take(k as int)),
            decreases tail.len() - k,
        {
            let sp = Span { text: copy_string(&tail[k].text), style: tail[k].style };
            proof {
                lemma_spans_v_push(spans@, sp);
                lemma_spans_v_push(tail@.take(k as int), tail@[k as int]);
                assert(tail@.take(k + 1) == tail@.take(k as int).push(tail@[k as int]));
            }
            spans.push(sp);
            k += 1;
        }
        proof {
            assert(tail@.take(k as int) == tail@);
        }
        let ghost row_spans = spans_v(spans@);
        let ghost old_out = out@;
        let ghost pushed = spans;
        out.push(spans);
        assert(out@ == old_out.push(pushed));
        assert(span_rows_v(out@) =~= span_rows_v(old_out).push(row_spans));
        assert(row_spans == (if idx == 0 { spans_v(first@) } else { spans_v(rest@) }) + spec_coalesce(srows[idx as int]));
        idx += 1;
        assert(span_rows_v(out@) =~= Seq::new(idx as nat, |i: int| (if i == 0 { spans_v(first@) } else { spans_v(rest@) }) + spec_coalesce(srows[i])));
    }
    out
}

} // verus!
