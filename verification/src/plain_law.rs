//! Without colors, rendering writes no escape character of its own: if no text
//! in the events holds one, no output line does.

use vstd::prelude::*;
use crate::markdown::{ColumnAlign, MdEvent, MdTag, MdTagEnd};
use crate::render_spec::{
    RView, initial_view, is_block_tag, spec_emit_code_block, spec_emit_current, spec_emit_heading,
    code_lines, spec_emit_table, spec_end, spec_event, spec_finish, spec_next_item, spec_open_block, spec_pop_style,
    spec_prefixes, spec_push_blank, spec_push_part, spec_push_style, spec_push_text, spec_render_events,
    spec_rule, spec_run, spec_start, spec_start_tag, spec_table_event, stable_line,
};
use crate::style::{Style, spans_text};
use crate::table::{
    align_at, cell_segment, border_cols, border_line, cell_at, split_pad, cell_pad, col_widths, row_cols, row_line, spec_quote_prefix,
    spec_table_lines, table_ncols,
};
use crate::text::{decimal, digit_char, find_char, lemma_find_char, spec_repeat, split_on};
use crate::wrap::{
    WrapState, break_step, break_word, is_ws, lemma_word_len, place_word, sep_char, spec_coalesce,
    spec_to_chars, spec_wrap_widths, spec_wrap_with_prefix, word_len, wrap_scan,
};

verus! {

/// No character is ESC.
pub open spec fn no_esc(s: Seq<char>) -> bool {
    forall|i: int| 0 <= i < s.len() ==> s[i] != '\u{1b}'
}

/// No span text holds ESC.
pub open spec fn spans_no_esc(sp: Seq<(Seq<char>, Style)>) -> bool {
    forall|i: int| 0 <= i < sp.len() ==> no_esc(#[trigger] sp[i].0)
}

/// No character is ESC.
pub open spec fn cs_no_esc(cs: Seq<(char, Style)>) -> bool {
    forall|i: int| 0 <= i < cs.len() ==> (#[trigger] cs[i]).0 != '\u{1b}'
}

/// No text carried by the event holds ESC.
pub open spec fn event_no_esc(ev: MdEvent) -> bool {
    match ev {
        MdEvent::Text(t) | MdEvent::Code(t) | MdEvent::Html(t) | MdEvent::InlineHtml(t) => no_esc(t@),
        MdEvent::Start(MdTag::Link(u)) => no_esc(u@),
        _ => true,
    }
}

proof fn lemma_concat(a: Seq<char>, b: Seq<char>)
    requires
        no_esc(a),
        no_esc(b),
    ensures
        no_esc(a + b),
{
    assert forall|i: int| 0 <= i < (a + b).len() implies (a + b)[i] != '\u{1b}' by {
        if i < a.len() {
            assert((a + b)[i] == a[i]);
        } else {
            assert((a + b)[i] == b[i - a.len()]);
        }
    }
}

proof fn lemma_repeat(c: char, n: nat)
    requires
        c != '\u{1b}',
    ensures
        no_esc(spec_repeat(c, n)),
{
}


proof fn lemma_spans_concat(a: Seq<(Seq<char>, Style)>, b: Seq<(Seq<char>, Style)>)
    requires
        spans_no_esc(a),
        spans_no_esc(b),
    ensures
        spans_no_esc(a + b),
{
    assert forall|i: int| 0 <= i < (a + b).len() implies no_esc(#[trigger] (a + b)[i].0) by {
        if i < a.len() {
            assert((a + b)[i] == a[i]);
        } else {
            assert((a + b)[i] == b[i - a.len()]);
        }
    }
}

proof fn lemma_spans_text(sp: Seq<(Seq<char>, Style)>)
    requires
        spans_no_esc(sp),
    ensures
        no_esc(spans_text(sp)),
    decreases sp.len(),
{
    if sp.len() > 0 {
        assert forall|i: int| 0 <= i < sp.drop_first().len() implies no_esc(#[trigger] sp.drop_first()[i].0) by {
            assert(sp.drop_first()[i] == sp[i + 1]);
        }
        lemma_spans_text(sp.drop_first());
        assert(no_esc(sp[0].0));
        lemma_concat(sp[0].0, spans_text(sp.drop_first()));
    }
}

proof fn lemma_quote_prefix(d: nat)
    ensures
        no_esc(spec_quote_prefix(d)),
    decreases d,
{
    if d > 0 {
        lemma_quote_prefix((d - 1) as nat);
        lemma_concat(spec_quote_prefix((d - 1) as nat), seq!['│', ' ']);
    }
}

proof fn lemma_decimal(n: nat)
    ensures
        no_esc(decimal(n)),
    decreases n,
{
    if n >= 10 {
        lemma_decimal(n / 10);
        let d = (n % 10) as int;
        assert(digit_char(d) != '\u{1b}');
        assert(decimal(n) == decimal(n / 10).push(digit_char(d)));
        assert forall|i: int| 0 <= i < decimal(n).len() implies decimal(n)[i] != '\u{1b}' by {
            if i < decimal(n / 10).len() {
                assert(decimal(n)[i] == decimal(n / 10)[i]);
            }
        }
    } else {
        assert(digit_char(n as int) != '\u{1b}');
    }
}

proof fn lemma_to_chars(sp: Seq<(Seq<char>, Style)>)
    requires
        spans_no_esc(sp),
    ensures
        cs_no_esc(spec_to_chars(sp)),
    decreases sp.len(),
{
    if sp.len() > 0 {
        let last = sp.last();
        assert forall|i: int| 0 <= i < sp.drop_last().len() implies no_esc(#[trigger] sp.drop_last()[i].0) by {
            assert(sp.drop_last()[i] == sp[i]);
        }
        lemma_to_chars(sp.drop_last());
        assert(no_esc(sp[sp.len() - 1].0));
        let a = spec_to_chars(sp.drop_last());
        let b = last.0.map_values(|c: char| (c, last.1));
        assert forall|i: int| 0 <= i < (a + b).len() implies (#[trigger] (a + b)[i]).0 != '\u{1b}' by {
            if i < a.len() {
                assert((a + b)[i] == a[i]);
            } else {
                assert((a + b)[i] == b[i - a.len()]);
            }
        }
    }
}

proof fn lemma_coalesce(cs: Seq<(char, Style)>)
    requires
        cs_no_esc(cs),
    ensures
        spans_no_esc(spec_coalesce(cs)),
    decreases cs.len(),
{
    if cs.len() > 0 {
        assert forall|i: int| 0 <= i < cs.drop_last().len() implies (#[trigger] cs.drop_last()[i]).0 != '\u{1b}' by {
            assert(cs.drop_last()[i] == cs[i]);
        }
        lemma_coalesce(cs.drop_last());
        let rest = spec_coalesce(cs.drop_last());
        let (c, st) = cs.last();
        assert(c != '\u{1b}') by { assert(cs[cs.len() - 1] == cs.last()); }
        let r = spec_coalesce(cs);
        if c != '\n' {
            if rest.len() > 0 && rest.last().1 == st {
                assert(no_esc(rest[rest.len() - 1].0));
                assert forall|i: int| 0 <= i < r.len() implies no_esc(#[trigger] r[i].0) by {
                    if i == rest.len() - 1 {
                        assert(r[i].0 == rest.last().0.push(c));
                        assert forall|j: int| 0 <= j < r[i].0.len() implies r[i].0[j] != '\u{1b}' by {
                            if j < rest.last().0.len() {
                                assert(r[i].0[j] == rest.last().0[j]);
                            }
                        }
                    } else {
                        assert(r[i] == rest[i]);
                    }
                }
            } else {
                assert forall|i: int| 0 <= i < r.len() implies no_esc(#[trigger] r[i].0) by {
                    if i < rest.len() {
                        assert(r[i] == rest[i]);
                    }
                }
            }
        }
    }
}

spec fn st_ok(st: WrapState) -> bool {
    &&& cs_no_esc(st.1)
    &&& forall|i: int| 0 <= i < st.0.len() ==> cs_no_esc(#[trigger] st.0[i])
}

proof fn lemma_cs_push(cs: Seq<(char, Style)>, c: (char, Style))
    requires
        cs_no_esc(cs),
        c.0 != '\u{1b}',
    ensures
        cs_no_esc(cs.push(c)),
{
    assert forall|i: int| 0 <= i < cs.push(c).len() implies (#[trigger] cs.push(c)[i]).0 != '\u{1b}' by {
        if i < cs.len() {
            assert(cs.push(c)[i] == cs[i]);
        }
    }
}

proof fn lemma_cs_concat(a: Seq<(char, Style)>, b: Seq<(char, Style)>)
    requires
        cs_no_esc(a),
        cs_no_esc(b),
    ensures
        cs_no_esc(a + b),
{
    assert forall|i: int| 0 <= i < (a + b).len() implies (#[trigger] (a + b)[i]).0 != '\u{1b}' by {
        if i < a.len() {
            assert((a + b)[i] == a[i]);
        } else {
            assert((a + b)[i] == b[i - a.len()]);
        }
    }
}

proof fn lemma_rows_push(rows: Seq<Seq<(char, Style)>>, r: Seq<(char, Style)>)
    requires
        forall|i: int| 0 <= i < rows.len() ==> cs_no_esc(#[trigger] rows[i]),
        cs_no_esc(r),
    ensures
        forall|i: int| 0 <= i < rows.push(r).len() ==> cs_no_esc(#[trigger] rows.push(r)[i]),
{
    assert forall|i: int| 0 <= i < rows.push(r).len() implies cs_no_esc(#[trigger] rows.push(r)[i]) by {
        if i < rows.len() {
            assert(rows.push(r)[i] == rows[i]);
        }
    }
}

proof fn lemma_break_word_ok(st: WrapState, word: Seq<(char, Style)>, width: int)
    requires
        st_ok(st),
        cs_no_esc(word),
    ensures
        st_ok(break_word(st, word, width)),
    decreases word.len(),
{
    if word.len() > 0 {
        let c = word[0];
        let s1 = break_step(st, c, width);
        let cw = crate::width::spec_char_width(c.0) as int;
        if st.2 + cw > width && st.1.len() > 0 {
            lemma_rows_push(st.0, st.1);
            assert(cs_no_esc(seq![c]));
        } else {
            lemma_cs_push(st.1, c);
        }
        assert forall|i: int| 0 <= i < word.drop_first().len() implies (#[trigger] word.drop_first()[i]).0 != '\u{1b}' by {
            assert(word.drop_first()[i] == word[i + 1]);
        }
        lemma_break_word_ok(s1, word.drop_first(), width);
    }
}

proof fn lemma_place_word_ok(st: WrapState, word: Seq<(char, Style)>, width: int)
    requires
        st_ok(st),
        cs_no_esc(word),
    ensures
        st_ok(place_word(st, word, width)),
{
    let sep: int = if st.1.len() == 0 { 0 } else { 1 };
    if st.2 + sep + crate::wrap::seq_width(word) <= width {
        let cur = if sep == 1 { st.1.push(sep_char()) } else { st.1 };
        if sep == 1 {
            lemma_cs_push(st.1, sep_char());
        }
        lemma_cs_concat(cur, word);
    } else {
        let rows = if st.1.len() > 0 { st.0.push(st.1) } else { st.0 };
        if st.1.len() > 0 {
            lemma_rows_push(st.0, st.1);
        }
        lemma_break_word_ok((rows, Seq::empty(), 0), word, width);
    }
}

proof fn lemma_wrap_scan_ok(st: WrapState, cs: Seq<(char, Style)>, width: int)
    requires
        st_ok(st),
        cs_no_esc(cs),
    ensures
        st_ok(wrap_scan(st, cs, width)),
    decreases cs.len(),
{
    if cs.len() > 0 {
        if is_ws(cs[0].0) {
            assert forall|i: int| 0 <= i < cs.drop_first().len() implies (#[trigger] cs.drop_first()[i]).0 != '\u{1b}' by {
                assert(cs.drop_first()[i] == cs[i + 1]);
            }
            lemma_wrap_scan_ok(st, cs.drop_first(), width);
        } else {
            let wl = word_len(cs);
            lemma_word_len(cs);
            let w = cs.take(wl as int);
            let r = cs.skip(wl as int);
            assert forall|i: int| 0 <= i < w.len() implies (#[trigger] w[i]).0 != '\u{1b}' by {
                assert(w[i] == cs[i]);
            }
            assert forall|i: int| 0 <= i < r.len() implies (#[trigger] r[i]).0 != '\u{1b}' by {
                assert(r[i] == cs[i + wl]);
            }
            lemma_place_word_ok(st, w, width);
            lemma_wrap_scan_ok(place_word(st, w, width), r, width);
        }
    }
}

proof fn lemma_wrap_ok(cs: Seq<(char, Style)>, width: int)
    requires
        cs_no_esc(cs),
    ensures
        forall|i: int| 0 <= i < spec_wrap_widths(cs, width).len() ==> cs_no_esc(#[trigger] spec_wrap_widths(cs, width)[i]),
{
    let w = if width < 1 { 1 } else { width };
    let init: WrapState = (Seq::empty(), Seq::empty(), 0);
    lemma_wrap_scan_ok(init, cs, w);
    let st = wrap_scan(init, cs, w);
    if st.1.len() > 0 || st.0.len() == 0 {
        lemma_rows_push(st.0, st.1);
    }
}

proof fn lemma_wrap_with_prefix_ok(
    content: Seq<(Seq<char>, Style)>,
    first: Seq<(Seq<char>, Style)>,
    rest: Seq<(Seq<char>, Style)>,
    width: int,
)
    requires
        spans_no_esc(content),
        spans_no_esc(first),
        spans_no_esc(rest),
    ensures
        forall|i: int| 0 <= i < spec_wrap_with_prefix(content, first, rest, width).len()
            ==> spans_no_esc(#[trigger] spec_wrap_with_prefix(content, first, rest, width)[i]),
{
    let pw = vstd::math::max(crate::wrap::spans_width(first), crate::wrap::spans_width(rest));
    let cs = spec_to_chars(content);
    lemma_to_chars(content);
    let rows = spec_wrap_widths(cs, crate::wrap::budget(width, pw));
    lemma_wrap_ok(cs, crate::wrap::budget(width, pw));
    let out = spec_wrap_with_prefix(content, first, rest, width);
    assert forall|i: int| 0 <= i < out.len() implies spans_no_esc(#[trigger] out[i]) by {
        lemma_coalesce(rows[i]);
        lemma_spans_concat(if i == 0 { first } else { rest }, spec_coalesce(rows[i]));
    }
}

/// The renderer's state holds no ESC in any text.
pub open spec fn view_no_esc(s: RView) -> bool {
    &&& forall|i: int| 0 <= i < s.out.len() ==> no_esc(#[trigger] s.out[i].0)
    &&& spans_no_esc(s.cur)
    &&& no_esc(s.code_buf)
    &&& forall|i: int| 0 <= i < s.list_stack.len() ==> no_esc(#[trigger] s.list_stack[i].2)
    &&& forall|i: int| 0 <= i < s.link_stack.len() ==> no_esc(#[trigger] s.link_stack[i])
    &&& match s.table {
        None => true,
        Some(t) => {
            &&& forall|r: int, c: int| 0 <= r < t.1.len() && 0 <= c < t.1[r].len() ==> no_esc(#[trigger] t.1[r][c])
            &&& forall|c: int| 0 <= c < t.2.len() ==> no_esc(#[trigger] t.2[c])
            &&& no_esc(t.3)
        },
    }
}

proof fn lemma_out_append(s: RView, m: Seq<(Seq<char>, bool)>)
    requires
        forall|i: int| 0 <= i < s.out.len() ==> no_esc(#[trigger] s.out[i].0),
        forall|i: int| 0 <= i < m.len() ==> no_esc(#[trigger] m[i].0),
    ensures
        forall|i: int| 0 <= i < (s.out + m).len() ==> no_esc(#[trigger] (s.out + m)[i].0),
{
    assert forall|i: int| 0 <= i < (s.out + m).len() implies no_esc(#[trigger] (s.out + m)[i].0) by {
        if i < s.out.len() {
            assert((s.out + m)[i] == s.out[i]);
        } else {
            assert((s.out + m)[i] == m[i - s.out.len()]);
        }
    }
}

proof fn lemma_prefixes_ok(s: RView)
    requires
        view_no_esc(s),
    ensures
        spans_no_esc(spec_prefixes(s).0),
        spans_no_esc(spec_prefixes(s).1),
{
    lemma_quote_prefix(s.quote_depth as nat);
    if s.list_stack.len() > 0 {
        assert(no_esc(s.list_stack[s.list_stack.len() - 1].2));
        lemma_repeat(' ', (2 * (s.list_stack.len() - 1)) as nat);
        lemma_repeat(' ', crate::width::spec_str_width(s.list_stack.last().2));
    }
    let (f, c) = spec_prefixes(s);
    assert forall|i: int| 0 <= i < f.len() implies no_esc(#[trigger] f[i].0) by {}
    assert forall|i: int| 0 <= i < c.len() implies no_esc(#[trigger] c[i].0) by {}
}

proof fn lemma_emit_current_ok(s: RView, width: int)
    requires
        view_no_esc(s),
    ensures
        view_no_esc(spec_emit_current(s, false, width)),
{
    if s.cur.len() > 0 {
        lemma_prefixes_ok(s);
        let (f, c) = spec_prefixes(s);
        let rows = spec_wrap_with_prefix(s.cur, f, c, width);
        lemma_wrap_with_prefix_ok(s.cur, f, c, width);
        let m = rows.map_values(|r: Seq<(Seq<char>, Style)>| stable_line(r, false));
        assert forall|i: int| 0 <= i < m.len() implies no_esc(#[trigger] m[i].0) by {
            lemma_spans_text(rows[i]);
        }
        lemma_out_append(s, m);
    }
}

proof fn lemma_push_text_ok(s: RView, text: Seq<char>, st: Style, width: int)
    requires
        view_no_esc(s),
        no_esc(text),
    ensures
        view_no_esc(spec_push_text(s, text, st, false, width)),
    decreases text.len(),
{
    match find_char(text, '\n') {
        None => {
            if text.len() > 0 {
                let r = spec_push_part(s, text, st);
                assert forall|i: int| 0 <= i < r.cur.len() implies no_esc(#[trigger] r.cur[i].0) by {
                    if i < s.cur.len() {
                        assert(r.cur[i] == s.cur[i]);
                    }
                }
            }
        },
        Some(k) => {
            lemma_find_char(text, '\n');
            let part = text.take(k);
            let s1 = spec_push_part(s, part, st);
            assert forall|i: int| 0 <= i < s1.cur.len() implies no_esc(#[trigger] s1.cur[i].0) by {
                if i < s.cur.len() {
                    assert(s1.cur[i] == s.cur[i]);
                }
            }
            lemma_emit_current_ok(s1, width);
            lemma_push_text_ok(spec_emit_current(s1, false, width), text.skip(k + 1), st, width);
        },
    }
}

proof fn lemma_push_blank_ok(s: RView)
    requires
        view_no_esc(s),
    ensures
        view_no_esc(spec_open_block(s)),
{
    let b = spec_push_blank(s);
    assert forall|i: int| 0 <= i < b.out.len() implies no_esc(#[trigger] b.out[i].0) by {
        if i < s.out.len() {
            assert(b.out[i] == s.out[i]);
        }
    }
}


proof fn lemma_heading_ok(s: RView, width: int)
    requires
        view_no_esc(s),
    ensures
        view_no_esc(spec_emit_heading(s, false, width)),
{
    let content = s.cur;
    let s1 = RView { cur: Seq::empty(), ..s };
    if content.len() > 0 {
        lemma_prefixes_ok(s1);
        let (f, c) = spec_prefixes(s1);
        let rows = spec_wrap_with_prefix(content, f, c, width);
        lemma_wrap_with_prefix_ok(content, f, c, width);
        let m = rows.map_values(|r: Seq<(Seq<char>, Style)>| stable_line(r, false));
        assert forall|i: int| 0 <= i < m.len() implies no_esc(#[trigger] m[i].0) by {
            lemma_spans_text(rows[i]);
        }
        lemma_out_append(s1, m);
        let out1 = s1.out + m;
        let r = spec_emit_heading(s, false, width);
        assert forall|i: int| 0 <= i < r.out.len() implies no_esc(#[trigger] r.out[i].0) by {
            if i < out1.len() {
                assert(r.out[i] == out1[i]);
            } else {
                let ch = crate::render_spec::underline_char(s1.heading_level->0)->0;
                let pw = vstd::math::max(crate::wrap::spans_width(f), crate::wrap::spans_width(c));
                let room = if width > pw { width - pw } else { 0 };
                let w = vstd::math::max(1, vstd::math::min(crate::wrap::spans_width(content), room));
                let sp = c.push((spec_repeat(ch, w as nat), crate::style::dim_style()));
                lemma_repeat(ch, w as nat);
                lemma_spans_concat(c, seq![(spec_repeat(ch, w as nat), crate::style::dim_style())]);
                assert(sp == c + seq![(spec_repeat(ch, w as nat), crate::style::dim_style())]);
                lemma_spans_text(sp);
            }
        }
    }
}

proof fn lemma_split_on_ok(s: Seq<char>)
    requires
        no_esc(s),
    ensures
        forall|i: int| 0 <= i < split_on(s, '\n').len() ==> no_esc(#[trigger] split_on(s, '\n')[i]),
    decreases s.len(),
{
    match find_char(s, '\n') {
        None => {},
        Some(k) => {
            lemma_find_char(s, '\n');
            lemma_split_on_ok(s.skip(k + 1));
            let r = split_on(s, '\n');
            assert forall|i: int| 0 <= i < r.len() implies no_esc(#[trigger] r[i]) by {
                if i > 0 {
                    assert(r[i] == split_on(s.skip(k + 1), '\n')[i - 1]);
                }
            }
        },
    }
}

proof fn lemma_code_block_ok(s: RView, hl: Option<Seq<char>>)
    requires
        view_no_esc(s),
    ensures
        view_no_esc(spec_emit_code_block(s, false, hl)),
{
    let code = s.code_buf;
    if code.len() > 0 {
        let pad = spec_quote_prefix(s.quote_depth as nat) + seq![' ', ' ', ' ', ' '];
        lemma_quote_prefix(s.quote_depth as nat);
        lemma_concat(spec_quote_prefix(s.quote_depth as nat), seq![' ', ' ', ' ', ' ']);
        let body = if code.last() == '\n' { code.drop_last() } else { code };
        lemma_split_on_ok(body);
        assert(code_lines(s, false, hl) == split_on(body, '\n'));
        let m = split_on(body, '\n').map_values(|l: Seq<char>| (pad + l, false));
        assert forall|i: int| 0 <= i < m.len() implies no_esc(#[trigger] m[i].0) by {
            lemma_concat(pad, split_on(body, '\n')[i]);
        }
        lemma_out_append(RView { code_buf: Seq::empty(), code_lang: None, ..s }, m);
    }
}

proof fn lemma_border_ok(q: Seq<char>, widths: Seq<nat>, k: int, m: char, r: char)
    requires
        no_esc(q),
        m != '\u{1b}',
        r != '\u{1b}',
    ensures
        no_esc(border_cols(widths, k, m, r)),
    decreases k,
{
    if k > 0 {
        lemma_border_ok(q, widths, k - 1, m, r);
        lemma_concat(border_cols(widths, k - 1, m, r), spec_repeat('─', widths[k - 1] + 2));
        lemma_concat(border_cols(widths, k - 1, m, r) + spec_repeat('─', widths[k - 1] + 2), seq![if k < widths.len() { m } else { r }]);
    }
}

proof fn lemma_row_cols_ok(row: Seq<Seq<char>>, widths: Seq<nat>, aligns: Seq<ColumnAlign>, k: int)
    requires
        forall|c: int| 0 <= c < row.len() ==> no_esc(#[trigger] row[c]),
    ensures
        no_esc(row_cols(row, widths, aligns, k)),
    decreases k,
{
    if k > 0 {
        lemma_row_cols_ok(row, widths, aligns, k - 1);
        let cell = cell_at(row, k - 1);
        assert(no_esc(cell));
        let (lp, rp) = split_pad(align_at(aligns, k - 1), cell_pad(cell, widths[k - 1]));
        let a = seq![' '];
        lemma_concat(a, spec_repeat(' ', lp));
        lemma_concat(a + spec_repeat(' ', lp), cell);
        lemma_concat(a + spec_repeat(' ', lp) + cell, spec_repeat(' ', rp));
        lemma_concat(a + spec_repeat(' ', lp) + cell + spec_repeat(' ', rp), seq![' ', '│']);
        lemma_concat(row_cols(row, widths, aligns, k - 1), cell_segment(cell, widths[k - 1], align_at(aligns, k - 1)));
    }
}

proof fn lemma_table_lines_ok(n: Seq<ColumnAlign>, rows: Seq<Seq<Seq<char>>>, qd: nat)
    requires
        forall|r: int, c: int| 0 <= r < rows.len() && 0 <= c < rows[r].len() ==> no_esc(#[trigger] rows[r][c]),
    ensures
        forall|i: int| 0 <= i < spec_table_lines(n, rows, qd).len() ==> no_esc(#[trigger] spec_table_lines(n, rows, qd)[i]),
{
    let nc = table_ncols(n.len(), rows);
    let widths = col_widths(rows, nc);
    let q = spec_quote_prefix(qd);
    lemma_quote_prefix(qd);
    let lines = spec_table_lines(n, rows, qd);
    assert forall|l: char, m: char, r: char| l != '\u{1b}' && m != '\u{1b}' && r != '\u{1b}'
        implies no_esc(#[trigger] border_line(q, widths, l, m, r)) by {
        lemma_border_ok(q, widths, widths.len() as int, m, r);
        lemma_concat(q, seq![l]);
        lemma_concat(q + seq![l], border_cols(widths, widths.len() as int, m, r));
    }
    assert forall|j: int| 0 <= j < rows.len() implies no_esc(#[trigger] row_line(q, rows[j], widths, n)) by {
        assert forall|c: int| 0 <= c < rows[j].len() implies no_esc(#[trigger] rows[j][c]) by {}
        lemma_row_cols_ok(rows[j], widths, n, widths.len() as int);
        lemma_concat(q, seq!['│']);
        lemma_concat(q + seq!['│'], row_cols(rows[j], widths, n, widths.len() as int));
    }
    if nc > 0 {
        assert(no_esc(border_line(q, widths, '┌', '┬', '┐')));
        assert(no_esc(border_line(q, widths, '├', '┼', '┤')));
        assert(no_esc(border_line(q, widths, '└', '┴', '┘')));
        let head: Seq<Seq<char>> = seq![border_line(q, widths, '┌', '┬', '┐')]
            + (if rows.len() > 0 {
                seq![row_line(q, rows[0], widths, n), border_line(q, widths, '├', '┼', '┤')]
            } else {
                Seq::empty()
            });
        let body = Seq::new((if rows.len() > 0 { rows.len() - 1 } else { 0 }) as nat, |j: int| row_line(q, rows[j + 1], widths, n));
        assert(lines == head + body + seq![border_line(q, widths, '└', '┴', '┘')]);
        assert forall|i: int| 0 <= i < lines.len() implies no_esc(#[trigger] lines[i]) by {
            if i < head.len() {
                assert(lines[i] == head[i]);
            } else if i < head.len() + body.len() {
                assert(lines[i] == body[i - head.len()]);
                assert(no_esc(row_line(q, rows[i - head.len() + 1], widths, n)));
            } else {
                assert(lines[i] == border_line(q, widths, '└', '┴', '┘'));
            }
        }
    }
}

proof fn lemma_emit_table_ok(s: RView)
    requires
        view_no_esc(s),
    ensures
        view_no_esc(spec_emit_table(s)),
{
    match s.table {
        None => {},
        Some(t) => {
            lemma_table_lines_ok(t.0, t.1, s.quote_depth as nat);
            let m = spec_table_lines(t.0, t.1, s.quote_depth as nat).map_values(|l: Seq<char>| (l, false));
            assert forall|i: int| 0 <= i < m.len() implies no_esc(#[trigger] m[i].0) by {}
            lemma_out_append(s, m);
        },
    }
}

proof fn lemma_start_tag_ok(s: RView, tag: MdTag)
    requires
        view_no_esc(s),
        event_no_esc(MdEvent::Start(tag)),
    ensures
        view_no_esc(spec_start_tag(s, tag)),
{
    let r = spec_start_tag(s, tag);
    match tag {
        MdTag::Heading(n) => {
            if n >= 3 {
                let s1 = spec_push_style(s, Style { bold: true, ..s.style });
                lemma_repeat('#', n as nat);
                lemma_concat(spec_repeat('#', n as nat), seq![' ']);
                assert(spec_repeat('#', n as nat).push(' ') == spec_repeat('#', n as nat) + seq![' ']);
                assert forall|i: int| 0 <= i < r.cur.len() implies no_esc(#[trigger] r.cur[i].0) by {
                    if i < s.cur.len() {
                        assert(r.cur[i] == s.cur[i]);
                    }
                }
            }
        },
        MdTag::List(_) => {
            assert forall|i: int| 0 <= i < r.list_stack.len() implies no_esc(#[trigger] r.list_stack[i].2) by {
                if i < s.list_stack.len() {
                    assert(r.list_stack[i] == s.list_stack[i]);
                }
            }
        },
        MdTag::Item => {
            if s.list_stack.len() > 0 {
                let ctx = s.list_stack.last();
                assert(no_esc(s.list_stack[s.list_stack.len() - 1].2));
                lemma_decimal(ctx.1 as nat);
                lemma_concat(decimal(ctx.1 as nat), seq!['.', ' ']);
                assert(no_esc(spec_next_item(ctx).2));
                assert forall|i: int| 0 <= i < r.list_stack.len() implies no_esc(#[trigger] r.list_stack[i].2) by {
                    if i < s.list_stack.len() - 1 {
                        assert(r.list_stack[i] == s.list_stack[i]);
                    }
                }
            }
        },
        MdTag::Link(url) => {
            assert forall|i: int| 0 <= i < r.link_stack.len() implies no_esc(#[trigger] r.link_stack[i]) by {
                if i < s.link_stack.len() {
                    assert(r.link_stack[i] == s.link_stack[i]);
                }
            }
        },
        _ => {},
    }
}

proof fn lemma_start_ok(s: RView, tag: MdTag, width: int)
    requires
        view_no_esc(s),
        event_no_esc(MdEvent::Start(tag)),
    ensures
        view_no_esc(spec_start(s, tag, false, width)),
{
    let s1 = if is_block_tag(tag) { spec_emit_current(s, false, width) } else { s };
    if is_block_tag(tag) {
        lemma_emit_current_ok(s, width);
    }
    lemma_push_blank_ok(s1);
    let s2 = spec_open_block(s1);
    lemma_start_tag_ok(RView { depth: s2.depth + 1, ..s2 }, tag);
}

proof fn lemma_end_ok(s: RView, tag: MdTagEnd, width: int, hl: Option<Seq<char>>)
    requires
        view_no_esc(s),
    ensures
        view_no_esc(spec_end(s, tag, false, width, hl)),
{
    let s1 = RView { depth: if s.depth > 0 { s.depth - 1 } else { 0 }, ..s };
    match tag {
        MdTagEnd::Paragraph | MdTagEnd::Item => { lemma_emit_current_ok(s1, width); },
        MdTagEnd::Heading => { lemma_heading_ok(s1, width); },
        MdTagEnd::CodeBlock => { lemma_code_block_ok(RView { in_code: false, ..s1 }, hl); },
        MdTagEnd::List => {
            if s1.list_stack.len() > 0 {
                let r = RView { list_stack: s1.list_stack.drop_last(), ..s1 };
                assert forall|i: int| 0 <= i < r.list_stack.len() implies no_esc(#[trigger] r.list_stack[i].2) by {
                    assert(r.list_stack[i] == s1.list_stack[i]);
                }
            }
        },
        MdTagEnd::Link => {
            let s2 = spec_pop_style(s1);
            if s2.link_stack.len() > 0 {
                let url = s2.link_stack.last();
                assert(no_esc(s2.link_stack[s2.link_stack.len() - 1]));
                let s3 = RView { link_stack: s2.link_stack.drop_last(), ..s2 };
                assert forall|i: int| 0 <= i < s3.link_stack.len() implies no_esc(#[trigger] s3.link_stack[i]) by {
                    assert(s3.link_stack[i] == s2.link_stack[i]);
                }
                lemma_concat(seq![' ', '('], url);
                lemma_concat(seq![' ', '('] + url, seq![')']);
                lemma_push_text_ok(s3, seq![' ', '('] + url + seq![')'], Style { dim: true, ..s3.style }, width);
            }
        },
        MdTagEnd::Table => { lemma_emit_table_ok(s1); },
        _ => {},
    }
}

proof fn lemma_table_event_ok(s: RView, ev: MdEvent)
    requires
        view_no_esc(s),
        event_no_esc(ev),
    ensures
        view_no_esc(spec_table_event(s, ev)),
{
    if ev == MdEvent::End(MdTagEnd::Table) {
        lemma_emit_table_ok(RView { depth: if s.depth > 0 { s.depth - 1 } else { 0 }, ..s });
    } else {
        match s.table {
            None => {},
            Some(t) => {
                let r = spec_table_event(s, ev);
                let t2 = r.table->0;
                match ev {
                    MdEvent::End(MdTagEnd::TableCell) => {
                        assert forall|c: int| 0 <= c < t2.2.len() implies no_esc(#[trigger] t2.2[c]) by {
                            if c < t.2.len() {
                                assert(t2.2[c] == t.2[c]);
                            }
                        }
                    },
                    MdEvent::End(MdTagEnd::TableRow) | MdEvent::End(MdTagEnd::TableHead) => {
                        assert forall|a: int, c: int| 0 <= a < t2.1.len() && 0 <= c < t2.1[a].len() implies no_esc(#[trigger] t2.1[a][c]) by {
                            if a < t.1.len() {
                                assert(t2.1[a] == t.1[a]);
                            } else {
                                assert(t2.1[a] == t.2);
                            }
                        }
                    },
                    MdEvent::Text(x) | MdEvent::Code(x) => {
                        lemma_concat(t.3, x@);
                    },
                    MdEvent::SoftBreak | MdEvent::HardBreak => {
                        lemma_concat(t.3, seq![' ']);
                        assert(t.3.push(' ') == t.3 + seq![' ']);
                    },
                    _ => {},
                }
            },
        }
    }
}

proof fn lemma_rule_ok(s: RView, width: int)
    requires
        view_no_esc(s),
    ensures
        view_no_esc(spec_rule(s, false, width)),
{
    lemma_push_blank_ok(s);
    let s1 = spec_open_block(s);
    let sp = seq![(spec_repeat('─', width as nat), crate::style::dim_style())];
    lemma_repeat('─', width as nat);
    assert(spans_no_esc(sp));
    lemma_spans_text(sp);
    let r = spec_rule(s, false, width);
    assert forall|i: int| 0 <= i < r.out.len() implies no_esc(#[trigger] r.out[i].0) by {
        if i < s1.out.len() {
            assert(r.out[i] == s1.out[i]);
        }
    }
}

proof fn lemma_event_ok(s: RView, ev: MdEvent, width: int, hl: Option<Seq<char>>)
    requires
        view_no_esc(s),
        event_no_esc(ev),
    ensures
        view_no_esc(spec_event(s, ev, false, width, hl)),
{
    if s.table is Some {
        lemma_table_event_ok(s, ev);
    } else {
        match ev {
            MdEvent::Start(tag) => { lemma_start_ok(s, tag, width); },
            MdEvent::End(tag) => { lemma_end_ok(s, tag, width, hl); },
            MdEvent::Text(t) => {
                if s.in_code {
                    lemma_concat(s.code_buf, t@);
                } else {
                    lemma_push_text_ok(s, t@, s.style, width);
                }
            },
            MdEvent::Code(t) => { lemma_push_text_ok(s, t@, Style { code: true, ..s.style }, width); },
            MdEvent::SoftBreak => { lemma_push_text_ok(s, seq![' '], s.style, width); },
            MdEvent::HardBreak => { lemma_emit_current_ok(s, width); },
            MdEvent::Rule => { lemma_rule_ok(s, width); },
            MdEvent::TaskListMarker(checked) => {
                if s.list_stack.len() > 0 {
                    let r = spec_event(s, ev, false, width, hl);
                    assert forall|i: int| 0 <= i < r.list_stack.len() implies no_esc(#[trigger] r.list_stack[i].2) by {
                        if i < s.list_stack.len() - 1 {
                            assert(r.list_stack[i] == s.list_stack[i]);
                        }
                    }
                }
            },
            MdEvent::Html(t) | MdEvent::InlineHtml(t) => { lemma_push_text_ok(s, t@, s.style, width); },
            MdEvent::Other => {},
        }
    }
}

proof fn lemma_run_ok(evs: Seq<MdEvent>, width: int, hl: Option<Seq<char>>)
    requires
        forall|i: int| 0 <= i < evs.len() ==> event_no_esc(#[trigger] evs[i]),
    ensures
        view_no_esc(spec_run(evs, false, width, hl)),
    decreases evs.len(),
{
    if evs.len() > 0 {
        assert forall|i: int| 0 <= i < evs.drop_last().len() implies event_no_esc(#[trigger] evs.drop_last()[i]) by {
            assert(evs.drop_last()[i] == evs[i]);
        }
        lemma_run_ok(evs.drop_last(), width, hl);
        assert(event_no_esc(evs[evs.len() - 1]));
        lemma_event_ok(spec_run(evs.drop_last(), false, width, hl), evs.last(), width, hl);
    } else {
        assert(view_no_esc(initial_view()));
    }
}

/// Without colors, no output line holds an escape character unless the events
/// carried one: every line rendered from events whose texts and link targets hold
/// no ESC holds none either, whatever the width and whether or not the rendering
/// is the final one.
pub proof fn lemma_plain_output_has_no_escape(evs: Seq<MdEvent>, width: int, hl: Option<Seq<char>>, final_flush: bool, md: Seq<char>)
    requires
        forall|i: int| 0 <= i < evs.len() ==> event_no_esc(#[trigger] evs[i]),
    ensures
        forall|i: int| 0 <= i < spec_render_events(evs, false, width, hl, final_flush, md).len()
            ==> no_esc(#[trigger] spec_render_events(evs, false, width, hl, final_flush, md)[i].0),
{
    lemma_run_ok(evs, width, hl);
    let s = spec_run(evs, false, width, hl);
    lemma_emit_current_ok(s, width);
    let s1 = spec_emit_current(s, false, width);
    let out = spec_render_events(evs, false, width, hl, final_flush, md);
    assert(out == spec_finish(s, final_flush, md, false, width).out);
    assert forall|i: int| 0 <= i < out.len() implies no_esc(#[trigger] out[i].0) by {
        assert(out.len() == s1.out.len());
        assert(out[i].0 == s1.out[i].0);
    }
}

} // verus!
