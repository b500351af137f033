//! What rendering keeps: lines already produced are never changed by later events,
//! every line is stable until the end of the input, the final rendering has no
//! live line, live lines are exactly the tail of the output, and the stable/live
//! split never changes the text of a line.

use vstd::prelude::*;
use crate::markdown::MdEvent;
use crate::render_spec::{spec_prefixes, spec_ends_with_blank, 
    RView, spec_emit_code_block, spec_emit_current, spec_emit_heading, spec_emit_table,
    spec_end, spec_event, spec_open_block, spec_pop_style, spec_push_part,
    spec_push_text, spec_render_events, spec_rule, spec_run, spec_start,
    is_block_tag,
};
use crate::style::{Style, plain};
use crate::text::spec_repeat;
use crate::width::{all_printable_ascii, spec_str_width};
use crate::wrap::spans_width;
use crate::text::find_char;

verus! {

/// `b` extends `a` by lines that are not live.
pub open spec fn appends_stable(a: Seq<(Seq<char>, bool)>, b: Seq<(Seq<char>, bool)>) -> bool {
    &&& a.len() <= b.len()
    &&& b.take(a.len() as int) == a
    &&& forall|k: int| a.len() <= k < b.len() ==> !(#[trigger] b[k]).1
}

/// No line is live.
pub open spec fn all_stable(out: Seq<(Seq<char>, bool)>) -> bool {
    forall|k: int| 0 <= k < out.len() ==> !(#[trigger] out[k]).1
}

proof fn lemma_appends_refl(a: Seq<(Seq<char>, bool)>)
    ensures
        appends_stable(a, a),
{
    assert(a.take(a.len() as int) == a);
}

proof fn lemma_appends_trans(a: Seq<(Seq<char>, bool)>, b: Seq<(Seq<char>, bool)>, c: Seq<(Seq<char>, bool)>)
    requires
        appends_stable(a, b),
        appends_stable(b, c),
    ensures
        appends_stable(a, c),
{
    assert(c.take(a.len() as int) =~= b.take(a.len() as int));
    assert forall|k: int| a.len() <= k < c.len() implies !(#[trigger] c[k]).1 by {
        if k < b.len() {
            assert(c[k] == c.take(b.len() as int)[k]);
            assert(!b[k].1);
        }
    }
}

proof fn lemma_appends_concat(a: Seq<(Seq<char>, bool)>, m: Seq<(Seq<char>, bool)>)
    requires
        all_stable(m),
    ensures
        appends_stable(a, a + m),
{
    assert((a + m).take(a.len() as int) =~= a);
    assert forall|k: int| a.len() <= k < (a + m).len() implies !(#[trigger] (a + m)[k]).1 by {
        assert((a + m)[k] == m[k - a.len()]);
    }
}

proof fn lemma_appends_push(a: Seq<(Seq<char>, bool)>, x: (Seq<char>, bool))
    requires
        !x.1,
    ensures
        appends_stable(a, a.push(x)),
{
    assert(a.push(x).take(a.len() as int) =~= a);
}

proof fn lemma_emit_current(s: RView, color: bool, width: int)
    ensures
        appends_stable(s.out, spec_emit_current(s, color, width).out),
{
    let r = spec_emit_current(s, color, width);
    if s.cur.len() == 0 {
        lemma_appends_refl(s.out);
    } else {
        assert(r.out == s.out + r.out.skip(s.out.len() as int));
        lemma_appends_concat(s.out, r.out.skip(s.out.len() as int));
    }
}

proof fn lemma_open_block(s: RView)
    ensures
        appends_stable(s.out, spec_open_block(s).out),
{
    if s.depth == 0 && s.out.len() > 0 && s.out.last().0.len() > 0 {
        lemma_appends_push(s.out, (Seq::empty(), false));
    } else {
        lemma_appends_refl(s.out);
    }
}

proof fn lemma_push_text(s: RView, text: Seq<char>, st: Style, color: bool, width: int)
    ensures
        appends_stable(s.out, spec_push_text(s, text, st, color, width).out),
    decreases text.len(),
{
    match find_char(text, '\n') {
        None => { lemma_appends_refl(s.out); },
        Some(k) => {
            crate::text::lemma_find_char(text, '\n');
            let s1 = spec_push_part(s, text.take(k), st);
            let s2 = spec_emit_current(s1, color, width);
            lemma_emit_current(s1, color, width);
            lemma_push_text(s2, text.skip(k + 1), st, color, width);
            lemma_appends_trans(s.out, s2.out, spec_push_text(s2, text.skip(k + 1), st, color, width).out);
        },
    }
}

proof fn lemma_emit_heading(s: RView, color: bool, width: int)
    ensures
        appends_stable(s.out, spec_emit_heading(s, color, width).out),
{
    let r = spec_emit_heading(s, color, width);
    if s.cur.len() > 0 {
        let n = r.out.len() - s.out.len();
        assert(r.out == s.out + r.out.skip(s.out.len() as int));
        lemma_appends_concat(s.out, r.out.skip(s.out.len() as int));
    } else {
        lemma_appends_refl(s.out);
    }
}

proof fn lemma_code_block(s: RView, color: bool, hl: Option<Seq<char>>)
    ensures
        appends_stable(s.out, spec_emit_code_block(s, color, hl).out),
{
    let r = spec_emit_code_block(s, color, hl);
    assert(r.out == s.out + r.out.skip(s.out.len() as int));
    lemma_appends_concat(s.out, r.out.skip(s.out.len() as int));
}

proof fn lemma_emit_table(s: RView)
    ensures
        appends_stable(s.out, spec_emit_table(s).out),
{
    let r = spec_emit_table(s);
    assert(r.out == s.out + r.out.skip(s.out.len() as int));
    lemma_appends_concat(s.out, r.out.skip(s.out.len() as int));
}

proof fn lemma_start(s: RView, tag: crate::markdown::MdTag, color: bool, width: int)
    ensures
        appends_stable(s.out, spec_start(s, tag, color, width).out),
{
    let s1 = if is_block_tag(tag) { spec_emit_current(s, color, width) } else { s };
    if is_block_tag(tag) {
        lemma_emit_current(s, color, width);
    } else {
        lemma_appends_refl(s.out);
    }
    let s2 = spec_open_block(s1);
    lemma_open_block(s1);
    lemma_appends_trans(s.out, s1.out, s2.out);
}

proof fn lemma_end(s: RView, tag: crate::markdown::MdTagEnd, color: bool, width: int, hl: Option<Seq<char>>)
    ensures
        appends_stable(s.out, spec_end(s, tag, color, width, hl).out),
{
    let s1 = RView { depth: if s.depth > 0 { s.depth - 1 } else { 0 }, ..s };
    match tag {
        crate::markdown::MdTagEnd::Paragraph | crate::markdown::MdTagEnd::Item => lemma_emit_current(s1, color, width),
        crate::markdown::MdTagEnd::Heading => lemma_emit_heading(s1, color, width),
        crate::markdown::MdTagEnd::CodeBlock => lemma_code_block(RView { in_code: false, ..s1 }, color, hl),
        crate::markdown::MdTagEnd::Table => lemma_emit_table(s1),
        crate::markdown::MdTagEnd::Link => {
            let s2 = spec_pop_style(s1);
            if s2.link_stack.len() > 0 {
                let url = s2.link_stack.last();
                let s3 = RView { link_stack: s2.link_stack.drop_last(), ..s2 };
                lemma_push_text(s3, seq![' ', '('] + url + seq![')'], Style { dim: true, ..s3.style }, color, width);
            } else {
                lemma_appends_refl(s.out);
            }
        },
        _ => lemma_appends_refl(s.out),
    }
}

/// An event only appends lines, and every line it appends is stable.
pub proof fn lemma_event_appends_stable(s: RView, ev: MdEvent, color: bool, width: int, hl: Option<Seq<char>>)
    ensures
        appends_stable(s.out, spec_event(s, ev, color, width, hl).out),
{
    if s.table is Some {
        if ev == MdEvent::End(crate::markdown::MdTagEnd::Table) {
            lemma_emit_table(RView { depth: if s.depth > 0 { s.depth - 1 } else { 0 }, ..s });
        } else {
            lemma_appends_refl(s.out);
        }
    } else {
        match ev {
            MdEvent::Start(tag) => lemma_start(s, tag, color, width),
            MdEvent::End(tag) => lemma_end(s, tag, color, width, hl),
            MdEvent::Text(t) => if !s.in_code { lemma_push_text(s, t@, s.style, color, width) } else { lemma_appends_refl(s.out) },
            MdEvent::Code(t) => lemma_push_text(s, t@, Style { code: true, ..s.style }, color, width),
            MdEvent::SoftBreak => lemma_push_text(s, seq![' '], s.style, color, width),
            MdEvent::HardBreak => lemma_emit_current(s, color, width),
            MdEvent::Rule => {
                let s1 = spec_open_block(s);
                lemma_open_block(s);
                lemma_appends_push(s1.out, spec_rule(s, color, width).out.last());
                assert(spec_rule(s, color, width).out == s1.out.push(spec_rule(s, color, width).out.last()));
                lemma_appends_trans(s.out, s1.out, spec_rule(s, color, width).out);
            },
            MdEvent::Html(t) | MdEvent::InlineHtml(t) => lemma_push_text(s, t@, s.style, color, width),
            _ => lemma_appends_refl(s.out),
        }
    }
}

/// Lines, once produced while the events are applied, are never changed or
/// removed by later events (the prefix of the events renders a prefix of the
/// lines), and no line is live before the input ends.
pub proof fn lemma_run_appends_stable(evs: Seq<MdEvent>, i: int, color: bool, width: int, hl: Option<Seq<char>>)
    requires
        0 <= i <= evs.len(),
    ensures
        appends_stable(spec_run(evs.take(i), color, width, hl).out, spec_run(evs, color, width, hl).out),
        all_stable(spec_run(evs, color, width, hl).out),
    decreases evs.len(),
{
    if evs.len() == 0 {
        assert(evs.take(i) == evs);
        lemma_appends_refl(spec_run(evs, color, width, hl).out);
    } else {
        let prev = evs.drop_last();
        lemma_event_appends_stable(spec_run(prev, color, width, hl), evs.last(), color, width, hl);
        if i == evs.len() {
            assert(evs.take(i) == evs);
            lemma_run_appends_stable(prev, prev.len() as int, color, width, hl);
            lemma_appends_refl(spec_run(evs, color, width, hl).out);
        } else {
            assert(evs.take(i) == prev.take(i));
            lemma_run_appends_stable(prev, i, color, width, hl);
            lemma_appends_trans(spec_run(prev.take(i), color, width, hl).out, spec_run(prev, color, width, hl).out, spec_run(evs, color, width, hl).out);
        }
        let a = spec_run(prev, color, width, hl).out;
        let b = spec_run(evs, color, width, hl).out;
        assert forall|k: int| 0 <= k < b.len() implies !(#[trigger] b[k]).1 by {
            if k < a.len() {
                assert(b[k] == b.take(a.len() as int)[k]);
            }
        }
    }
}

/// The final rendering has no live line.
pub proof fn lemma_final_render_all_stable(evs: Seq<MdEvent>, color: bool, width: int, hl: Option<Seq<char>>, md: Seq<char>)
    ensures
        all_stable(spec_render_events(evs, color, width, hl, true, md)),
{
    let s = spec_run(evs, color, width, hl);
    lemma_run_appends_stable(evs, evs.len() as int, color, width, hl);
    lemma_emit_current(s, color, width);
    let s1 = spec_emit_current(s, color, width);
    assert forall|k: int| 0 <= k < s1.out.len() implies !(#[trigger] s1.out[k]).1 by {
        if k < s.out.len() {
            assert(s1.out[k] == s1.out.take(s.out.len() as int)[k]);
        }
    }
}

/// Whether a rendering is final or not changes only which lines are live, never
/// the number of lines or their text.
pub proof fn lemma_live_split_keeps_text(evs: Seq<MdEvent>, color: bool, width: int, hl: Option<Seq<char>>, md: Seq<char>)
    ensures
        spec_render_events(evs, color, width, hl, false, md).len() == spec_render_events(evs, color, width, hl, true, md).len(),
        forall|k: int| 0 <= k < spec_render_events(evs, color, width, hl, true, md).len() ==>
            (#[trigger] spec_render_events(evs, color, width, hl, false, md)[k]).0 == spec_render_events(evs, color, width, hl, true, md)[k].0,
{
}

/// The live lines are exactly a tail of the output: once a line is live, so is
/// every line after it.
pub proof fn lemma_live_lines_are_a_tail(evs: Seq<MdEvent>, color: bool, width: int, hl: Option<Seq<char>>, final_flush: bool, md: Seq<char>)
    ensures
        forall|j: int, k: int| 0 <= j <= k < spec_render_events(evs, color, width, hl, final_flush, md).len()
            && (#[trigger] spec_render_events(evs, color, width, hl, final_flush, md)[j]).1
            ==> (#[trigger] spec_render_events(evs, color, width, hl, final_flush, md)[k]).1,
{
    let s = spec_run(evs, color, width, hl);
    lemma_run_appends_stable(evs, evs.len() as int, color, width, hl);
    lemma_emit_current(s, color, width);
    let s1 = spec_emit_current(s, color, width);
    assert forall|k: int| 0 <= k < s1.out.len() implies !(#[trigger] s1.out[k]).1 by {
        if k < s.out.len() {
            assert(s1.out[k] == s1.out.take(s.out.len() as int)[k]);
        }
    }
}

/// Inside a list item, the prefix of every continuation row is exactly as wide
/// as the prefix of the item's first row (quote marks, nesting indent and the
/// marker), so the item's text starts in the same column on every row; outside
/// lists both prefixes are the quote marks alone.
pub proof fn lemma_continuation_prefix_aligned(s: RView)
    ensures
        spans_width(spec_prefixes(s).1) == spans_width(spec_prefixes(s).0),
        s.list_stack.len() == 0 ==> spec_prefixes(s).1 == spec_prefixes(s).0,
{
    if s.list_stack.len() > 0 {
        let (first, cont) = spec_prefixes(s);
        let m = s.list_stack.last().2;
        let n = spec_str_width(m);
        assert(first.drop_last() == cont.drop_last());
        assert(first.last() == (m, plain()));
        assert(cont.last() == (spec_repeat(' ', n), plain()));
        assert(all_printable_ascii(spec_repeat(' ', n)));
        assert(spec_str_width(spec_repeat(' ', n)) == n);
    }
}

/// While the text does not end in a blank line, a non-final rendering marks
/// live exactly the lines of the last top-level block: a line is live if and
/// only if it comes at or after the place where that block began, and every
/// earlier line is stable; with no block at all, nothing is live.  The texts
/// of the lines are those of the rendering.
pub proof fn lemma_live_lines_are_the_last_block(evs: Seq<MdEvent>, color: bool, width: int, hl: Option<Seq<char>>, md: Seq<char>)
    requires
        !spec_ends_with_blank(md),
    ensures
        ({
            let s = spec_emit_current(spec_run(evs, color, width, hl), color, width);
            let out = spec_render_events(evs, color, width, hl, false, md);
            &&& out.len() == s.out.len()
            &&& forall|k: int| 0 <= k < out.len() ==> (#[trigger] out[k]).0 == s.out[k].0
            &&& s.block_starts.len() > 0 ==> forall|k: int| 0 <= k < out.len() ==> ((#[trigger] out[k]).1 <==> k >= s.block_starts.last())
            &&& s.block_starts.len() == 0 ==> forall|k: int| 0 <= k < out.len() ==> !(#[trigger] out[k]).1
        }),
{
    let s0 = spec_run(evs, color, width, hl);
    lemma_run_appends_stable(evs, evs.len() as int, color, width, hl);
    lemma_emit_current(s0, color, width);
    let s1 = spec_emit_current(s0, color, width);
    assert forall|k: int| 0 <= k < s1.out.len() implies !(#[trigger] s1.out[k]).1 by {
        if k < s0.out.len() {
            assert(s1.out[k] == s1.out.take(s0.out.len() as int)[k]);
        }
    }
}

/// Inline code keeps the style in force and adds the code attribute: an inline
/// code span of one line (outside a table) adds its text to the pending content
/// as one piece whose style has `code` set and every other attribute as before,
/// and changes nothing else.
pub proof fn lemma_inline_code_is_code_styled(s: RView, t: String, color: bool, width: int, hl: Option<Seq<char>>)
    requires
        s.table is None,
        t@.len() > 0,
        forall|i: int| 0 <= i < t@.len() ==> t@[i] != '\n',
    ensures
        ({
            let r = spec_event(s, MdEvent::Code(t), color, width, hl);
            &&& r.cur.len() == s.cur.len() + 1
            &&& r.cur.take(s.cur.len() as int) == s.cur
            &&& r.cur.last().0 == t@
            &&& r.cur.last().1.code
            &&& r.cur.last().1.bold == s.style.bold
            &&& r.cur.last().1.italic == s.style.italic
            &&& r.cur.last().1.strike == s.style.strike
            &&& r.cur.last().1.link == s.style.link
            &&& r.cur.last().1.dim == s.style.dim
            &&& r.out == s.out
            &&& r.style == s.style
        }),
{
    crate::text::lemma_find_char_exact(t@, '\n', t@.len() as int);
    let r = spec_event(s, MdEvent::Code(t), color, width, hl);
    assert(r.cur == s.cur.push((t@, Style { code: true, ..s.style })));
    assert(r.cur.take(s.cur.len() as int) =~= s.cur);
}

} // verus!
