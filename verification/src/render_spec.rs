//! The meaning of rendering: the renderer's state as plain values, and what each
//! Markdown event does to it.

use vstd::prelude::*;
use crate::markdown::{ColumnAlign, MdEvent, MdTag, MdTagEnd};
use crate::style::{Style, dim_style, plain, spec_encode_line};
use crate::table::{spec_quote_prefix, spec_table_lines};
use crate::text::{decimal, spec_repeat, split_on, find_char};
use crate::themes::{highlighted_code, token_has_syntax};
use crate::wrap::is_ws;
use crate::width::spec_str_width;
use crate::wrap::{spans_width, spec_wrap_with_prefix};

verus! {

/// A list being rendered: ordered or not, the next item number, the current marker.
pub type ListV = (bool, u64, Seq<char>);

/// A table being collected: column alignments, finished rows, the row and the cell being filled.
pub type TableV = (Seq<ColumnAlign>, Seq<Seq<Seq<char>>>, Seq<Seq<char>>, Seq<char>);

/// The renderer's state as plain values.
#[verifier::ext_equal]
pub struct RView {
    /// Lines produced so far: text and whether it is live.
    pub out: Seq<(Seq<char>, bool)>,
    /// Inline content of the block being filled.
    pub cur: Seq<(Seq<char>, Style)>,
    pub style: Style,
    pub style_stack: Seq<Style>,
    /// Nesting depth of open elements.
    pub depth: int,
    /// Index in `out` at which each top-level block began.
    pub block_starts: Seq<int>,
    pub quote_depth: int,
    pub list_stack: Seq<ListV>,
    pub in_code: bool,
    pub code_buf: Seq<char>,
    /// The language named after the opening fence of the code block, if any.
    pub code_lang: Option<Seq<char>>,
    pub table: Option<TableV>,
    pub heading_level: Option<u8>,
    pub link_stack: Seq<Seq<char>>,
}

/// The state before the first event.
pub open spec fn initial_view() -> RView {
    RView {
        out: Seq::empty(),
        cur: Seq::empty(),
        style: plain(),
        style_stack: Seq::empty(),
        depth: 0,
        block_starts: Seq::empty(),
        quote_depth: 0,
        list_stack: Seq::empty(),
        in_code: false,
        code_buf: Seq::empty(),
        code_lang: None,
        table: None,
        heading_level: None,
        link_stack: Seq::empty(),
    }
}

/// An output line that is not live.
pub open spec fn stable_line(spans: Seq<(Seq<char>, Style)>, color: bool) -> (Seq<char>, bool) {
    (spec_encode_line(spans, color), false)
}

/// The prefixes of the first and of later rows of a block: the quote marks
/// (dimmed) inside block quotes, then for a list item two spaces per nesting level
/// and the item's marker (later rows: as many spaces as the marker is wide).
pub open spec fn spec_prefixes(s: RView) -> (Seq<(Seq<char>, Style)>, Seq<(Seq<char>, Style)>) {
    let q: Seq<(Seq<char>, Style)> = if s.quote_depth > 0 {
        seq![(spec_quote_prefix(s.quote_depth as nat), dim_style())]
    } else {
        Seq::empty()
    };
    if s.list_stack.len() == 0 {
        (q, q)
    } else {
        let ctx = s.list_stack.last();
        let level = s.list_stack.len() - 1;
        let ind: Seq<(Seq<char>, Style)> = if level > 0 {
            seq![(spec_repeat(' ', (2 * level) as nat), plain())]
        } else {
            Seq::empty()
        };
        (q + ind + seq![(ctx.2, plain())], q + ind + seq![(spec_repeat(' ', spec_str_width(ctx.2)), plain())])
    }
}

/// Emits the pending inline content as wrapped, prefixed lines.
pub open spec fn spec_emit_current(s: RView, color: bool, width: int) -> RView {
    if s.cur.len() == 0 {
        s
    } else {
        let (f, c) = spec_prefixes(s);
        let rows = spec_wrap_with_prefix(s.cur, f, c, width);
        RView { out: s.out + rows.map_values(|r: Seq<(Seq<char>, Style)>| stable_line(r, color)), cur: Seq::empty(), ..s }
    }
}

/// Adds an empty line unless there is no line yet or the last one is empty.
pub open spec fn spec_push_blank(s: RView) -> RView {
    if s.out.len() > 0 && s.out.last().0.len() > 0 {
        RView { out: s.out.push((Seq::empty(), false)), ..s }
    } else {
        s
    }
}

/// At top level: separates from the previous block and records where this block begins.
pub open spec fn spec_open_block(s: RView) -> RView {
    if s.depth == 0 {
        let b = spec_push_blank(s);
        RView { block_starts: b.block_starts.push(b.out.len() as int), ..b }
    } else {
        s
    }
}

/// Saves the style and sets a new one.
pub open spec fn spec_push_style(s: RView, st: Style) -> RView {
    RView { style_stack: s.style_stack.push(s.style), style: st, ..s }
}

/// Restores the saved style, if any.
pub open spec fn spec_pop_style(s: RView) -> RView {
    if s.style_stack.len() > 0 {
        RView { style: s.style_stack.last(), style_stack: s.style_stack.drop_last(), ..s }
    } else {
        s
    }
}

/// Adds a piece of inline text, unless it is empty.
pub open spec fn spec_push_part(s: RView, part: Seq<char>, st: Style) -> RView {
    if part.len() > 0 {
        RView { cur: s.cur.push((part, st)), ..s }
    } else {
        s
    }
}

/// Adds inline text; each newline in it ends the current line of content.
pub open spec fn spec_push_text(s: RView, text: Seq<char>, st: Style, color: bool, width: int) -> RView
    decreases text.len(),
{
    match find_char(text, '\n') {
        None => spec_push_part(s, text, st),
        Some(k) => {
            proof { crate::text::lemma_find_char(text, '\n'); }
            spec_push_text(spec_emit_current(spec_push_part(s, text.take(k), st), color, width), text.skip(k + 1), st, color, width)
        },
    }
}

/// The elements before whose start the pending content is emitted.
pub open spec fn is_block_tag(tag: MdTag) -> bool {
    match tag {
        MdTag::Paragraph | MdTag::Heading(_) | MdTag::BlockQuote | MdTag::CodeBlock(_) | MdTag::List(_)
        | MdTag::Item | MdTag::Table(_) => true,
        _ => false,
    }
}

/// The marker of the next item of a list: `n. ` for an ordered list, else `• `
/// (a task-list marker then replaces it for that item alone).
pub open spec fn spec_next_item(ctx: ListV) -> ListV {
    if ctx.0 {
        (ctx.0, (ctx.1 + 1) as u64, decimal(ctx.1 as nat) + seq!['.', ' '])
    } else {
        (ctx.0, ctx.1, seq!['•', ' '])
    }
}

/// The effect of an element's start once it is opened.
pub open spec fn spec_start_tag(s: RView, tag: MdTag) -> RView {
    match tag {
        MdTag::Heading(n) => {
            let s1 = spec_push_style(s, Style { bold: true, ..s.style });
            let s2 = RView { heading_level: Some(n), ..s1 };
            if n >= 3 {
                RView { cur: s2.cur.push((spec_repeat('#', n as nat).push(' '), s2.style)), ..s2 }
            } else {
                s2
            }
        },
        MdTag::BlockQuote => RView { quote_depth: s.quote_depth + 1, ..s },
        MdTag::CodeBlock(info) => RView { in_code: true, code_buf: Seq::empty(), code_lang: code_lang_of(opt_string_v(info)), ..s },
        MdTag::List(start) => RView {
            list_stack: s.list_stack.push((start is Some, match start { Some(n) => n, None => 1u64 }, Seq::empty())),
            ..s
        },
        MdTag::Item => if s.list_stack.len() > 0 {
            RView { list_stack: s.list_stack.update(s.list_stack.len() - 1, spec_next_item(s.list_stack.last())), ..s }
        } else {
            s
        },
        MdTag::Emphasis => spec_push_style(s, Style { italic: true, ..s.style }),
        MdTag::Strong => spec_push_style(s, Style { bold: true, ..s.style }),
        MdTag::Strikethrough => spec_push_style(s, Style { strike: true, ..s.style }),
        MdTag::Link(url) => spec_push_style(RView { link_stack: s.link_stack.push(url@), ..s }, Style { link: true, ..s.style }),
        MdTag::Table(aligns) => RView { table: Some((aligns@, Seq::empty(), Seq::empty(), Seq::empty())), ..s },
        _ => s,
    }
}

/// The start of an element: pending content is emitted before a block element, a
/// top-level element opens a new block, and the depth grows.
pub open spec fn spec_start(s: RView, tag: MdTag, color: bool, width: int) -> RView {
    let s1 = if is_block_tag(tag) { spec_emit_current(s, color, width) } else { s };
    let s2 = spec_open_block(s1);
    spec_start_tag(RView { depth: s2.depth + 1, ..s2 }, tag)
}

/// The heading underline character: `═` for level 1, `─` for level 2.
pub open spec fn underline_char(level: u8) -> Option<char> {
    if level == 1 { Some('═') } else if level == 2 { Some('─') } else { None }
}

/// The end of a heading: its content is emitted like a paragraph; a level 1 or 2
/// heading is underlined (dimmed, after the continuation prefix) for as many
/// columns as the heading text, at most the width beside the prefix, at least one.
pub open spec fn spec_emit_heading(s: RView, color: bool, width: int) -> RView {
    let content = s.cur;
    let s1 = RView { cur: Seq::empty(), ..s };
    let s2 = if content.len() > 0 {
        let (f, c) = spec_prefixes(s1);
        let pw = vstd::math::max(spans_width(f), spans_width(c));
        let room = if width > pw { width - pw } else { 0 };
        let w = vstd::math::max(1, vstd::math::min(spans_width(content), room));
        let rows = spec_wrap_with_prefix(content, f, c, width);
        let out1 = s1.out + rows.map_values(|r: Seq<(Seq<char>, Style)>| stable_line(r, color));
        let out2 = match s1.heading_level {
            Some(level) => match underline_char(level) {
                Some(ch) => out1.push(stable_line(c.push((spec_repeat(ch, w as nat), dim_style())), color)),
                None => out1,
            },
            None => out1,
        };
        RView { out: out2, ..s1 }
    } else {
        s1
    };
    spec_pop_style(RView { heading_level: None, ..s2 })
}

/// The view of an optional string.
pub open spec fn opt_string_v(o: Option<String>) -> Option<Seq<char>> {
    match o {
        Some(t) => Some(t@),
        None => None,
    }
}

/// The text without its leading white space.
pub open spec fn trim_start_ws(s: Seq<char>) -> Seq<char>
    decreases s.len(),
{
    if s.len() > 0 && is_ws(s[0]) { trim_start_ws(s.drop_first()) } else { s }
}

/// The text without its trailing white space.
pub open spec fn trim_end_ws(s: Seq<char>) -> Seq<char>
    decreases s.len(),
{
    if s.len() > 0 && is_ws(s.last()) { trim_end_ws(s.drop_last()) } else { s }
}

/// The language of a code block from its fence's info text: the text trimmed of
/// white space, unless nothing is left (an indented block has none).
pub open spec fn code_lang_of(info: Option<Seq<char>>) -> Option<Seq<char>> {
    match info {
        Some(t) => {
            let l = trim_end_ws(trim_start_ws(t));
            if l.len() > 0 { Some(l) } else { None }
        },
        None => None,
    }
}

/// The text without its trailing newlines and carriage returns.
pub open spec fn trim_eol(s: Seq<char>) -> Seq<char>
    decreases s.len(),
{
    if s.len() > 0 && (s.last() == '\n' || s.last() == '\r') { trim_eol(s.drop_last()) } else { s }
}

/// The code without a final newline.
pub open spec fn code_body(code: Seq<char>) -> Seq<char> {
    if code.len() > 0 && code.last() == '\n' { code.drop_last() } else { code }
}

/// The language token to highlight with: the block's language when a built-in
/// syntax answers to it, else none (plain text).
pub open spec fn highlight_syntax(lang: Option<Seq<char>>) -> Option<Seq<char>> {
    match lang {
        Some(t) => if token_has_syntax(t) { Some(t) } else { None },
        None => None,
    }
}

/// The text of each line of a code block.  Plain: each line of the code.  With
/// colors and a highlighting theme: line `k` is syntect's highlighting (with the
/// syntax of `highlight_syntax`) of that
/// line (without its line end), or the line itself, without line end, where
/// syntect gave none.
pub open spec fn code_lines(s: RView, color: bool, hl: Option<Seq<char>>) -> Seq<Seq<char>> {
    let pieces = split_on(code_body(s.code_buf), '\n');
    match hl {
        Some(theme) => if color {
            let h = highlighted_code(s.code_buf, highlight_syntax(s.code_lang), theme);
            Seq::new(pieces.len(), |k: int| if k < h.len() && h[k] is Some { trim_eol(h[k]->0) } else { trim_eol(pieces[k]) })
        } else {
            pieces
        },
        None => pieces,
    }
}

/// A code block's lines: four spaces after the quote prefix, then each line of
/// `code_lines` (a final newline does not start a line); nothing for empty code.
pub open spec fn spec_emit_code_block(s: RView, color: bool, hl: Option<Seq<char>>) -> RView {
    let s1 = RView { code_buf: Seq::empty(), code_lang: None, ..s };
    let pad = spec_quote_prefix(s.quote_depth as nat) + seq![' ', ' ', ' ', ' '];
    if s.code_buf.len() == 0 {
        s1
    } else {
        RView { out: s1.out + code_lines(s, color, hl).map_values(|l: Seq<char>| (pad + l, false)), ..s1 }
    }
}

/// A collected table is emitted as box-drawn lines, and forgotten.
pub open spec fn spec_emit_table(s: RView) -> RView {
    match s.table {
        None => s,
        Some(t) => RView {
            out: s.out + spec_table_lines(t.0, t.1, s.quote_depth as nat).map_values(|l: Seq<char>| (l, false)),
            table: None,
            ..s
        },
    }
}

/// The end of an element.
pub open spec fn spec_end(s: RView, tag: MdTagEnd, color: bool, width: int, hl: Option<Seq<char>>) -> RView {
    let s1 = RView { depth: if s.depth > 0 { s.depth - 1 } else { 0 }, ..s };
    match tag {
        MdTagEnd::Paragraph | MdTagEnd::Item => spec_emit_current(s1, color, width),
        MdTagEnd::Heading => spec_emit_heading(s1, color, width),
        MdTagEnd::BlockQuote => RView { quote_depth: if s1.quote_depth > 0 { s1.quote_depth - 1 } else { 0 }, ..s1 },
        MdTagEnd::CodeBlock => spec_emit_code_block(RView { in_code: false, ..s1 }, color, hl),
        MdTagEnd::List => if s1.list_stack.len() > 0 { RView { list_stack: s1.list_stack.drop_last(), ..s1 } } else { s1 },
        MdTagEnd::Emphasis | MdTagEnd::Strong | MdTagEnd::Strikethrough => spec_pop_style(s1),
        MdTagEnd::Link => {
            let s2 = spec_pop_style(s1);
            if s2.link_stack.len() > 0 {
                let url = s2.link_stack.last();
                let s3 = RView { link_stack: s2.link_stack.drop_last(), ..s2 };
                spec_push_text(s3, seq![' ', '('] + url + seq![')'], Style { dim: true, ..s3.style }, color, width)
            } else {
                s2
            }
        },
        MdTagEnd::Table => spec_emit_table(s1),
        _ => s1,
    }
}

/// An event while a table is being collected: rows and cells are gathered as
/// plain text (a line break becomes a space) until the table ends.
pub open spec fn spec_table_event(s: RView, ev: MdEvent) -> RView {
    if ev == MdEvent::End(MdTagEnd::Table) {
        spec_emit_table(RView { depth: if s.depth > 0 { s.depth - 1 } else { 0 }, ..s })
    } else {
        match s.table {
            None => s,
            Some(t) => {
                let t2: TableV = match ev {
                    MdEvent::Start(MdTag::TableRow) => (t.0, t.1, Seq::empty(), t.3),
                    MdEvent::Start(MdTag::TableCell) => (t.0, t.1, t.2, Seq::empty()),
                    MdEvent::End(MdTagEnd::TableCell) => (t.0, t.1, t.2.push(t.3), Seq::empty()),
                    MdEvent::End(MdTagEnd::TableRow) | MdEvent::End(MdTagEnd::TableHead) => (t.0, t.1.push(t.2), Seq::empty(), t.3),
                    MdEvent::Text(x) | MdEvent::Code(x) => (t.0, t.1, t.2, t.3 + x@),
                    MdEvent::SoftBreak | MdEvent::HardBreak => (t.0, t.1, t.2, t.3.push(' ')),
                    _ => t,
                };
                RView { table: Some(t2), ..s }
            },
        }
    }
}

/// A horizontal rule: a dimmed line of `─` as wide as the output, opening a block at top level.
pub open spec fn spec_rule(s: RView, color: bool, width: int) -> RView {
    let s1 = spec_open_block(s);
    RView { out: s1.out.push(stable_line(seq![(spec_repeat('─', width as nat), dim_style())], color)), ..s1 }
}

/// One event.
pub open spec fn spec_event(s: RView, ev: MdEvent, color: bool, width: int, hl: Option<Seq<char>>) -> RView {
    if s.table is Some {
        spec_table_event(s, ev)
    } else {
        match ev {
            MdEvent::Start(tag) => spec_start(s, tag, color, width),
            MdEvent::End(tag) => spec_end(s, tag, color, width, hl),
            MdEvent::Text(t) => if s.in_code {
                RView { code_buf: s.code_buf + t@, ..s }
            } else {
                spec_push_text(s, t@, s.style, color, width)
            },
            MdEvent::Code(t) => spec_push_text(s, t@, Style { code: true, ..s.style }, color, width),
            MdEvent::SoftBreak => spec_push_text(s, seq![' '], s.style, color, width),
            MdEvent::HardBreak => spec_emit_current(s, color, width),
            MdEvent::Rule => spec_rule(s, color, width),
            MdEvent::TaskListMarker(checked) => if s.list_stack.len() > 0 {
                let ctx = s.list_stack.last();
                RView {
                    list_stack: s.list_stack.update(s.list_stack.len() - 1, (ctx.0, ctx.1, if checked { seq!['☑', ' '] } else { seq!['☐', ' '] })),
                    ..s
                }
            } else {
                s
            },
            MdEvent::Html(t) | MdEvent::InlineHtml(t) => spec_push_text(s, t@, s.style, color, width),
            MdEvent::Other => s,
        }
    }
}

/// The events applied in order.
pub open spec fn spec_run(evs: Seq<MdEvent>, color: bool, width: int, hl: Option<Seq<char>>) -> RView
    decreases evs.len(),
{
    if evs.len() == 0 {
        initial_view()
    } else {
        spec_event(spec_run(evs.drop_last(), color, width, hl), evs.last(), color, width, hl)
    }
}

/// The text without its trailing spaces and tabs.
pub open spec fn trim_end_blanks(s: Seq<char>) -> Seq<char>
    decreases s.len(),
{
    if s.len() > 0 && (s.last() == ' ' || s.last() == '\t') {
        trim_end_blanks(s.drop_last())
    } else {
        s
    }
}

/// The document ends in a blank line (or is blank): after trailing spaces and tabs,
/// nothing is left or the text ends with two newlines.
pub open spec fn spec_ends_with_blank(md: Seq<char>) -> bool {
    let t = trim_end_blanks(md);
    t.len() == 0 || (t.len() >= 2 && t[t.len() - 1] == '\n' && t[t.len() - 2] == '\n')
}

/// The end of the input: pending content is emitted; unless this is the final
/// rendering or the text ends in a blank line, every line of the last top-level
/// block is live.
pub open spec fn spec_finish(s: RView, final_flush: bool, md: Seq<char>, color: bool, width: int) -> RView {
    let s1 = spec_emit_current(s, color, width);
    if !final_flush && !spec_ends_with_blank(md) && s1.block_starts.len() > 0 {
        let start = vstd::math::min(s1.block_starts.last(), s1.out.len() as int);
        RView {
            out: Seq::new(s1.out.len(), |k: int| if k >= start { (s1.out[k].0, true) } else { s1.out[k] }),
            ..s1
        }
    } else {
        s1
    }
}

/// The lines rendered from the events of a document.
pub open spec fn spec_render_events(evs: Seq<MdEvent>, color: bool, width: int, hl: Option<Seq<char>>, final_flush: bool, md: Seq<char>) -> Seq<(Seq<char>, bool)> {
    spec_finish(spec_run(evs, color, width, hl), final_flush, md, color, width).out
}

/// The nesting counters after `b` events: depths at most `b`, list numbers below 10^9 + `b`.
pub open spec fn counters_ok(s: RView, b: int) -> bool {
    &&& 0 <= s.depth <= b
    &&& 0 <= s.quote_depth <= b
    &&& forall|j: int| 0 <= j < s.list_stack.len() ==> (#[trigger] s.list_stack[j]).1 <= 1_000_000_000 + b
}

proof fn lemma_push_text_frame(s: RView, text: Seq<char>, st: Style, color: bool, width: int)
    ensures
        spec_push_text(s, text, st, color, width).depth == s.depth,
        spec_push_text(s, text, st, color, width).quote_depth == s.quote_depth,
        spec_push_text(s, text, st, color, width).list_stack == s.list_stack,
    decreases text.len(),
{
    match find_char(text, '\n') {
        None => {},
        Some(k) => {
            crate::text::lemma_find_char(text, '\n');
            lemma_push_text_frame(spec_emit_current(spec_push_part(s, text.take(k), st), color, width), text.skip(k + 1), st, color, width);
        },
    }
}

proof fn lemma_start_counters(s: RView, tag: MdTag, b: int, color: bool, width: int)
    requires
        counters_ok(s, b),
        b >= 0,
        tag matches MdTag::List(Some(n)) ==> n < 1_000_000_000,
    ensures
        counters_ok(spec_start(s, tag, color, width), b + 1),
{
    let s1 = if is_block_tag(tag) { spec_emit_current(s, color, width) } else { s };
    let s2 = spec_open_block(s1);
    let s3 = RView { depth: s2.depth + 1, ..s2 };
    assert(s3.list_stack == s.list_stack);
    assert(counters_ok(s3, b + 1));
    let r = spec_start_tag(s3, tag);
    assert forall|j: int| 0 <= j < r.list_stack.len() implies (#[trigger] r.list_stack[j]).1 <= 1_000_000_000 + b + 1 by {
        if j < s3.list_stack.len() {
            assert(s3.list_stack[j].1 <= 1_000_000_000 + b);
        }
    }
}

proof fn lemma_end_counters(s: RView, tag: MdTagEnd, b: int, color: bool, width: int, hl: Option<Seq<char>>)
    requires
        counters_ok(s, b),
        b >= 0,
    ensures
        counters_ok(spec_end(s, tag, color, width, hl), b + 1),
{
    let s1 = RView { depth: if s.depth > 0 { s.depth - 1 } else { 0 }, ..s };
    let r = spec_end(s, tag, color, width, hl);
    if tag == MdTagEnd::Link {
        let s2 = spec_pop_style(s1);
        if s2.link_stack.len() > 0 {
            let url = s2.link_stack.last();
            let s3 = RView { link_stack: s2.link_stack.drop_last(), ..s2 };
            lemma_push_text_frame(s3, seq![' ', '('] + url + seq![')'], Style { dim: true, ..s3.style }, color, width);
        }
    }
    assert forall|j: int| 0 <= j < r.list_stack.len() implies (#[trigger] r.list_stack[j]).1 <= 1_000_000_000 + b + 1 by {
        assert(s.list_stack[j].1 <= 1_000_000_000 + b);
    }
}

/// One event raises each depth by at most one and each list number by at most one.
pub proof fn lemma_event_counters(s: RView, ev: MdEvent, b: int, color: bool, width: int, hl: Option<Seq<char>>)
    requires
        counters_ok(s, b),
        b >= 0,
        ev matches MdEvent::Start(MdTag::List(Some(n))) ==> n < 1_000_000_000,
    ensures
        counters_ok(spec_event(s, ev, color, width, hl), b + 1),
{
    let r = spec_event(s, ev, color, width, hl);
    if s.table is Some {
        assert(r.list_stack == s.list_stack);
    } else {
        match ev {
            MdEvent::Text(t) => { lemma_push_text_frame(s, t@, s.style, color, width); },
            MdEvent::Code(t) => { lemma_push_text_frame(s, t@, Style { code: true, ..s.style }, color, width); },
            MdEvent::SoftBreak => { lemma_push_text_frame(s, seq![' '], s.style, color, width); },
            MdEvent::Html(t) | MdEvent::InlineHtml(t) => { lemma_push_text_frame(s, t@, s.style, color, width); },
            MdEvent::Start(tag) => { lemma_start_counters(s, tag, b, color, width); },
            MdEvent::End(tag) => { lemma_end_counters(s, tag, b, color, width, hl); },
            MdEvent::TaskListMarker(_) => {
                assert forall|j: int| 0 <= j < r.list_stack.len() implies (#[trigger] r.list_stack[j]).1 <= 1_000_000_000 + b + 1 by {
                    assert(s.list_stack[j].1 <= 1_000_000_000 + b);
                }
            },
            _ => {},
        }
    }
    assert forall|j: int| 0 <= j < r.list_stack.len() implies (#[trigger] r.list_stack[j]).1 <= 1_000_000_000 + b + 1 by {
        if r.list_stack == s.list_stack {
            assert(s.list_stack[j].1 <= 1_000_000_000 + b);
        }
    }
}

} // verus!
