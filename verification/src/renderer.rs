//! Rendering Markdown events into terminal lines.

use syntect::easy::HighlightLines;
use syntect::highlighting::ThemeSet;
use syntect::parsing::SyntaxSet;
use syntect::util::{as_24_bit_terminal_escaped, LinesWithEndings};
use vstd::prelude::*;
use crate::markdown::{ColumnAlign, MdEvent, MdTag, MdTagEnd, list_starts_bounded, markdown_events, parse_markdown};
use crate::render_spec::{highlight_syntax, code_body, code_lang_of, code_lines, opt_string_v, trim_eol, trim_end_ws, trim_start_ws, ListV, RView, TableV, initial_view, spec_emit_current, spec_emit_heading, spec_emit_code_block, spec_emit_table, spec_end, spec_table_event, spec_event, spec_rule, spec_finish, spec_ends_with_blank, trim_end_blanks, underline_char, spec_next_item, spec_run, spec_render_events, counters_ok, lemma_event_counters, spec_start, is_block_tag, spec_open_block, spec_pop_style, spec_prefixes, spec_push_blank, spec_push_part, spec_push_style, spec_push_text, stable_line};
use crate::style::{Line, Span, Style, encode_line, spans_v};
use crate::table::{quote_prefix, table_lines, cells_v};
use crate::text::{split_on, spec_repeat, find_char, chars_of, copy_string, decimal_string, find_from, push_char, push_repeat, push_str, repeat_char, string_of_range};
use crate::themes::{documented_themes, fallback_theme, highlighted_code, load_highlighting, theme_names, token_has_syntax};
use crate::wrap::is_whitespace;
use crate::width::str_width;
use crate::wrap::{clone_spans, prefix_width, span_rows_v, wrap_with_prefix};

verus! {

struct ListCtx {
    ordered: bool,
    next: u64,
    marker: String,
}

struct TableState {
    aligns: Vec<ColumnAlign>,
    rows: Vec<Vec<String>>,
    cur_row: Vec<String>,
    cur_cell: String,
}

/// The views of output lines: text and liveness.
pub open spec fn lines_v(out: Seq<Line>) -> Seq<(Seq<char>, bool)> {
    out.map_values(|l: Line| (l.text@, l.live))
}

spec fn list_v(ls: Seq<ListCtx>) -> Seq<ListV> {
    ls.map_values(|c: ListCtx| (c.ordered, c.next, c.marker@))
}

spec fn strings_v(v: Seq<String>) -> Seq<Seq<char>> {
    v.map_values(|s: String| s@)
}

spec fn table_v(t: Option<TableState>) -> Option<TableV> {
    match t {
        None => None,
        Some(t) => Some((t.aligns@, cells_v(t.rows@), strings_v(t.cur_row@), t.cur_cell@)),
    }
}

spec fn starts_v(v: Seq<usize>) -> Seq<int> {
    v.map_values(|x: usize| x as int)
}

struct R {
    color: bool,
    width: usize,
    out: Vec<Line>,
    cur: Vec<Span>,
    style: Style,
    style_stack: Vec<Style>,
    depth: usize,
    block_starts: Vec<usize>,
    quote_depth: usize,
    list_stack: Vec<ListCtx>,
    in_code: bool,
    code_buf: String,
    code_lang: Option<String>,
    table: Option<TableState>,
    heading_level: Option<u8>,
    link_stack: Vec<String>,
}

impl R {
    spec fn view(&self) -> RView {
        RView {
            out: lines_v(self.out@),
            cur: spans_v(self.cur@),
            style: self.style,
            style_stack: self.style_stack@,
            depth: self.depth as int,
            block_starts: starts_v(self.block_starts@),
            quote_depth: self.quote_depth as int,
            list_stack: list_v(self.list_stack@),
            in_code: self.in_code,
            code_buf: self.code_buf@,
            code_lang: opt_string_v(self.code_lang),
            table: table_v(self.table),
            heading_level: self.heading_level,
            link_stack: strings_v(self.link_stack@),
        }
    }

    spec fn same_opts(&self, other: &R) -> bool {
        self.color == other.color && self.width == other.width
    }

    fn new(color: bool, width: usize) -> (r: R)
        ensures
            r.view() == initial_view(),
            r.color == color,
            r.width == width,
    {
        let r = R {
            color,
            width,
            out: Vec::new(),
            cur: Vec::new(),
            style: Style::plain_style(),
            style_stack: Vec::new(),
            depth: 0,
            block_starts: Vec::new(),
            quote_depth: 0,
            list_stack: Vec::new(),
            in_code: false,
            code_buf: String::new(),
            code_lang: None,
            table: None,
            heading_level: None,
            link_stack: Vec::new(),
        };
        assert(r.view() =~= initial_view());
        r
    }

    fn push_line(&mut self, text: String)
        ensures
            final(self).view() == (RView { out: old(self).view().out.push((text@, false)), ..old(self).view() }),
            final(self).same_opts(old(self)),
    {
        let ghost before = self.out@;
        self.out.push(Line { text, live: false });
        assert(lines_v(self.out@) =~= lines_v(before).push((text@, false)));
    }

    fn prefixes(&self) -> (r: (Vec<Span>, Vec<Span>))
        ensures
            (spans_v(r.0@), spans_v(r.1@)) == spec_prefixes(self.view()),
    {
        let mut first: Vec<Span> = Vec::new();
        let mut cont: Vec<Span> = Vec::new();
        let dim = Style { dim: true, ..Style::plain_style() };
        if self.quote_depth > 0 {
            let q = quote_prefix(self.quote_depth);
            first.push(Span { text: copy_string(&q), style: dim });
            cont.push(Span { text: q, style: dim });
        }
        let ghost q0 = spans_v(first@);
        assert(spans_v(cont@) == q0);
        let n = self.list_stack.len();
        if n > 0 {
            let level = n - 1;
            let ctx = &self.list_stack[level];
            if level > 0 {
                let mut ind = String::new();
                let mut i: usize = 0;
                while i < level
                    invariant
                        i <= level,
                        ind@ == crate::text::spec_repeat(' ', (2 * i) as nat),
                    decreases level - i,
                {
                    push_char(&mut ind, ' ');
                    push_char(&mut ind, ' ');
                    i += 1;
                    assert(ind@ =~= crate::text::spec_repeat(' ', (2 * i) as nat));
                }
                first.push(Span { text: copy_string(&ind), style: Style::plain_style() });
                cont.push(Span { text: ind, style: Style::plain_style() });
            }
            first.push(Span { text: copy_string(&ctx.marker), style: Style::plain_style() });
            let mw = str_width(ctx.marker.as_str());
            cont.push(Span { text: repeat_char(' ', mw), style: Style::plain_style() });
        }
        proof {
            let (f, c) = spec_prefixes(self.view());
            assert(spans_v(first@) =~= f);
            assert(spans_v(cont@) =~= c);
        }
        (first, cont)
    }

    fn push_rows(&mut self, rows: &Vec<Vec<Span>>)
        ensures
            final(self).view() == (RView {
                out: old(self).view().out + span_rows_v(rows@).map_values(|r: Seq<(Seq<char>, Style)>| stable_line(r, old(self).color)),
                ..old(self).view()
            }),
            final(self).same_opts(old(self)),
    {
        let ghost s0 = self.view();
        let ghost rv = span_rows_v(rows@);
        let ghost color = self.color;
        let mut k: usize = 0;
        while k < rows.len()
            invariant
                k <= rows.len(),
                rv == span_rows_v(rows@),
                color == self.color,
                self.same_opts(old(self)),
                self.view() == (RView {
                    out: s0.out + rv.take(k as int).map_values(|r: Seq<(Seq<char>, Style)>| stable_line(r, color)),
                    ..s0
                }),
            decreases rows.len() - k,
        {
            let text = encode_line(rows[k].as_slice(), self.color);
            assert(rv[k as int] == spans_v(rows@[k as int]@));
            self.push_line(text);
            k += 1;
            assert(rv.take(k as int).map_values(|r: Seq<(Seq<char>, Style)>| stable_line(r, color))
                =~= rv.take(k - 1).map_values(|r: Seq<(Seq<char>, Style)>| stable_line(r, color)).push(stable_line(rv[k - 1], color)));
        }
        assert(rv.take(k as int) == rv);
    }

    fn emit_current(&mut self)
        ensures
            final(self).view() == spec_emit_current(old(self).view(), old(self).color, old(self).width as int),
            final(self).same_opts(old(self)),
    {
        if self.cur.len() == 0 {
            return;
        }
        let (first, cont) = self.prefixes();
        let mut content: Vec<Span> = Vec::new();
        std::mem::swap(&mut content, &mut self.cur);
        assert(spans_v(self.cur@) =~= Seq::<(Seq<char>, Style)>::empty());
        let rows = wrap_with_prefix(&content, &first, &cont, self.width);
        self.push_rows(&rows);
    }

    fn open_block(&mut self)
        ensures
            final(self).view() == spec_open_block(old(self).view()),
            final(self).same_opts(old(self)),
    {
        if self.depth == 0 {
            let n = self.out.len();
            if n > 0 && self.out[n - 1].text.as_str().unicode_len() > 0 {
                self.push_line(String::new());
            }
            assert(self.view() == spec_push_blank(old(self).view()));
            let ghost before = self.block_starts@;
            let len = self.out.len();
            self.block_starts.push(len);
            assert(starts_v(self.block_starts@) =~= starts_v(before).push(len as int));
        }
    }

    fn push_style(&mut self, st: Style)
        ensures
            final(self).view() == spec_push_style(old(self).view(), st),
            final(self).same_opts(old(self)),
    {
        let cur = self.style;
        self.style_stack.push(cur);
        self.style = st;
    }

    fn pop_style(&mut self)
        ensures
            final(self).view() == spec_pop_style(old(self).view()),
            final(self).same_opts(old(self)),
    {
        if let Some(s) = self.style_stack.pop() {
            self.style = s;
        }
    }

    fn push_part(&mut self, chars: &Vec<char>, a: usize, b: usize, style: Style)
        requires
            a <= b <= chars.len(),
        ensures
            final(self).view() == spec_push_part(old(self).view(), chars@.subrange(a as int, b as int), style),
            final(self).same_opts(old(self)),
    {
        if a < b {
            let t = string_of_range(chars, a, b);
            let ghost before = self.cur@;
            let sp = Span { text: t, style };
            self.cur.push(sp);
            assert(spans_v(self.cur@) =~= spans_v(before).push((chars@.subrange(a as int, b as int), style)));
        }
    }

    fn push_text(&mut self, text: &str, style: Style)
        ensures
            final(self).view() == spec_push_text(old(self).view(), text@, style, old(self).color, old(self).width as int),
            final(self).same_opts(old(self)),
    {
        let chars = chars_of(text);
        let ghost color = self.color;
        let ghost width = self.width as int;
        let ghost goal = spec_push_text(self.view(), text@, style, color, width);
        assert(goal == spec_push_text(old(self).view(), text@, style, old(self).color, old(self).width as int));
        let mut pos: usize = 0;
        assert(chars@.skip(0) == chars@);
        loop
            invariant_except_break
                spec_push_text(self.view(), chars@.skip(pos as int), style, color, width) == goal,
            invariant
                pos <= chars.len(),
                color == self.color,
                width == self.width,
                self.same_opts(old(self)),
            ensures
                self.view() == goal,
                self.same_opts(old(self)),
            decreases chars.len() - pos,
        {
            let k = find_from(&chars, pos, '\n');
            let ghost rest = chars@.skip(pos as int);
            proof {
                crate::text::lemma_find_char(rest, '\n');
            }
            if k == chars.len() {
                assert(rest == chars@.subrange(pos as int, k as int));
                let ghost before = self.view();
                assert(find_char(rest, '\n') is None);
                assert(spec_push_text(before, rest, style, color, width) == spec_push_part(before, rest, style));
                self.push_part(&chars, pos, k, style);
                assert(self.view() == goal);
                break;
            }
            assert(rest.take(k - pos) == chars@.subrange(pos as int, k as int));
            assert(rest.skip(k - pos + 1) == chars@.skip(k + 1));
            self.push_part(&chars, pos, k, style);
            self.emit_current();
            pos = k + 1;
        }
    }

    fn next_item(&mut self)
        requires
            old(self).list_stack.len() > 0 ==> old(self).list_stack@.last().next < u64::MAX,
        ensures
            final(self).view() == (if old(self).view().list_stack.len() > 0 {
                RView {
                    list_stack: old(self).view().list_stack.update(
                        old(self).view().list_stack.len() - 1,
                        spec_next_item(old(self).view().list_stack.last()),
                    ),
                    ..old(self).view()
                }
            } else {
                old(self).view()
            }),
            final(self).same_opts(old(self)),
    {
        let ghost before = self.list_stack@;
        if let Some(mut ctx) = self.list_stack.pop() {
            let ghost oc = (ctx.ordered, ctx.next, ctx.marker@);
            assert(oc == list_v(before).last());
            if ctx.ordered {
                let mut m = decimal_string(ctx.next);
                push_char(&mut m, '.');
                push_char(&mut m, ' ');
                ctx.marker = m;
                ctx.next = ctx.next + 1;
            } else {
                let mut m = String::new();
                push_char(&mut m, '•');
                push_char(&mut m, ' ');
                ctx.marker = m;
            }
            let ghost c = (ctx.ordered, ctx.next, ctx.marker@);
            assert(c == spec_next_item(oc));
            self.list_stack.push(ctx);
            assert(list_v(self.list_stack@) =~= list_v(before).update(before.len() - 1, c));
        }
    }

    fn start(&mut self, tag: &MdTag)
        requires
            old(self).depth < usize::MAX,
            old(self).quote_depth < usize::MAX,
            old(self).list_stack.len() > 0 ==> old(self).list_stack@.last().next < u64::MAX,
        ensures
            final(self).view() == spec_start(old(self).view(), *tag, old(self).color, old(self).width as int),
            final(self).same_opts(old(self)),
    {
        let block = match tag {
            MdTag::Paragraph | MdTag::Heading(_) | MdTag::BlockQuote | MdTag::CodeBlock(_) | MdTag::List(_)
            | MdTag::Item | MdTag::Table(_) => true,
            _ => false,
        };
        assert(block == is_block_tag(*tag));
        if block {
            self.emit_current();
        }
        self.open_block();
        self.depth = self.depth + 1;
        let ghost s3 = self.view();
        match tag {
            MdTag::Heading(n) => {
                let n = *n;
                let st = Style { bold: true, ..self.style };
                self.push_style(st);
                self.heading_level = Some(n);
                if n >= 3 {
                    let mut t = repeat_char('#', n as usize);
                    push_char(&mut t, ' ');
                    let ghost before = self.cur@;
                    let sp = Span { text: t, style: self.style };
                    self.cur.push(sp);
                    assert(spans_v(self.cur@) =~= spans_v(before).push((crate::text::spec_repeat('#', n as nat).push(' '), self.style)));
                }
            },
            MdTag::BlockQuote => {
                self.quote_depth = self.quote_depth + 1;
            },
            MdTag::CodeBlock(info) => {
                self.in_code = true;
                self.code_buf = String::new();
                self.code_lang = lang_of(info);
            },
            MdTag::List(start) => {
                let start = *start;
                let ghost before = self.list_stack@;
                let next = match start {
                    Some(n) => n,
                    None => 1,
                };
                let ctx = ListCtx { ordered: start.is_some(), next, marker: String::new() };
                self.list_stack.push(ctx);
                assert(list_v(self.list_stack@) =~= list_v(before).push((start is Some, next, Seq::empty())));
            },
            MdTag::Item => {
                self.next_item();
            },
            MdTag::Emphasis => {
                let st = Style { italic: true, ..self.style };
                self.push_style(st);
            },
            MdTag::Strong => {
                let st = Style { bold: true, ..self.style };
                self.push_style(st);
            },
            MdTag::Strikethrough => {
                let st = Style { strike: true, ..self.style };
                self.push_style(st);
            },
            MdTag::Link(url) => {
                let ghost before = self.link_stack@;
                let ghost u = url@;
                self.link_stack.push(copy_string(url));
                assert(strings_v(self.link_stack@) =~= strings_v(before).push(u));
                let st = Style { link: true, ..self.style };
                self.push_style(st);
            },
            MdTag::Table(aligns) => {
                let aligns = copy_aligns(aligns);
                self.table = Some(TableState { aligns, rows: Vec::new(), cur_row: Vec::new(), cur_cell: String::new() });
                assert(table_v(self.table) =~= Some((aligns@, Seq::<Seq<Seq<char>>>::empty(), Seq::<Seq<char>>::empty(), Seq::<char>::empty())));
            },
            _ => {},
        }
    }

    fn emit_heading(&mut self)
        ensures
            final(self).view() == spec_emit_heading(old(self).view(), old(self).color, old(self).width as int),
            final(self).same_opts(old(self)),
    {
        let mut content: Vec<Span> = Vec::new();
        std::mem::swap(&mut content, &mut self.cur);
        assert(spans_v(self.cur@) =~= Seq::<(Seq<char>, Style)>::empty());
        if content.len() > 0 {
            let (first, cont) = self.prefixes();
            let pf = prefix_width(&first);
            let pc = prefix_width(&cont);
            let pw = if pf >= pc { pf } else { pc };
            let room: u128 = if self.width as u128 > pw { self.width as u128 - pw } else { 0 };
            let cw = prefix_width(&content);
            let m = if cw <= room { cw } else { room };
            let w: usize = if m >= 1 { m as usize } else { 1 };
            let rows = wrap_with_prefix(&content, &first, &cont, self.width);
            self.push_rows(&rows);
            let level = self.heading_level;
            if let Some(level) = level {
                let ch: Option<char> = if level == 1 { Some('═') } else if level == 2 { Some('─') } else { None };
                assert(ch == underline_char(level));
                if let Some(ch) = ch {
                    let mut spans = clone_spans(&cont);
                    let ghost sv = spans_v(spans@);
                    let u = repeat_char(ch, w);
                    spans.push(Span { text: u, style: Style { dim: true, ..Style::plain_style() } });
                    assert(spans_v(spans@) =~= sv.push((spec_repeat(ch, w as nat), crate::style::dim_style())));
                    let text = encode_line(spans.as_slice(), self.color);
                    self.push_line(text);
                }
            }
        }
        self.heading_level = None;
        self.pop_style();
    }

    fn emit_code_block(&mut self, opts: &RenderOpts)
        requires
            opts.spec_color() == old(self).color,
        ensures
            final(self).view() == spec_emit_code_block(old(self).view(), old(self).color, opts.code_theme()),
            final(self).same_opts(old(self)),
    {
        let ghost s0 = self.view();
        let mut code = String::new();
        std::mem::swap(&mut code, &mut self.code_buf);
        let mut lang: Option<String> = None;
        std::mem::swap(&mut lang, &mut self.code_lang);
        let mut body = chars_of(code.as_str());
        if body.len() == 0 {
            assert(self.view() =~= spec_emit_code_block(s0, self.color, opts.code_theme()));
            return;
        }
        let ghost s1 = self.view();
        let ghost cv = code@;
        if body[body.len() - 1] == '\n' {
            body.pop();
        }
        assert(body@ == code_body(cv));
        let mut pad = quote_prefix(self.quote_depth);
        push_repeat(&mut pad, ' ', 4);
        assert(spec_repeat(' ', 4) =~= seq![' ', ' ', ' ', ' ']);
        let ghost padv = pad@;
        let pieces = split_lines(&body);
        let use_hl = self.color && opts.highlight();
        let hl: Vec<Option<String>> = if use_hl { highlight_code(opts, code.as_str(), &lang) } else { Vec::new() };
        let ghost want = code_lines(s0, self.color, opts.code_theme());
        assert(want.len() == pieces@.len());
        let mut k: usize = 0;
        while k < pieces.len()
            invariant
                k <= pieces.len(),
                padv == pad@,
                self.same_opts(old(self)),
                self.view() == (RView { out: self.view().out, ..s1 }),
                self.view().out == s1.out + want.take(k as int).map_values(|l: Seq<char>| (padv + l, false)),
                want == code_lines(s0, self.color, opts.code_theme()),
                want.len() == pieces@.len(),
                strings_v(pieces@) == split_on(code_body(s0.code_buf), '\n'),
                use_hl == (self.color && opts.spec_highlight()),
                use_hl ==> opt_strings_v(hl@) == highlighted_code(s0.code_buf, highlight_syntax(s0.code_lang), opts.theme_view()),
            decreases pieces.len() - k,
        {
            let content: String = if use_hl {
                if k < hl.len() {
                    match &hl[k] {
                        Some(t) => trim_eol_string(t),
                        None => trim_eol_string(&pieces[k]),
                    }
                } else {
                    trim_eol_string(&pieces[k])
                }
            } else {
                copy_string(&pieces[k])
            };
            proof {
                assert(strings_v(pieces@)[k as int] == pieces@[k as int]@);
                if use_hl && k < hl.len() {
                    assert(opt_strings_v(hl@)[k as int] == opt_string_v(hl@[k as int]));
                }
            }
            assert(content@ == want[k as int]);
            let mut line = copy_string(&pad);
            push_str(&mut line, content.as_str());
            self.push_line(line);
            assert(want.take(k + 1).map_values(|l: Seq<char>| (padv + l, false))
                =~= want.take(k as int).map_values(|l: Seq<char>| (padv + l, false)).push((padv + content@, false)));
            k += 1;
        }
        assert(want.take(k as int) == want);
        assert(self.view() =~= spec_emit_code_block(s0, self.color, opts.code_theme()));
    }

    fn emit_table(&mut self)
        ensures
            final(self).view() == spec_emit_table(old(self).view()),
            final(self).same_opts(old(self)),
    {
        let t = self.table.take();
        match t {
            None => {},
            Some(t) => {
                let lines = table_lines(&t.aligns, &t.rows, self.quote_depth);
                let ghost s1 = self.view();
                let ghost lv = lines@.map_values(|l: String| l@);
                let mut k: usize = 0;
                while k < lines.len()
                    invariant
                        k <= lines.len(),
                        lv == lines@.map_values(|l: String| l@),
                        self.same_opts(old(self)),
                        self.view() == (RView {
                            out: s1.out + lv.take(k as int).map_values(|l: Seq<char>| (l, false)),
                            ..s1
                        }),
                    decreases lines.len() - k,
                {
                    let line = copy_string(&lines[k]);
                    self.push_line(line);
                    k += 1;
                    assert(lv.take(k as int).map_values(|l: Seq<char>| (l, false))
                        =~= lv.take(k - 1).map_values(|l: Seq<char>| (l, false)).push((lv[k - 1], false)));
                }
                assert(lv.take(k as int) == lv);
            },
        }
    }

    fn table_event(&mut self, ev: &MdEvent)
        ensures
            final(self).view() == spec_table_event(old(self).view(), *ev),
            final(self).same_opts(old(self)),
    {
        if let MdEvent::End(MdTagEnd::Table) = *ev {
            self.depth = if self.depth > 0 { self.depth - 1 } else { 0 };
            self.emit_table();
            return;
        }
        let t = self.table.take();
        match t {
            None => {},
            Some(mut t) => {
                let ghost t0 = table_v(Some(t));
                match ev {
                    MdEvent::Start(MdTag::TableRow) => {
                        t.cur_row = Vec::new();
                    },
                    MdEvent::Start(MdTag::TableCell) => {
                        t.cur_cell = String::new();
                    },
                    MdEvent::End(MdTagEnd::TableCell) => {
                        let mut cell = String::new();
                        std::mem::swap(&mut cell, &mut t.cur_cell);
                        let ghost before = t.cur_row@;
                        let ghost cv = cell@;
                        t.cur_row.push(cell);
                        assert(strings_v(t.cur_row@) =~= strings_v(before).push(cv));
                    },
                    MdEvent::End(MdTagEnd::TableRow) | MdEvent::End(MdTagEnd::TableHead) => {
                        let mut row: Vec<String> = Vec::new();
                        std::mem::swap(&mut row, &mut t.cur_row);
                        let ghost before = t.rows@;
                        let ghost rv = strings_v(row@);
                        t.rows.push(row);
                        assert(cells_v(t.rows@) =~= cells_v(before).push(rv));
                    },
                    MdEvent::Text(x) | MdEvent::Code(x) => {
                        push_str(&mut t.cur_cell, x.as_str());
                    },
                    MdEvent::SoftBreak | MdEvent::HardBreak => {
                        push_char(&mut t.cur_cell, ' ');
                    },
                    _ => {},
                }
                self.table = Some(t);
                assert(strings_v(Seq::<String>::empty()) =~= Seq::<Seq<char>>::empty());
            },
        }
    }

    fn end_list(&mut self)
        ensures
            final(self).view() == (if old(self).view().list_stack.len() > 0 {
                RView { list_stack: old(self).view().list_stack.drop_last(), ..old(self).view() }
            } else {
                old(self).view()
            }),
            final(self).same_opts(old(self)),
    {
        let ghost before = self.list_stack@;
        let _ = self.list_stack.pop();
        assert(list_v(self.list_stack@) =~= (if before.len() > 0 { list_v(before).drop_last() } else { list_v(before) }));
    }

    fn end_link(&mut self)
        ensures
            final(self).view() == ({
                let s2 = spec_pop_style(old(self).view());
                if s2.link_stack.len() > 0 {
                    let url = s2.link_stack.last();
                    let s3 = RView { link_stack: s2.link_stack.drop_last(), ..s2 };
                    spec_push_text(s3, seq![' ', '('] + url + seq![')'], Style { dim: true, ..s3.style }, old(self).color, old(self).width as int)
                } else {
                    s2
                }
            }),
            final(self).same_opts(old(self)),
    {
        self.pop_style();
        let ghost before = self.link_stack@;
        if let Some(url) = self.link_stack.pop() {
            assert(strings_v(self.link_stack@) =~= strings_v(before).drop_last());
            let mut t = String::new();
            push_char(&mut t, ' ');
            push_char(&mut t, '(');
            push_str(&mut t, url.as_str());
            push_char(&mut t, ')');
            let st = Style { dim: true, ..self.style };
            assert(t@ =~= seq![' ', '('] + url@ + seq![')']);
            self.push_text(t.as_str(), st);
        }
    }

    fn end(&mut self, tag: MdTagEnd, opts: &RenderOpts)
        requires
            opts.spec_color() == old(self).color,
        ensures
            final(self).view() == spec_end(old(self).view(), tag, old(self).color, old(self).width as int, opts.code_theme()),
            final(self).same_opts(old(self)),
    {
        self.depth = if self.depth > 0 { self.depth - 1 } else { 0 };
        match tag {
            MdTagEnd::Paragraph | MdTagEnd::Item => self.emit_current(),
            MdTagEnd::Heading => self.emit_heading(),
            MdTagEnd::BlockQuote => {
                self.quote_depth = if self.quote_depth > 0 { self.quote_depth - 1 } else { 0 };
            },
            MdTagEnd::CodeBlock => {
                self.in_code = false;
                self.emit_code_block(opts);
            },
            MdTagEnd::List => self.end_list(),
            MdTagEnd::Emphasis | MdTagEnd::Strong | MdTagEnd::Strikethrough => self.pop_style(),
            MdTagEnd::Link => self.end_link(),
            MdTagEnd::Table => self.emit_table(),
            _ => {},
        }
    }

    fn rule(&mut self)
        ensures
            final(self).view() == spec_rule(old(self).view(), old(self).color, old(self).width as int),
            final(self).same_opts(old(self)),
    {
        self.open_block();
        let sp = Span { text: repeat_char('─', self.width), style: Style { dim: true, ..Style::plain_style() } };
        let mut spans: Vec<Span> = Vec::new();
        spans.push(sp);
        assert(spans_v(spans@) =~= seq![(spec_repeat('─', self.width as nat), crate::style::dim_style())]);
        let text = encode_line(spans.as_slice(), self.color);
        self.push_line(text);
    }

    fn event(&mut self, ev: &MdEvent, opts: &RenderOpts)
        requires
            opts.spec_color() == old(self).color,
            old(self).depth < usize::MAX,
            old(self).quote_depth < usize::MAX,
            old(self).list_stack.len() > 0 ==> old(self).list_stack@.last().next < u64::MAX,
        ensures
            final(self).view() == spec_event(old(self).view(), *ev, old(self).color, old(self).width as int, opts.code_theme()),
            final(self).same_opts(old(self)),
    {
        if self.table.is_some() {
            self.table_event(ev);
            return;
        }
        match ev {
            MdEvent::Start(tag) => self.start(tag),
            MdEvent::End(tag) => self.end(*tag, opts),
            MdEvent::Text(t) => {
                if self.in_code {
                    push_str(&mut self.code_buf, t.as_str());
                } else {
                    let st = self.style;
                    self.push_text(t.as_str(), st);
                }
            },
            MdEvent::Code(t) => {
                let st = Style { code: true, ..self.style };
                self.push_text(t.as_str(), st);
            },
            MdEvent::SoftBreak => {
                let st = self.style;
                let mut sp = String::new();
                push_char(&mut sp, ' ');
                assert(sp@ =~= seq![' ']);
                self.push_text(sp.as_str(), st);
            },
            MdEvent::HardBreak => self.emit_current(),
            MdEvent::Rule => self.rule(),
            MdEvent::TaskListMarker(checked) => {
                let checked = *checked;
                let ghost before = self.list_stack@;
                if let Some(mut ctx) = self.list_stack.pop() {
                    let mut m = String::new();
                    push_char(&mut m, if checked { '☑' } else { '☐' });
                    push_char(&mut m, ' ');
                    ctx.marker = m;
                    let ghost c = (ctx.ordered, ctx.next, ctx.marker@);
                    self.list_stack.push(ctx);
                    assert(c.2 =~= (if checked { seq!['☑', ' '] } else { seq!['☐', ' '] }));
                    assert(list_v(self.list_stack@) =~= list_v(before).update(before.len() - 1, c));
                }
            },
            MdEvent::Html(t) | MdEvent::InlineHtml(t) => {
                let st = self.style;
                self.push_text(t.as_str(), st);
            },
            MdEvent::Other => {},
        }
    }

    fn finish_input(&mut self, final_flush: bool, md: &str)
        ensures
            final(self).view() == spec_finish(old(self).view(), final_flush, md@, old(self).color, old(self).width as int),
            final(self).same_opts(old(self)),
    {
        self.emit_current();
        if !final_flush && !ends_with_blank(md) {
            let n = self.block_starts.len();
            if n > 0 {
                let ghost s1 = self.view();
                let b = self.block_starts[n - 1];
                let start = if b <= self.out.len() { b } else { self.out.len() };
                assert(start as int == vstd::math::min(s1.block_starts.last(), s1.out.len() as int));
                let mut k = start;
                while k < self.out.len()
                    invariant
                        start <= k <= self.out.len(),
                        self.out.len() == s1.out.len(),
                        self.same_opts(old(self)),
                        self.view() == (RView {
                            out: Seq::new(s1.out.len(), |j: int| if start <= j < k { (s1.out[j].0, true) } else { s1.out[j] }),
                            ..s1
                        }),
                    decreases self.out.len() - k,
                {
                    let text = copy_string(&self.out[k].text);
                    let ghost before = self.out@;
                    assert(lines_v(before)[k as int] == s1.out[k as int]);
                    assert(text@ == s1.out[k as int].0);
                    self.out.set(k, Line { text, live: true });
                    assert(lines_v(self.out@) =~= lines_v(before).update(k as int, (s1.out[k as int].0, true)));
                    k += 1;
                    assert(lines_v(self.out@) =~= Seq::new(s1.out.len(), |j: int| if start <= j < k { (s1.out[j].0, true) } else { s1.out[j] }));
                }
                assert(self.view() =~= spec_finish(old(self).view(), final_flush, md@, old(self).color, old(self).width as int));
            }
        }
    }
}

fn copy_aligns(v: &Vec<ColumnAlign>) -> (r: Vec<ColumnAlign>)
    ensures
        r@ == v@,
{
    let mut r: Vec<ColumnAlign> = Vec::new();
    let mut i: usize = 0;
    while i < v.len()
        invariant
            i <= v.len(),
            r@ == v@.take(i as int),
        decreases v.len() - i,
    {
        r.push(v[i]);
        i += 1;
        assert(r@ == v@.take(i as int));
    }
    assert(v@.take(i as int) == v@);
    r
}

/// Whether the text ends in a blank line: after dropping trailing spaces and tabs
/// it is empty or ends with two newlines.
pub fn ends_with_blank(md: &str) -> (b: bool)
    ensures
        b == spec_ends_with_blank(md@),
{
    let chars = chars_of(md);
    let mut end = chars.len();
    assert(chars@.take(end as int) == chars@);
    while end > 0 && (chars[end - 1] == ' ' || chars[end - 1] == '\t')
        invariant
            end <= chars.len(),
            trim_end_blanks(chars@.take(end as int)) == trim_end_blanks(md@),
        decreases end,
    {
        assert(chars@.take(end as int).drop_last() == chars@.take(end - 1));
        end -= 1;
    }
    let ghost t = chars@.take(end as int);
    assert(trim_end_blanks(t) == t);
    end == 0 || (end >= 2 && chars[end - 1] == '\n' && chars[end - 2] == '\n')
}

/// Options of rendering: colors, output width, code highlighting, and the
/// syntax definitions and themes for it with the name of the theme to use.  The
/// syntaxes and the themes are syntect's built-in sets (only `new` makes the
/// options, and `load_highlighting` is the library's only source of them), and
/// the set holds a theme of that name.
pub struct RenderOpts {
    color: bool,
    width: usize,
    highlight: bool,
    syntaxes: SyntaxSet,
    themes: ThemeSet,
    theme_name: String,
}

impl RenderOpts {
    /// The theme set holds a theme of the chosen name.
    #[verifier::type_invariant]
    spec fn has_named_theme(self) -> bool {
        theme_names(self.themes).contains(self.theme_name@)
    }

    /// Whether colors are emitted.
    pub closed spec fn spec_color(&self) -> bool {
        self.color
    }

    /// The output width in columns.
    pub closed spec fn spec_width(&self) -> usize {
        self.width
    }

    /// Whether code blocks are highlighted (when colors are on).
    pub closed spec fn spec_highlight(&self) -> bool {
        self.highlight
    }

    /// The name of the theme held.
    pub closed spec fn theme_view(&self) -> Seq<char> {
        self.theme_name@
    }

    /// The theme that code blocks are highlighted with, when highlighting is on.
    pub open spec fn code_theme(&self) -> Option<Seq<char>> {
        if self.spec_highlight() { Some(self.theme_view()) } else { None }
    }

    /// Options with the width raised to at least one column, syntect's built-in
    /// syntaxes, and the theme named `theme_name` when syntect has one of that
    /// name, else `base16-ocean.dark`.
    pub fn new(color: bool, width: usize, highlight: bool, theme_name: &str) -> (r: RenderOpts)
        ensures
            r.spec_color() == color,
            r.spec_width() == (if width < 1 { 1 } else { width }),
            r.spec_highlight() == highlight,
            r.theme_view() == (if documented_themes().contains(theme_name@) { theme_name@ } else { fallback_theme() }),
    {
        let (syntaxes, themes, name) = load_highlighting(theme_name);
        RenderOpts { color, width: if width < 1 { 1 } else { width }, highlight, syntaxes, themes, theme_name: name }
    }

    /// Whether colors are emitted.
    pub fn color(&self) -> (r: bool)
        ensures
            r == self.spec_color(),
    {
        self.color
    }

    /// The output width in columns.
    pub fn width(&self) -> (r: usize)
        ensures
            r == self.spec_width(),
    {
        self.width
    }

    /// Whether code blocks are highlighted (when colors are on).
    pub fn highlight(&self) -> (r: bool)
        ensures
            r == self.spec_highlight(),
    {
        self.highlight
    }

    /// Renders for another width from now on; nothing else changes.
    pub fn set_width(&mut self, width: usize)
        ensures
            final(self).spec_width() == width,
            final(self).spec_color() == old(self).spec_color(),
            final(self).spec_highlight() == old(self).spec_highlight(),
            final(self).theme_view() == old(self).theme_view(),
    {
        proof { use_type_invariant(&*self); }
        self.width = width;
    }

    /// The name of the theme held.
    pub fn theme_name(&self) -> (r: &str)
        ensures
            r@ == self.theme_view(),
    {
        self.theme_name.as_str()
    }

}

/// The views of optional strings.
pub open spec fn opt_strings_v(v: Seq<Option<String>>) -> Seq<Option<Seq<char>>> {
    v.map_values(|o: Option<String>| opt_string_v(o))
}

/// `SyntaxSet::find_syntax_by_token` on the options' syntaxes (the built-in
/// ones): whether a syntax answers to the language token; the answer is named
/// `token_has_syntax` of the token.
#[verifier::external_body]
fn has_syntax(opts: &RenderOpts, token: &str) -> (r: bool)
    ensures
        r == token_has_syntax(token@),
{
    opts.syntaxes.find_syntax_by_token(token).is_some()
}

/// syntect's highlighting of a code block with the syntax that answers to
/// `token` (`SyntaxSet::find_syntax_by_token`) and the theme that the options'
/// built-in set holds under the options' theme name (`BTreeMap::get`):
/// `HighlightLines::highlight_line` on each of `LinesWithEndings`, turned into
/// 24-bit terminal escapes by `as_24_bit_terminal_escaped`, `None` for a line
/// syntect reports an error on.  The result is named `highlighted_code` of the
/// code, `Some(token)` and the theme's name.
#[verifier::external_body]
fn highlight_with_token(opts: &RenderOpts, code: &str, token: &str) -> (r: Vec<Option<String>>)
    requires
        token_has_syntax(token@),
        theme_names(opts.themes).contains(opts.theme_name@),
    ensures
        opt_strings_v(r@) == highlighted_code(code@, Some(token@), opts.theme_view()),
{
    let syntax = opts.syntaxes.find_syntax_by_token(token).unwrap();
    let theme = opts.themes.themes.get(opts.theme_name.as_str()).unwrap();
    let mut h = HighlightLines::new(syntax, theme);
    let mut out = Vec::new();
    for line in LinesWithEndings::from(code) {
        out.push(match h.highlight_line(line, &opts.syntaxes) {
            Ok(r) => Some(as_24_bit_terminal_escaped(&r[..], false)),
            Err(_) => None,
        });
    }
    out
}

/// The same highlighting with syntect's plain-text syntax
/// (`SyntaxSet::find_syntax_plain_text`) and the theme looked up by name as
/// above; the result is named `highlighted_code` of the code, `None` and the
/// theme's name.
#[verifier::external_body]
fn highlight_plain(opts: &RenderOpts, code: &str) -> (r: Vec<Option<String>>)
    requires
        theme_names(opts.themes).contains(opts.theme_name@),
    ensures
        opt_strings_v(r@) == highlighted_code(code@, None, opts.theme_view()),
{
    let theme = opts.themes.themes.get(opts.theme_name.as_str()).unwrap();
    let mut h = HighlightLines::new(opts.syntaxes.find_syntax_plain_text(), theme);
    let mut out = Vec::new();
    for line in LinesWithEndings::from(code) {
        out.push(match h.highlight_line(line, &opts.syntaxes) {
            Ok(r) => Some(as_24_bit_terminal_escaped(&r[..], false)),
            Err(_) => None,
        });
    }
    out
}

/// Highlights a code block: with the syntax of its language when one answers
/// to it, else as plain text; see `highlight_syntax`.
fn highlight_code(opts: &RenderOpts, code: &str, lang: &Option<String>) -> (r: Vec<Option<String>>)
    ensures
        opt_strings_v(r@) == highlighted_code(code@, highlight_syntax(opt_string_v(*lang)), opts.theme_view()),
{
    proof { use_type_invariant(opts); }
    match lang {
        Some(t) => {
            if has_syntax(opts, t.as_str()) {
                highlight_with_token(opts, code, t.as_str())
            } else {
                highlight_plain(opts, code)
            }
        },
        None => highlight_plain(opts, code),
    }
}

/// The language of a code block from its fence's info text; see `code_lang_of`.
fn lang_of(info: &Option<String>) -> (r: Option<String>)
    ensures
        opt_string_v(r) == code_lang_of(opt_string_v(*info)),
{
    match info {
        None => None,
        Some(t) => {
            let c = chars_of(t.as_str());
            let mut a: usize = 0;
            assert(c@.skip(0) == c@);
            while a < c.len() && is_whitespace(c[a])
                invariant
                    a <= c.len(),
                    c@ == t@,
                    trim_start_ws(c@.skip(a as int)) == trim_start_ws(t@),
                decreases c.len() - a,
            {
                assert(c@.skip(a as int).drop_first() == c@.skip(a + 1));
                a += 1;
            }
            assert(trim_start_ws(c@.skip(a as int)) == c@.skip(a as int));
            let mut b: usize = c.len();
            assert(c@.subrange(a as int, b as int) == c@.skip(a as int));
            while b > a && is_whitespace(c[b - 1])
                invariant
                    a <= b <= c.len(),
                    trim_end_ws(c@.subrange(a as int, b as int)) == trim_end_ws(trim_start_ws(t@)),
                decreases b,
            {
                assert(c@.subrange(a as int, b as int).drop_last() == c@.subrange(a as int, b - 1));
                assert(c@.subrange(a as int, b as int).last() == c@[b - 1]);
                b -= 1;
            }
            proof {
                let m = c@.subrange(a as int, b as int);
                if m.len() > 0 {
                    assert(m.last() == c@[b - 1]);
                }
                assert(trim_end_ws(m) == m);
            }
            if b > a { Some(string_of_range(&c, a, b)) } else { None }
        },
    }
}

/// The text without its trailing newlines and carriage returns.
fn trim_eol_string(t: &String) -> (r: String)
    ensures
        r@ == trim_eol(t@),
{
    let c = chars_of(t.as_str());
    let mut b: usize = c.len();
    assert(c@.take(b as int) == c@);
    while b > 0 && (c[b - 1] == '\n' || c[b - 1] == '\r')
        invariant
            b <= c.len(),
            c@ == t@,
            trim_eol(c@.take(b as int)) == trim_eol(t@),
        decreases b,
    {
        assert(c@.take(b as int).drop_last() == c@.take(b - 1));
        b -= 1;
    }
    proof {
        if b > 0 {
            assert(c@.take(b as int).last() == c@[b - 1]);
        }
    }
    string_of_range(&c, 0, b)
}

/// The pieces of `body` between newlines.
fn split_lines(body: &Vec<char>) -> (v: Vec<String>)
    ensures
        strings_v(v@) == split_on(body@, '\n'),
{
    let mut v: Vec<String> = Vec::new();
    let mut pos: usize = 0;
    assert(body@.skip(0) == body@);
    assert(strings_v(v@) =~= Seq::<Seq<char>>::empty());
    loop
        invariant_except_break
            split_on(body@, '\n') == strings_v(v@) + split_on(body@.skip(pos as int), '\n'),
        invariant
            pos <= body.len(),
        ensures
            strings_v(v@) == split_on(body@, '\n'),
        decreases body.len() - pos,
    {
        let k = find_from(body, pos, '\n');
        let ghost rest = body@.skip(pos as int);
        proof { crate::text::lemma_find_char(rest, '\n'); }
        let piece = string_of_range(body, pos, k);
        let ghost before = v@;
        v.push(piece);
        assert(strings_v(v@) =~= strings_v(before).push(piece@));
        if k == body.len() {
            assert(rest == body@.subrange(pos as int, k as int));
            assert(split_on(rest, '\n') == seq![rest]);
            assert(strings_v(v@) =~= strings_v(before) + seq![rest]);
            break;
        }
        assert(rest.take(k - pos) == body@.subrange(pos as int, k as int));
        assert(rest.skip(k - pos + 1) == body@.skip(k + 1));
        assert(split_on(rest, '\n') == seq![rest.take(k - pos)] + split_on(body@.skip(k + 1), '\n'));
        assert(strings_v(before) + (seq![rest.take(k - pos)] + split_on(body@.skip(k + 1), '\n'))
            =~= strings_v(v@) + split_on(body@.skip(k + 1), '\n'));
        pos = k + 1;
    }
    v
}

/// Renders parsed events: the lines that `spec_render_events` describes.
pub fn render_events(events: &Vec<MdEvent>, opts: &RenderOpts, final_flush: bool, md: &str) -> (lines: Vec<Line>)
    requires
        events@.len() <= isize::MAX,
        list_starts_bounded(events@),
    ensures
        lines_v(lines@) == spec_render_events(events@, opts.spec_color(), opts.spec_width() as int, opts.code_theme(), final_flush, md@),
{
    let mut r = R::new(opts.color(), opts.width());
    let mut i: usize = 0;
    let ghost color = opts.spec_color();
    let ghost width = opts.spec_width() as int;
    assert(events@.take(0) == Seq::<MdEvent>::empty());
    while i < events.len()
        invariant
            i <= events.len(),
            events@.len() <= isize::MAX,
            list_starts_bounded(events@),
            color == opts.spec_color(),
            r.color == color,
            r.width == width,
            r.view() == spec_run(events@.take(i as int), color, width, opts.code_theme()),
            counters_ok(r.view(), i as int),
        decreases events.len() - i,
    {
        let ev = &events[i];
        proof {
            lemma_event_counters(r.view(), *ev, i as int, color, width, opts.code_theme());
            assert(events@.take(i + 1).drop_last() == events@.take(i as int));
            assert(r.list_stack.len() > 0 ==> r.view().list_stack.last() == r.view().list_stack[r.list_stack.len() - 1]);
            assert(r.view().depth == r.depth as int);
            assert(r.view().quote_depth == r.quote_depth as int);
            assert(r.depth < usize::MAX);
            assert(r.quote_depth < usize::MAX);
        }
        r.event(ev, opts);
        i += 1;
    }
    assert(events@.take(i as int) == events@);
    r.finish_input(final_flush, md);
    r.out
}

/// Renders a Markdown document into terminal lines.  With `final_flush` every
/// line is stable; otherwise the last top-level block is live unless the text
/// ends in a blank line.
pub fn render(markdown: &str, opts: &RenderOpts, final_flush: bool) -> (lines: Vec<Line>)
    ensures
        lines_v(lines@) == spec_render_events(markdown_events(markdown@), opts.spec_color(), opts.spec_width() as int, opts.code_theme(), final_flush, markdown@),
{
    let events = parse_markdown(markdown);
    render_events(&events, opts, final_flush, markdown)
}

} // verus!
