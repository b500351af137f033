//! The terminal side of streaming: the output width, and what to write so that
//! stable lines are appended once and the live region is redrawn in place.

use vstd::prelude::*;
use crate::style::{Line, esc};
use crate::text::{decimal, decimal_string, push_char, push_str};

verus! {

/// `terminal_size::terminal_size`, reduced to the column count: the width of the
/// first of stdout, stderr, stdin that is a terminal, or `None`.  Which value
/// comes depends on the process's terminals; the Unix source gives a size only
/// when both its counts are positive, and that is stated.
#[verifier::external_body]
fn terminal_columns() -> (r: Option<u16>)
    ensures
        r matches Some(c) ==> c > 0,
{
    terminal_size::terminal_size().map(|(w, _)| w.0)
}

/// The width to use for a reported column count: the count when it is known and
/// positive, else 80.
pub open spec fn columns_or_default(cols: Option<u16>) -> nat {
    match cols {
        Some(c) => if c > 0 { c as nat } else { 80 },
        None => 80,
    }
}

/// The width to use for a reported column count; see `columns_or_default`.
pub fn width_or_default(cols: Option<u16>) -> (w: usize)
    ensures
        w == columns_or_default(cols),
        1 <= w <= 65535,
{
    match cols {
        Some(c) => if c > 0 { c as usize } else { 80 },
        None => 80,
    }
}

/// The terminal's width in columns, 80 when it cannot be told: the rule of
/// `columns_or_default` applied to whatever column count the terminal reports,
/// so a width from 1 to 65535.
pub fn detect_width() -> (w: usize)
    ensures
        exists|cols: Option<u16>| w == columns_or_default(cols),
        1 <= w <= 65535,
{
    let cols = terminal_columns();
    let w = width_or_default(cols);
    assert(w == columns_or_default(cols));
    w
}

/// The sequence that moves the cursor up `n` lines and clears to the end of the
/// screen: `ESC [ n A ESC [ J`, or nothing for zero lines.
pub open spec fn spec_erase_live(n: nat) -> Seq<char> {
    if n == 0 {
        Seq::empty()
    } else {
        seq![esc(), '['] + decimal(n) + seq!['A', esc(), '[', 'J']
    }
}

/// Moves up over `n` previously drawn lines and clears them.
pub fn erase_live(n: usize) -> (s: String)
    ensures
        s@ == spec_erase_live(n as nat),
{
    if n == 0 {
        String::new()
    } else {
        let mut s = String::new();
        push_char(&mut s, '\u{1b}');
        push_char(&mut s, '[');
        let d = decimal_string(n as u64);
        push_str(&mut s, d.as_str());
        push_char(&mut s, 'A');
        push_char(&mut s, '\u{1b}');
        push_char(&mut s, '[');
        push_char(&mut s, 'J');
        s
    }
}

/// The views of lines: text and liveness.
pub open spec fn frame_v(lines: Seq<Line>) -> Seq<(Seq<char>, bool)> {
    lines.map_values(|l: Line| (l.text@, l.live))
}

/// One past the last stable line (0 when every line is live).
pub open spec fn stable_end(lines: Seq<(Seq<char>, bool)>) -> nat
    decreases lines.len(),
{
    if lines.len() == 0 {
        0
    } else if !lines.last().1 {
        lines.len()
    } else {
        stable_end(lines.drop_last())
    }
}

/// The lines `lo..hi`, each followed by a newline.
pub open spec fn lines_text(lines: Seq<(Seq<char>, bool)>, lo: int, hi: int) -> Seq<char>
    decreases hi - lo,
{
    if hi <= lo {
        Seq::empty()
    } else {
        lines_text(lines, lo, hi - 1) + lines[hi - 1].0 + seq!['\n']
    }
}

/// `ESC [ ? 25 l`: hides the cursor.
pub open spec fn hide_cursor() -> Seq<char> {
    seq![esc(), '[', '?', '2', '5', 'l']
}

/// `ESC [ ? 25 h`: shows the cursor.
pub open spec fn show_cursor() -> Seq<char> {
    seq![esc(), '[', '?', '2', '5', 'h']
}

/// The redraw state: whether the live region is redrawn, how many lines are
/// committed, how many live lines were drawn last.
pub type TermV = (bool, nat, nat);

/// One frame: with redrawing, the cursor is hidden and the previous live lines
/// are erased; the stable lines not yet committed are written and committed;
/// with redrawing, the live lines are written and remembered, and the cursor is
/// shown again, so it is never left hidden between frames.
pub open spec fn spec_draw(t: TermV, lines: Seq<(Seq<char>, bool)>) -> (Seq<char>, TermV) {
    let (redraw, committed, prev_live) = t;
    let erase = if redraw && prev_live > 0 { spec_erase_live(prev_live) } else { Seq::empty() };
    let se = stable_end(lines);
    let from = if committed < se { committed } else { se };
    let stable = lines_text(lines, from as int, se as int);
    let new_committed = if se > committed { se } else { committed };
    if redraw {
        (hide_cursor() + erase + stable + lines_text(lines, se as int, lines.len() as int) + show_cursor(),
            (redraw, new_committed, (lines.len() - se) as nat))
    } else {
        (erase + stable, (redraw, new_committed, prev_live))
    }
}

/// The last frame: the live region is erased, every line not yet committed is
/// written, and all lines count as committed; with redrawing, the cursor is
/// hidden around it and shown again at its end.
pub open spec fn spec_finish_frame(t: TermV, lines: Seq<(Seq<char>, bool)>) -> (Seq<char>, TermV) {
    let (redraw, committed, prev_live) = t;
    let erase = if redraw && prev_live > 0 { spec_erase_live(prev_live) } else { Seq::empty() };
    let from = if committed < lines.len() { committed } else { lines.len() };
    let body = erase + lines_text(lines, from as int, lines.len() as int);
    (if redraw { hide_cursor() + body + show_cursor() } else { body },
        (redraw, lines.len(), if redraw && prev_live > 0 { 0 } else { prev_live }))
}

/// Appends `ESC [ ? 25` and `last` (`l` hides the cursor, `h` shows it).
fn push_cursor_seq(out: &mut String, last: char)
    ensures
        final(out)@ == old(out)@ + seq![esc(), '[', '?', '2', '5', last],
{
    push_char(out, '\u{1b}');
    push_char(out, '[');
    push_char(out, '?');
    push_char(out, '2');
    push_char(out, '5');
    push_char(out, last);
    assert(out@ =~= old(out)@ + seq![esc(), '[', '?', '2', '5', last]);
}

/// Redraw state of the terminal output.
pub struct Terminal {
    redraw: bool,
    committed: usize,
    prev_live: usize,
}

impl Terminal {
    /// The state as plain values.
    pub closed spec fn view(&self) -> TermV {
        (self.redraw, self.committed as nat, self.prev_live as nat)
    }

    /// Nothing drawn yet.
    pub fn new(redraw: bool) -> (t: Terminal)
        ensures
            t.view() == (redraw, 0nat, 0nat),
    {
        Terminal { redraw, committed: 0, prev_live: 0 }
    }

    /// The width to render for: the terminal's, as `detect_width` gives it.
    pub fn width(&self) -> (w: usize)
        ensures
            exists|cols: Option<u16>| w == columns_or_default(cols),
            1 <= w <= 65535,
    {
        detect_width()
    }

    fn write_lines(out: &mut String, lines: &[Line], lo: usize, hi: usize)
        requires
            lo <= hi <= lines.len(),
        ensures
            final(out)@ == old(out)@ + lines_text(frame_v(lines@), lo as int, hi as int),
    {
        let ghost base = old(out)@;
        let ghost fv = frame_v(lines@);
        let mut i = lo;
        while i < hi
            invariant
                lo <= i <= hi,
                hi <= lines.len(),
                fv == frame_v(lines@),
                out@ == base + lines_text(fv, lo as int, i as int),
            decreases hi - i,
        {
            push_str(out, lines[i].text.as_str());
            push_char(out, '\n');
            i += 1;
            assert(out@ =~= base + lines_text(fv, lo as int, i as int));
        }
    }

    /// The text that shows a new frame (see `spec_draw`); the state advances.
    pub fn draw(&mut self, lines: &[Line]) -> (s: String)
        ensures
            (s@, final(self).view()) == spec_draw(old(self).view(), frame_v(lines@)),
    {
        let ghost fv = frame_v(lines@);
        let mut out = String::new();
        if self.redraw {
            push_cursor_seq(&mut out, 'l');
        }
        if self.redraw && self.prev_live > 0 {
            let e = erase_live(self.prev_live);
            push_str(&mut out, e.as_str());
        }
        let mut se = lines.len();
        assert(fv.take(se as int) == fv);
        while se > 0 && lines[se - 1].live
            invariant
                se <= lines.len(),
                fv == frame_v(lines@),
                stable_end(fv.take(se as int)) == stable_end(fv),
            decreases se,
        {
            assert(fv.take(se as int).drop_last() == fv.take(se - 1));
            se -= 1;
        }
        proof {
            assert(fv.take(lines.len() as int) == fv);
            if se > 0 {
                assert(fv.take(se as int).last() == fv[se - 1]);
            }
        }
        let from = if self.committed < se { self.committed } else { se };
        Self::write_lines(&mut out, lines, from, se);
        if se > self.committed {
            self.committed = se;
        }
        if self.redraw {
            Self::write_lines(&mut out, lines, se, lines.len());
            self.prev_live = lines.len() - se;
            push_cursor_seq(&mut out, 'h');
        }
        out
    }

    /// The text that shows the final frame (see `spec_finish_frame`).
    pub fn finish(&mut self, lines: &[Line]) -> (s: String)
        ensures
            (s@, final(self).view()) == spec_finish_frame(old(self).view(), frame_v(lines@)),
    {
        let mut out = String::new();
        if self.redraw {
            push_cursor_seq(&mut out, 'l');
        }
        if self.redraw && self.prev_live > 0 {
            let e = erase_live(self.prev_live);
            push_str(&mut out, e.as_str());
            self.prev_live = 0;
        }
        let from = if self.committed < lines.len() { self.committed } else { lines.len() };
        Self::write_lines(&mut out, lines, from, lines.len());
        self.committed = lines.len();
        if self.redraw {
            push_cursor_seq(&mut out, 'h');
        }
        out
    }
}

proof fn lemma_lines_text_split(l: Seq<(Seq<char>, bool)>, lo: int, mid: int, hi: int)
    requires
        lo <= mid <= hi,
    ensures
        lines_text(l, lo, mid) + lines_text(l, mid, hi) == lines_text(l, lo, hi),
    decreases hi - mid,
{
    if hi > mid {
        lemma_lines_text_split(l, lo, mid, hi - 1);
    } else {
        assert(lines_text(l, lo, mid) + Seq::<char>::empty() == lines_text(l, lo, mid));
    }
}

proof fn lemma_lines_text_agree(a: Seq<(Seq<char>, bool)>, b: Seq<(Seq<char>, bool)>, hi: int)
    requires
        0 <= hi <= a.len(),
        hi <= b.len(),
        a.take(hi) == b.take(hi),
    ensures
        lines_text(a, 0, hi) == lines_text(b, 0, hi),
    decreases hi,
{
    if hi > 0 {
        assert(a.take(hi - 1) == a.take(hi).take(hi - 1));
        assert(b.take(hi - 1) == b.take(hi).take(hi - 1));
        lemma_lines_text_agree(a, b, hi - 1);
        assert(a[hi - 1] == a.take(hi)[hi - 1]);
        assert(b[hi - 1] == b.take(hi)[hi - 1]);
    }
}

/// Piped output (no redrawing) is append-only and complete: if `c` lines of an
/// earlier frame `a` are committed and the next frame `b` begins with those same
/// lines, then what was written plus what `draw` writes is exactly the first
/// lines of `b` up to its last stable line (or the committed ones), and what
/// `finish` writes completes exactly all of `b`; no escape sequence is written.
pub proof fn lemma_piped_output_is_the_document(a: Seq<(Seq<char>, bool)>, b: Seq<(Seq<char>, bool)>, c: nat, p: nat)
    requires
        c <= a.len(),
        c <= b.len(),
        a.take(c as int) == b.take(c as int),
    ensures
        ({
            let (text, t) = spec_draw((false, c, p), b);
            &&& lines_text(a, 0, c as int) + text == lines_text(b, 0, t.1 as int)
            &&& t.1 == (if stable_end(b) > c { stable_end(b) } else { c })
            &&& t.1 <= b.len()
        }),
        ({
            let (text, t) = spec_finish_frame((false, c, p), b);
            &&& lines_text(a, 0, c as int) + text == lines_text(b, 0, b.len() as int)
            &&& t.1 == b.len()
        }),
{
    lemma_lines_text_agree(a, b, c as int);
    lemma_stable_end_bound(b);
    let se = stable_end(b);
    if c < se {
        lemma_lines_text_split(b, 0, c as int, se as int);
    } else {
        assert(lines_text(b, se as int, se as int) == Seq::<char>::empty());
        assert(lines_text(b, 0, c as int) + Seq::<char>::empty() == lines_text(b, 0, c as int));
    }
    assert(Seq::<char>::empty() + lines_text(b, (if c < se { c } else { se }) as int, se as int)
        == lines_text(b, (if c < se { c } else { se }) as int, se as int));
    lemma_lines_text_split(b, 0, c as int, b.len() as int);
    assert(Seq::<char>::empty() + lines_text(b, c as int, b.len() as int) == lines_text(b, c as int, b.len() as int));
}

proof fn lemma_stable_end_bound(l: Seq<(Seq<char>, bool)>)
    ensures
        stable_end(l) <= l.len(),
    decreases l.len(),
{
    if l.len() > 0 && l.last().1 {
        lemma_stable_end_bound(l.drop_last());
    }
}

/// With redrawing, every frame (and the last one) hides the cursor first and
/// shows it again at its end, so the cursor is never left hidden between frames.
pub proof fn lemma_cursor_hidden_only_during_frame(t: TermV, lines: Seq<(Seq<char>, bool)>)
    requires
        t.0,
    ensures
        ({
            let text = spec_draw(t, lines).0;
            &&& text.len() >= 12
            &&& text.take(6) == hide_cursor()
            &&& text.skip(text.len() - 6) == show_cursor()
        }),
        ({
            let text = spec_finish_frame(t, lines).0;
            &&& text.len() >= 12
            &&& text.take(6) == hide_cursor()
            &&& text.skip(text.len() - 6) == show_cursor()
        }),
{
    let (text, _) = spec_draw(t, lines);
    let (text2, _) = spec_finish_frame(t, lines);
    let se = stable_end(lines);
    let committed = t.1;
    let prev_live = t.2;
    let erase = if prev_live > 0 { spec_erase_live(prev_live) } else { Seq::empty() };
    let from = if committed < se { committed } else { se };
    let mid = erase + lines_text(lines, from as int, se as int) + lines_text(lines, se as int, lines.len() as int);
    assert(text == hide_cursor() + mid + show_cursor());
    assert(text.take(6) =~= hide_cursor());
    assert(text.skip(text.len() - 6) =~= show_cursor());
    let from2 = if committed < lines.len() { committed } else { lines.len() };
    let body = erase + lines_text(lines, from2 as int, lines.len() as int);
    assert(text2 == hide_cursor() + body + show_cursor());
    assert(text2.take(6) =~= hide_cursor());
    assert(text2.skip(text2.len() - 6) =~= show_cursor());
}

/// Drawing never uncommits a line; finishing commits every line and, when
/// redrawing, leaves no live region on screen.
pub proof fn lemma_commit_monotone(t: TermV, lines: Seq<(Seq<char>, bool)>)
    ensures
        spec_draw(t, lines).1.1 >= t.1,
        spec_finish_frame(t, lines).1.1 == lines.len(),
        t.0 ==> spec_finish_frame(t, lines).1.2 == 0,
{
}

/// The text written and the state after drawing `frames` in order from state `t`.
pub open spec fn draw_frames(t: TermV, frames: Seq<Seq<(Seq<char>, bool)>>) -> (Seq<char>, TermV)
    decreases frames.len(),
{
    if frames.len() == 0 {
        (Seq::empty(), t)
    } else {
        let r = draw_frames(t, frames.drop_last());
        let d = spec_draw(r.1, frames.last());
        (r.0 + d.0, d.1)
    }
}

/// Every stable line that `frame` shows is the line of `doc` at the same place.
pub open spec fn stable_part_of(frame: Seq<(Seq<char>, bool)>, doc: Seq<(Seq<char>, bool)>) -> bool {
    &&& stable_end(frame) <= doc.len()
    &&& frame.take(stable_end(frame) as int) == doc.take(stable_end(frame) as int)
}

proof fn lemma_lines_text_agree_range(a: Seq<(Seq<char>, bool)>, b: Seq<(Seq<char>, bool)>, lo: int, hi: int)
    requires
        0 <= lo,
        hi <= a.len(),
        hi <= b.len(),
        forall|k: int| lo <= k < hi ==> a[k].0 == b[k].0,
    ensures
        lines_text(a, lo, hi) == lines_text(b, lo, hi),
    decreases hi - lo,
{
    if hi > lo {
        lemma_lines_text_agree_range(a, b, lo, hi - 1);
        assert(a[hi - 1].0 == b[hi - 1].0);
    }
}

proof fn lemma_draw_frames_piped(frames: Seq<Seq<(Seq<char>, bool)>>, doc: Seq<(Seq<char>, bool)>, p: nat)
    requires
        forall|i: int| 0 <= i < frames.len() ==> stable_part_of(#[trigger] frames[i], doc),
    ensures
        draw_frames((false, 0, p), frames).0 == lines_text(doc, 0, draw_frames((false, 0, p), frames).1.1 as int),
        draw_frames((false, 0, p), frames).1.1 <= doc.len(),
        draw_frames((false, 0, p), frames).1.0 == false,
        draw_frames((false, 0, p), frames).1.2 == p,
    decreases frames.len(),
{
    if frames.len() > 0 {
        let prev = frames.drop_last();
        assert forall|i: int| 0 <= i < prev.len() implies stable_part_of(#[trigger] prev[i], doc) by {
            assert(prev[i] == frames[i]);
        }
        lemma_draw_frames_piped(prev, doc, p);
        let r = draw_frames((false, 0, p), prev);
        let f = frames.last();
        assert(stable_part_of(frames[frames.len() - 1], doc));
        lemma_stable_end_bound(f);
        let c = r.1.1;
        let se = stable_end(f);
        let from = if c < se { c } else { se };
        assert forall|k: int| from <= k < se implies f[k].0 == doc[k].0 by {
            assert(f[k] == f.take(se as int)[k]);
            assert(doc[k] == doc.take(se as int)[k]);
        }
        lemma_lines_text_agree_range(f, doc, from as int, se as int);
        if c < se {
            lemma_lines_text_split(doc, 0, c as int, se as int);
        } else {
            assert(lines_text(f, se as int, se as int) == Seq::<char>::empty());
            assert(lines_text(doc, 0, c as int) + Seq::<char>::empty() == lines_text(doc, 0, c as int));
        }
    }
}

/// Piped output (no redrawing) of any number of frames writes the document: if
/// every stable line that each frame shows is the document's line at that place,
/// the frames drawn in order write exactly the document's first lines, each once
/// and in order, up to the last line committed; and finishing with the document
/// completes exactly the whole document.  Nothing else is written (no erase
/// sequence, no live line), and the count of drawn live lines stays as it was.
pub proof fn lemma_piped_frames_write_the_document(frames: Seq<Seq<(Seq<char>, bool)>>, doc: Seq<(Seq<char>, bool)>, p: nat)
    requires
        forall|i: int| 0 <= i < frames.len() ==> stable_part_of(#[trigger] frames[i], doc),
    ensures
        ({
            let r = draw_frames((false, 0, p), frames);
            &&& r.0 == lines_text(doc, 0, r.1.1 as int)
            &&& r.1.1 <= doc.len()
            &&& r.1.2 == p
            &&& r.0 + spec_finish_frame(r.1, doc).0 == lines_text(doc, 0, doc.len() as int)
            &&& spec_finish_frame(r.1, doc).1.1 == doc.len()
        }),
{
    lemma_draw_frames_piped(frames, doc, p);
    let r = draw_frames((false, 0, p), frames);
    let c = r.1.1;
    lemma_lines_text_split(doc, 0, c as int, doc.len() as int);
    assert(Seq::<char>::empty() + lines_text(doc, c as int, doc.len() as int) == lines_text(doc, c as int, doc.len() as int));
}

/// Consecutive frames grow their stable part: each frame's stable lines are the
/// first stable lines of the next.
pub open spec fn stable_parts_grow(frames: Seq<Seq<(Seq<char>, bool)>>) -> bool {
    forall|i: int| 0 <= i < frames.len() - 1 ==> {
        &&& stable_end(#[trigger] frames[i]) <= stable_end(frames[i + 1])
        &&& frames[i].take(stable_end(frames[i]) as int) == frames[i + 1].take(stable_end(frames[i]) as int)
    }
}

/// Piped output of consecutive frames whose stable parts grow: after any number
/// of frames, what was written is exactly the last frame's stable lines, each
/// once and in order; the committed count is the last frame's stable end, and
/// no live line or erase sequence is written.
pub proof fn lemma_piped_consecutive_frames(frames: Seq<Seq<(Seq<char>, bool)>>, p: nat)
    requires
        frames.len() > 0,
        stable_parts_grow(frames),
    ensures
        ({
            let r = draw_frames((false, 0, p), frames);
            let last = frames[frames.len() - 1];
            &&& r.0 == lines_text(last, 0, stable_end(last) as int)
            &&& r.1 == (false, stable_end(last), p)
        }),
    decreases frames.len(),
{
    let last = frames[frames.len() - 1];
    assert(frames.last() == last);
    lemma_stable_end_bound(last);
    let se = stable_end(last);
    if frames.len() == 1 {
        let prev = frames.drop_last();
        assert(prev.len() == 0);
        assert(draw_frames((false, 0, p), prev) == (Seq::<char>::empty(), (false, 0nat, p)));
        assert(Seq::<char>::empty() + (Seq::<char>::empty() + lines_text(last, 0, se as int)) == lines_text(last, 0, se as int));
    } else {
        let prev = frames.drop_last();
        assert forall|i: int| 0 <= i < prev.len() - 1 implies {
            &&& stable_end(#[trigger] prev[i]) <= stable_end(prev[i + 1])
            &&& prev[i].take(stable_end(prev[i]) as int) == prev[i + 1].take(stable_end(prev[i]) as int)
        } by {
            assert(prev[i] == frames[i]);
            assert(prev[i + 1] == frames[i + 1]);
            assert(stable_end(frames[i]) <= stable_end(frames[i + 1]));
        }
        lemma_piped_consecutive_frames(prev, p);
        let pl = prev[prev.len() - 1];
        assert(pl == frames[frames.len() - 2]);
        let c = stable_end(pl);
        assert(stable_end(frames[frames.len() - 2]) <= stable_end(frames[frames.len() - 1]));
        assert(frames[frames.len() - 2].take(c as int) == frames[frames.len() - 1].take(c as int));
        lemma_stable_end_bound(pl);
        assert forall|k: int| 0 <= k < c implies pl[k].0 == last[k].0 by {
            assert(pl[k] == pl.take(c as int)[k]);
            assert(last[k] == last.take(c as int)[k]);
        }
        lemma_lines_text_agree_range(pl, last, 0, c as int);
        lemma_lines_text_split(last, 0, c as int, se as int);
        if c == se {
            assert(lines_text(last, se as int, se as int) == Seq::<char>::empty());
        }
        assert(Seq::<char>::empty() + lines_text(last, c as int, se as int) == lines_text(last, c as int, se as int));
    }
}

} // verus!
