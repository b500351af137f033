//! The decisions of the streaming loop: what each input, timer tick or write
//! result does to the buffered document, and whether to redraw, draw the final
//! frame, or exit with which status.

use vstd::prelude::*;
use crate::text::push_str;

verus! {

/// What the program runs with: colors, a fixed width (or the terminal's),
/// highlighting, theme name, and whether the live region is redrawn in place.
pub struct RunConfig {
    pub color: bool,
    pub width: Option<usize>,
    pub highlight: bool,
    pub theme: String,
    pub redraw: bool,
}

/// A message from the input reader: decoded text, the end of input, or a read
/// error with its message.
pub enum InputMsg {
    Chunk(String),
    Eof,
    Error(String),
}

/// How a write to the output went.
#[derive(Clone, Copy, PartialEq, Eq, Debug, Structural)]
pub enum WriteOutcome {
    Written,
    /// The reader of the output went away.
    Broken,
    /// Any other write error.
    Failed,
}

/// What happened: an input message, the debounce interval passing without one,
/// the input channel closing, or a frame having been written.
pub enum AppEvent {
    Input(InputMsg),
    Timeout,
    Disconnected,
    Written(WriteOutcome),
}

/// What to do next.
#[derive(Clone, Copy, PartialEq, Eq, Debug, Structural)]
pub enum AppAction {
    /// Wait for the next event.
    Wait,
    /// Render the buffer as it stands and draw it.
    Draw,
    /// Render the buffer as final and finish the output.
    DrawFinal,
    /// Stop with this exit status.
    Exit(u8),
}

/// The loop's state: the text received so far, whether it changed since the
/// last frame, whether reading failed, whether the final frame is under way.
pub struct RunState {
    pub buf: String,
    pub dirty: bool,
    pub had_error: bool,
    pub finishing: bool,
}

/// The state as plain values.
#[verifier::ext_equal]
pub struct RunV {
    pub buf: Seq<char>,
    pub dirty: bool,
    pub had_error: bool,
    pub finishing: bool,
}

/// The view of a `RunState`.
pub open spec fn run_v(s: RunState) -> RunV {
    RunV { buf: s.buf@, dirty: s.dirty, had_error: s.had_error, finishing: s.finishing }
}

/// The text that an event adds to the buffer.
pub open spec fn event_text(ev: AppEvent) -> Seq<char> {
    match ev {
        AppEvent::Input(InputMsg::Chunk(t)) => t@,
        _ => Seq::empty(),
    }
}

/// One step.  A chunk is appended and marks the buffer changed; it is drawn at
/// once when the debounce interval has passed (`due`).  A tick draws a changed
/// buffer.  The end of input, a closed channel, or a read error (remembered)
/// starts the final frame.  After a frame: a broken output exits with 0, a failed
/// one with 1; a written frame clears the change mark, and the written final
/// frame exits with 1 after a read error, else 0.
pub open spec fn spec_step(s: RunV, ev: AppEvent, due: bool) -> (RunV, AppAction) {
    if s.finishing {
        match ev {
            AppEvent::Written(WriteOutcome::Written) => (s, AppAction::Exit(if s.had_error { 1 } else { 0 })),
            AppEvent::Written(WriteOutcome::Broken) => (s, AppAction::Exit(0)),
            AppEvent::Written(WriteOutcome::Failed) => (s, AppAction::Exit(1)),
            _ => (s, AppAction::Wait),
        }
    } else {
        match ev {
            AppEvent::Input(InputMsg::Chunk(t)) => {
                let s1 = RunV { buf: s.buf + t@, dirty: true, ..s };
                (s1, if due { AppAction::Draw } else { AppAction::Wait })
            },
            AppEvent::Input(InputMsg::Eof) | AppEvent::Disconnected => (RunV { finishing: true, ..s }, AppAction::DrawFinal),
            AppEvent::Input(InputMsg::Error(_)) => (RunV { finishing: true, had_error: true, ..s }, AppAction::DrawFinal),
            AppEvent::Timeout => (s, if s.dirty { AppAction::Draw } else { AppAction::Wait }),
            AppEvent::Written(WriteOutcome::Written) => (RunV { dirty: false, ..s }, AppAction::Wait),
            AppEvent::Written(WriteOutcome::Broken) => (s, AppAction::Exit(0)),
            AppEvent::Written(WriteOutcome::Failed) => (s, AppAction::Exit(1)),
        }
    }
}

impl RunState {
    /// Nothing received yet.
    pub fn new() -> (s: RunState)
        ensures
            run_v(s) == (RunV { buf: Seq::empty(), dirty: false, had_error: false, finishing: false }),
    {
        RunState { buf: String::new(), dirty: false, had_error: false, finishing: false }
    }

    /// Applies one event; see `spec_step`.
    pub fn step(&mut self, ev: AppEvent, due: bool) -> (a: AppAction)
        ensures
            (run_v(*final(self)), a) == spec_step(run_v(*old(self)), ev, due),
    {
        if self.finishing {
            return match ev {
                AppEvent::Written(WriteOutcome::Written) => AppAction::Exit(if self.had_error { 1 } else { 0 }),
                AppEvent::Written(WriteOutcome::Broken) => AppAction::Exit(0),
                AppEvent::Written(WriteOutcome::Failed) => AppAction::Exit(1),
                _ => AppAction::Wait,
            };
        }
        match ev {
            AppEvent::Input(InputMsg::Chunk(t)) => {
                push_str(&mut self.buf, t.as_str());
                self.dirty = true;
                if due { AppAction::Draw } else { AppAction::Wait }
            },
            AppEvent::Input(InputMsg::Eof) | AppEvent::Disconnected => {
                self.finishing = true;
                AppAction::DrawFinal
            },
            AppEvent::Input(InputMsg::Error(_)) => {
                self.finishing = true;
                self.had_error = true;
                AppAction::DrawFinal
            },
            AppEvent::Timeout => if self.dirty { AppAction::Draw } else { AppAction::Wait },
            AppEvent::Written(WriteOutcome::Written) => {
                self.dirty = false;
                AppAction::Wait
            },
            AppEvent::Written(WriteOutcome::Broken) => AppAction::Exit(0),
            AppEvent::Written(WriteOutcome::Failed) => AppAction::Exit(1),
        }
    }
}

/// The state after a run of events from the start (each with its `due` flag).
pub open spec fn spec_run_loop(evs: Seq<(AppEvent, bool)>) -> RunV
    decreases evs.len(),
{
    if evs.len() == 0 {
        RunV { buf: Seq::empty(), dirty: false, had_error: false, finishing: false }
    } else {
        spec_step(spec_run_loop(evs.drop_last()), evs.last().0, evs.last().1).0
    }
}

/// The chunks' text in order.
pub open spec fn chunks_text(evs: Seq<(AppEvent, bool)>) -> Seq<char>
    decreases evs.len(),
{
    if evs.len() == 0 {
        Seq::empty()
    } else {
        chunks_text(evs.drop_last()) + event_text(evs.last().0)
    }
}

/// The event is the end of reading (end of input, read error, or closed channel).
pub open spec fn ends_input(ev: AppEvent) -> bool {
    match ev {
        AppEvent::Input(InputMsg::Eof) | AppEvent::Input(InputMsg::Error(_)) | AppEvent::Disconnected => true,
        _ => false,
    }
}

/// However the input arrives in chunks, and whatever ticks and writes come in
/// between, the buffer holds exactly the concatenated chunks received before the
/// input ended; so the final frame renders the same document as rendering the
/// whole input at once.
pub proof fn lemma_buffer_is_whole_input(evs: Seq<(AppEvent, bool)>)
    requires
        forall|i: int| 0 <= i < evs.len() ==> !ends_input(#[trigger] evs[i].0),
    ensures
        spec_run_loop(evs).buf == chunks_text(evs),
        !spec_run_loop(evs).finishing,
    decreases evs.len(),
{
    if evs.len() > 0 {
        let prev = evs.drop_last();
        assert forall|i: int| 0 <= i < prev.len() implies !ends_input(#[trigger] prev[i].0) by {
            assert(prev[i] == evs[i]);
        }
        lemma_buffer_is_whole_input(prev);
        assert(!ends_input(evs[evs.len() - 1].0));
    }
}

/// Exit statuses: a broken output always exits with 0 and a failed write with 1;
/// after the final frame is written the status is 1 exactly when reading failed.
pub proof fn lemma_exit_status(s: RunV, ev: AppEvent, due: bool)
    ensures
        ev == AppEvent::Written(WriteOutcome::Broken) ==> spec_step(s, ev, due).1 == AppAction::Exit(0),
        ev == AppEvent::Written(WriteOutcome::Failed) ==> spec_step(s, ev, due).1 == AppAction::Exit(1),
        s.finishing && ev == AppEvent::Written(WriteOutcome::Written) ==> spec_step(s, ev, due).1 == AppAction::Exit(if s.had_error { 1 } else { 0 }),
        spec_step(s, ev, due).1 matches AppAction::Exit(_) ==> ev matches AppEvent::Written(_),
{
}

} // verus!
