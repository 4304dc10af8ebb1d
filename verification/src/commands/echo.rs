//! `echo`: its arguments, a space between each two, and a newline after them.

use vstd::prelude::*;
use crate::commands::Command;
use crate::commands::texts;
use crate::decimal::SPACE;
use crate::lines::NEWLINE;
use crate::memory::Report;
use crate::memory::Streams;
use crate::protocol::Action;
use crate::protocol::ActionView;
use crate::protocol::Event;
use crate::protocol::EventView;
use crate::protocol::Failure;
use crate::protocol::Outcome;

verus! {

/// The arguments of `echo`.
#[derive(Debug)]
pub struct EchoArgs {
    /// The strings to write. They are bytes, and need not be text.
    pub strings: Vec<Vec<u8>>,
    /// The flag `-n`: where it is set, no newline follows the strings.
    pub new_line: bool,
}

/// The strings put end to end, with one space between each two.
pub open spec fn joined(strings: Seq<Seq<u8>>) -> Seq<u8>
    decreases strings.len(),
{
    if strings.len() == 0 {
        Seq::empty()
    } else if strings.len() == 1 {
        strings[0]
    } else {
        joined(strings.drop_last()).push(SPACE) + strings.last()
    }
}

/// What `echo` writes: the joined strings, and a newline unless it is
/// suppressed.
pub open spec fn echo_output(strings: Seq<Seq<u8>>, suppress_newline: bool) -> Seq<u8> {
    if suppress_newline {
        joined(strings)
    } else {
        joined(strings).push(NEWLINE)
    }
}

/// What `echo` comes to on an output that takes everything.
pub open spec fn echo_report(args: EchoArgs) -> Report {
    Report { output: echo_output(texts(args.strings@), args.new_line), outcome: Ok(0) }
}

/// An `echo` as a plain value: what it has yet to write, if it has not
/// written yet.
pub struct EchoView {
    pub unsent: Option<Seq<u8>>,
}

/// One step of `echo`: give up on a failure; else write everything at once,
/// and end after that.
pub open spec fn echo_step(state: EchoView, event: EventView) -> (EchoView, ActionView) {
    match event {
        EventView::Failed(failure) => (state, ActionView::Abort(failure)),
        _ => match state.unsent {
            Some(bytes) => (EchoView { unsent: None }, ActionView::Write(bytes)),
            None => (state, ActionView::Exit(0)),
        },
    }
}

/// Builds what `echo` writes for these arguments.
pub fn echo_bytes(args: &EchoArgs) -> (bytes: Vec<u8>)
    ensures
        bytes@ == echo_report(*args).output,
{
    let ghost strings = texts(args.strings@);
    let mut bytes: Vec<u8> = Vec::new();
    let mut i: usize = 0;
    assert(strings.take(0) =~= Seq::<Seq<u8>>::empty());
    while i < args.strings.len()
        invariant
            i <= args.strings@.len(),
            strings == texts(args.strings@),
            bytes@ == joined(strings.take(i as int)),
        decreases args.strings@.len() - i,
    {
        let ghost before = bytes@;
        if i > 0 {
            bytes.push(SPACE);
        }
        bytes.extend_from_slice(args.strings[i].as_slice());
        proof {
            let done = strings.take(i + 1);
            assert(done.drop_last() =~= strings.take(i as int));
            assert(done.last() == args.strings@[i as int]@);
            if i > 0 {
                assert(bytes@ =~= before.push(SPACE) + done.last());
            } else {
                assert(bytes@ =~= done[0]);
            }
        }
        i += 1;
    }
    assert(strings.take(i as int) =~= strings);
    if !args.new_line {
        bytes.push(NEWLINE);
    }
    bytes
}

/// The `echo` command.
pub struct Echo {
    unsent: Option<Vec<u8>>,
}

impl View for Echo {
    type V = EchoView;

    closed spec fn view(&self) -> EchoView {
        EchoView {
            unsent: match self.unsent {
                Some(bytes) => Some(bytes@),
                None => None,
            },
        }
    }
}

impl Command for Echo {
    type Args = EchoArgs;

    fn new(args: EchoArgs) -> (echo: Self)
        ensures
            echo@ == (EchoView { unsent: Some(echo_report(args).output) }),
    {
        Echo { unsent: Some(echo_bytes(&args)) }
    }

    fn step(&mut self, event: Event) -> (action: Action)
        ensures
            (final(self)@, action@) == echo_step(old(self)@, event@),
    {
        match event {
            Event::Failed(failure) => Action::Abort(failure),
            _ => match self.unsent.take() {
                Some(bytes) => Action::Write(bytes),
                None => Action::Exit(0),
            },
        }
    }

    /// Writes the arguments, as far as the output takes them.
    fn run(streams: &mut Streams, args: EchoArgs) -> (outcome: Outcome)
        ensures
            outcome == echo_report(args).through(old(streams)@.room).outcome,
            final(streams)@ == old(streams)@.after_write(echo_report(args).output),
    {
        let ghost start = streams@;
        let ghost full = echo_report(args).output;
        let mut echo = Echo::new(args);
        let mut event = Event::Start;
        loop
            invariant
                start == old(streams)@,
                full == echo_report(args).output,
                match event@ {
                    EventView::Start => streams@ == start && echo@.unsent == Some(full),
                    EventView::Failed(failure) => failure == Failure::Write && full.len() > start.room
                        && streams@ == start.after_write(full),
                    _ => full.len() <= start.room && streams@ == start.after_write(full)
                        && echo@.unsent.is_none(),
                },
            decreases
                if echo@.unsent is Some { 1nat } else { 0nat },
        {
            let action = echo.step(event);
            match streams.perform(&action) {
                Ok(next) => {
                    event = next;
                },
                Err(outcome) => {
                    return outcome;
                },
            }
        }
    }
}

} // verus!
