//! `yes`: the line `y`, again and again, for as long as the output takes it.

use vstd::prelude::*;
use crate::commands::Command;
use crate::commands::NoArgs;
use crate::lines::NEWLINE;
use crate::memory::Streams;
use crate::memory::StreamsView;
use crate::memory::fitting;
use crate::protocol::Action;
use crate::protocol::ActionView;
use crate::protocol::Event;
use crate::protocol::EventView;
use crate::protocol::Failure;
use crate::protocol::Outcome;

verus! {

/// The byte `y`.
pub const LETTER_Y: u8 = 121;

/// The status that `yes` ends with: it ends only because a write failed.
pub const YES_STATUS: u8 = 1;

/// The line that is repeated.
pub open spec fn yes_line() -> Seq<u8> {
    seq![LETTER_Y, NEWLINE]
}

/// The first `len` bytes of the endless repetition of the line.
pub open spec fn yes_output(len: nat) -> Seq<u8> {
    Seq::new(len, |i: int| yes_line()[i % 2])
}

/// The output is the line, and the line again: each two bytes more are one
/// more line.
pub proof fn lemma_yes_output_repeats(lines: nat)
    ensures
        yes_output(0) == Seq::<u8>::empty(),
        yes_output(2 * (lines + 1)) == yes_output(2 * lines) + yes_line(),
{
    assert(yes_output(0) =~= Seq::<u8>::empty());
    assert(yes_output(2 * (lines + 1)) =~= yes_output(2 * lines) + yes_line());
}

/// The next action of `yes`: stop once a write has failed, else write the
/// line once more.
pub open spec fn yes_step(event: EventView) -> ActionView {
    match event {
        EventView::Failed(_) => ActionView::Exit(YES_STATUS),
        _ => ActionView::Write(yes_line()),
    }
}

/// The `yes` command. It keeps no state.
pub struct Yes;

impl Command for Yes {
    type Args = NoArgs;

    fn new(_args: NoArgs) -> Self {
        Yes
    }

    fn step(&mut self, event: Event) -> (action: Action)
        ensures
            action@ == yes_step(event@),
    {
        match event {
            Event::Failed(_) => Action::Exit(YES_STATUS),
            _ => {
                let mut line: Vec<u8> = Vec::new();
                line.push(LETTER_Y);
                line.push(NEWLINE);
                assert(line@ =~= yes_line());
                Action::Write(line)
            },
        }
    }

    /// Fills the output with the repeated line and ends with the status of
    /// `yes` when no more of it is taken.
    fn run(streams: &mut Streams, args: NoArgs) -> (outcome: Outcome)
        ensures
            outcome == Ok::<u8, Failure>(YES_STATUS),
            final(streams)@ == (StreamsView {
                written: old(streams)@.written + yes_output(old(streams)@.room),
                room: 0,
                ..old(streams)@
            }),
    {
        let mut yes = Yes::new(args);
        let mut event = Event::Start;
        let ghost start = streams@;
        assert(start.written + yes_output(0) =~= start.written);
        loop
            invariant
                start == old(streams)@,
                streams@.room <= start.room,
                streams@ == (StreamsView {
                    written: start.written + yes_output((start.room - streams@.room) as nat),
                    room: streams@.room,
                    ..start
                }),
                match event@ {
                    EventView::Failed(_) => streams@.room == 0,
                    _ => (start.room - streams@.room) % 2 == 0,
                },
            decreases
                streams@.room,
                if event@ is Failed { 0nat } else { 1nat },
        {
            let ghost before = streams@;
            let action = yes.step(event);
            match streams.perform(&action) {
                Ok(next) => {
                    proof {
                        let done = (start.room - before.room) as nat;
                        let taken = fitting(yes_line(), before.room);
                        assert(yes_output(done) + taken =~= yes_output(done + taken.len()));
                        assert(streams@.written =~= start.written + yes_output(done + taken.len()));
                    }
                    event = next;
                },
                Err(outcome) => {
                    assert(streams@.written =~= start.written + yes_output(start.room));
                    return outcome;
                },
            }
        }
    }
}

} // verus!
