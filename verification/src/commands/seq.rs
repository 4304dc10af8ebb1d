//! `seq`: the integers from a first to a last, one on each line.

use vstd::prelude::*;
use crate::commands::Command;
use crate::decimal::decimal;
use crate::decimal::render;
use crate::lines::NEWLINE;
use crate::memory::Report;
use crate::memory::Streams;
use crate::memory::fitting;
use crate::memory::lemma_write_progress;
use crate::protocol::Action;
use crate::protocol::ActionView;
use crate::protocol::Event;
use crate::protocol::EventView;
use crate::protocol::Failure;
use crate::protocol::Outcome;

verus! {

/// The arguments of `seq`: the first and the last number, both included.
#[derive(Clone, Copy, Debug)]
pub struct SeqArgs {
    pub start: u64,
    pub end: u64,
}

/// The line for the number `i`.
pub open spec fn seq_line(i: int) -> Seq<u8> {
    decimal(i as nat).push(NEWLINE)
}

/// The lines for `first`, `first + 1` and so on up to `last`; nothing where
/// `first` is above `last`.
pub open spec fn seq_output(first: int, last: int) -> Seq<u8>
    decreases last - first + 1,
{
    if first > last {
        Seq::empty()
    } else {
        seq_line(first) + seq_output(first + 1, last)
    }
}

/// The output is one line for each number from `first` to `last`, in
/// ascending order.
pub proof fn lemma_seq_output_lines(first: int, last: int)
    ensures
        seq_output(first, last) == Seq::new(
            if first <= last {
                (last - first + 1) as nat
            } else {
                0
            },
            |i: int| seq_line(first + i),
        ).flatten(),
    decreases last - first + 1,
{
    let count: nat = if first <= last {
        (last - first + 1) as nat
    } else {
        0
    };
    let lines = Seq::new(count, |i: int| seq_line(first + i));
    if first > last {
        assert(lines.flatten() =~= Seq::<u8>::empty());
    } else {
        lemma_seq_output_lines(first + 1, last);
        let rest = Seq::new((count - 1) as nat, |i: int| seq_line(first + 1 + i));
        assert(lines.drop_first() =~= rest);
        assert(lines.first() == seq_line(first));
    }
}

/// The numbers that a `seq` has yet to write: `first` up to `last`, none
/// where `first` is above `last`.
pub struct SequenceView {
    pub first: int,
    pub last: int,
}

/// One step of `seq`: give up on a failure; else write the line of the next
/// number, or end where none is left.
pub open spec fn seq_step(state: SequenceView, event: EventView) -> (SequenceView, ActionView) {
    match event {
        EventView::Failed(failure) => (state, ActionView::Abort(failure)),
        _ => if state.first <= state.last {
            (
                SequenceView { first: state.first + 1, last: state.last },
                ActionView::Write(seq_line(state.first)),
            )
        } else {
            (state, ActionView::Exit(0))
        },
    }
}

/// What `seq` comes to on an output that takes everything.
pub open spec fn seq_report(args: SeqArgs) -> Report {
    Report { output: seq_output(args.start as int, args.end as int), outcome: Ok(0) }
}

/// The `seq` command.
pub struct Sequence {
    next: u64,
    end: u64,
    done: bool,
}

impl View for Sequence {
    type V = SequenceView;

    closed spec fn view(&self) -> SequenceView {
        SequenceView {
            first: if self.done {
                self.next + 1
            } else {
                self.next as int
            },
            last: self.end as int,
        }
    }
}

impl Sequence {
    #[verifier::type_invariant]
    spec fn well_formed(self) -> bool {
        self.done ==> self.next == self.end
    }
}

impl Command for Sequence {
    type Args = SeqArgs;

    fn new(args: SeqArgs) -> (seq: Self)
        ensures
            seq@ == (SequenceView { first: args.start as int, last: args.end as int }),
    {
        Sequence { next: args.start, end: args.end, done: false }
    }

    fn step(&mut self, event: Event) -> (action: Action)
        ensures
            (final(self)@, action@) == seq_step(old(self)@, event@),
    {
        proof {
            use_type_invariant(&*self);
        }
        match event {
            Event::Failed(failure) => Action::Abort(failure),
            _ => {
                if self.done || self.next > self.end {
                    Action::Exit(0)
                } else {
                    let mut line: Vec<u8> = render(self.next);
                    line.push(NEWLINE);
                    if self.next == self.end {
                        self.done = true;
                    } else {
                        self.next = self.next + 1;
                    }
                    Action::Write(line)
                }
            },
        }
    }

    /// Writes the lines of the numbers asked for, as far as the output
    /// takes them.
    fn run(streams: &mut Streams, args: SeqArgs) -> (outcome: Outcome)
        ensures
            outcome == seq_report(args).through(old(streams)@.room).outcome,
            final(streams)@ == old(streams)@.after_write(seq_report(args).output),
    {
        let ghost start = streams@;
        let ghost full = seq_report(args).output;
        let ghost mut emitted: Seq<u8> = Seq::empty();
        let mut seq = Sequence::new(args);
        let mut event = Event::Start;
        proof {
            assert(emitted + full =~= full);
            assert(start.written + emitted =~= start.written);
        }
        loop
            invariant
                start == old(streams)@,
                full == seq_report(args).output,
                match event@ {
                    EventView::Failed(failure) => {
                        &&& failure == Failure::Write
                        &&& full.len() > start.room
                        &&& streams@ == start.after_write(full)
                    },
                    _ => {
                        &&& full == emitted + seq_output(seq@.first, seq@.last)
                        &&& emitted.len() <= start.room
                        &&& streams@ == start.after_write(emitted)
                    },
                },
            decreases seq@.last + 1 - seq@.first,
        {
            let ghost before = seq@;
            let action = seq.step(event);
            match streams.perform(&action) {
                Ok(next) => {
                    proof {
                        let line = seq_line(before.first);
                        let rest = seq_output(before.first + 1, before.last);
                        assert(full =~= emitted + line + rest);
                        lemma_write_progress(full, emitted, line, rest, start.room);
                        let taken = fitting(line, (start.room - emitted.len()) as nat);
                        assert(start.written + emitted + taken =~= start.written + (emitted + taken));
                        emitted = emitted + line;
                    }
                    event = next;
                },
                Err(outcome) => {
                    proof {
                        if action@ is Exit {
                            assert(emitted + seq_output(before.first, before.last) =~= emitted);
                        }
                    }
                    return outcome;
                },
            }
        }
    }
}

} // verus!
