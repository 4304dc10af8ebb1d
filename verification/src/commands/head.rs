//! `head`: the first lines of the input.

use vstd::prelude::*;
use crate::commands::Command;
use crate::commands::head_run::head_measure;
use crate::commands::head_run::head_run_invariant;
use crate::commands::head_run::lemma_head_run_end;
use crate::commands::head_run::lemma_head_run_start;
use crate::commands::head_run::lemma_head_run_step;
use crate::lines::NEWLINE;
use crate::lines::after_first_chunk;
use crate::lines::chunks;
use crate::lines::first_chunk;
use crate::lines::lemma_chunk_len_bounds;
use crate::lines::lemma_chunk_len_newline;
use crate::memory::Report;
use crate::memory::SourceView;
use crate::memory::Streams;
use crate::memory::StreamsView;
use crate::protocol::Action;
use crate::protocol::ActionView;
use crate::protocol::Event;
use crate::protocol::EventView;
use crate::protocol::Failure;
use crate::protocol::Outcome;
use crate::scanner::LineScanner;
use crate::scanner::chunk_ready;

verus! {

/// The arguments of `head`.
#[derive(Clone, Copy, Debug)]
pub struct HeadArgs {
    /// How many lines to write.
    pub n: u64,
}

/// The first `n` chunks of `input`, put end to end; all of `input` where it
/// has no more than `n`.
pub open spec fn head_output(input: Seq<u8>, n: nat) -> Seq<u8>
    decreases input.len(),
{
    if n == 0 || input.len() == 0 {
        Seq::empty()
    } else {
        proof {
            lemma_chunk_len_bounds(input);
        }
        first_chunk(input) + head_output(after_first_chunk(input), (n - 1) as nat)
    }
}

/// What `head` comes to on `input` with an output that takes everything.
/// Each whole line is written as soon as it is there; the end of the input
/// is looked for only when `n` lines have not been found before it, and
/// where looking for it fails, an unfinished last line is not written.
pub open spec fn head_report(input: SourceView, n: nat) -> Report
    decreases input.left.len(),
{
    if n == 0 {
        Report { output: Seq::empty(), outcome: Ok(0) }
    } else if input.left.contains(NEWLINE) {
        proof {
            lemma_chunk_len_bounds(input.left);
        }
        head_report(
            SourceView { left: after_first_chunk(input.left), broken: input.broken },
            (n - 1) as nat,
        ).preceded_by(first_chunk(input.left))
    } else if input.broken {
        Report { output: Seq::empty(), outcome: Err(Failure::Read) }
    } else {
        Report { output: input.left, outcome: Ok(0) }
    }
}

/// A `head` as a plain value.
pub struct HeadView {
    /// How many chunks are still to be written.
    pub remaining: nat,
    /// The bytes that were read and not yet written.
    pub pending: Seq<u8>,
    /// Whether the input was seen to end.
    pub closed: bool,
}

/// The state after an event was taken in: bytes that were read are pending,
/// and a read that gave none has closed the input.
pub open spec fn head_fed(state: HeadView, event: EventView) -> HeadView {
    match event {
        EventView::Data(bytes) => if bytes.len() == 0 {
            HeadView { closed: true, ..state }
        } else {
            HeadView { pending: state.pending + bytes, ..state }
        },
        _ => state,
    }
}

/// One step of `head`: give up on a failure. Else end where enough chunks
/// were written; write the next chunk where one is ready; end where the
/// input has ended; and read on otherwise.
pub open spec fn head_step(state: HeadView, event: EventView) -> (HeadView, ActionView) {
    let fed = head_fed(state, event);
    if let EventView::Failed(failure) = event {
        (state, ActionView::Abort(failure))
    } else if fed.remaining == 0 {
        (fed, ActionView::Exit(0))
    } else if chunk_ready(fed.pending, fed.closed) {
        (
            HeadView {
                remaining: (fed.remaining - 1) as nat,
                pending: after_first_chunk(fed.pending),
                closed: fed.closed,
            },
            ActionView::Write(first_chunk(fed.pending)),
        )
    } else if fed.closed {
        (fed, ActionView::Exit(0))
    } else {
        (fed, ActionView::Read)
    }
}

/// The `head` command.
pub struct Head {
    remaining: u64,
    scanner: LineScanner,
}

impl View for Head {
    type V = HeadView;

    closed spec fn view(&self) -> HeadView {
        HeadView {
            remaining: self.remaining as nat,
            pending: self.scanner.pending(),
            closed: self.scanner.closed(),
        }
    }
}

/// On an input that does not break, `head` writes the first `n` chunks.
pub proof fn lemma_head_report_healthy(input: Seq<u8>, n: nat)
    ensures
        head_report(SourceView { left: input, broken: false }, n) == (Report {
            output: head_output(input, n),
            outcome: Ok(0),
        }),
    decreases input.len(),
{
    let source = SourceView { left: input, broken: false };
    if n == 0 {
    } else if input.contains(NEWLINE) {
        lemma_chunk_len_bounds(input);
        lemma_head_report_healthy(after_first_chunk(input), (n - 1) as nat);
        assert(head_report(source, n).output =~= head_output(input, n));
    } else {
        lemma_chunk_len_newline(input);
        if input.len() > 0 {
            assert(first_chunk(input) =~= input);
            assert(after_first_chunk(input) =~= Seq::<u8>::empty());
            assert(head_output(after_first_chunk(input), (n - 1) as nat) =~= Seq::<u8>::empty());
            assert(head_output(input, n) =~= input);
        } else {
            assert(head_output(input, n) =~= input);
        }
    }
}

/// The first `n` chunks of `input` are what `head` writes; where `input` has
/// no more than `n` chunks, that is all of it.
pub proof fn lemma_head_output_chunks(input: Seq<u8>, n: nat)
    ensures
        head_output(input, n) == chunks(input).take(
            if n <= chunks(input).len() {
                n as int
            } else {
                chunks(input).len() as int
            },
        ).flatten(),
        chunks(input).len() <= n ==> head_output(input, n) == input,
    decreases input.len(),
{
    let all = chunks(input);
    let k: int = if n <= all.len() {
        n as int
    } else {
        all.len() as int
    };
    if n == 0 || input.len() == 0 {
        assert(all.take(k) =~= Seq::<Seq<u8>>::empty());
        assert(all.take(k).flatten() =~= Seq::<u8>::empty());
        assert(head_output(input, n) =~= Seq::<u8>::empty());
    } else {
        lemma_chunk_len_bounds(input);
        let rest = after_first_chunk(input);
        lemma_head_output_chunks(rest, (n - 1) as nat);
        let tail = chunks(rest);
        let taken = all.take(k);
        assert(taken.first() == first_chunk(input));
        assert(taken.drop_first() =~= tail.take(k - 1));
        assert(taken.flatten() == first_chunk(input) + tail.take(k - 1).flatten());
        if all.len() <= n {
            assert(first_chunk(input) + rest =~= input);
        }
    }
}

impl Command for Head {
    type Args = HeadArgs;

    fn new(args: HeadArgs) -> (head: Self)
        ensures
            head@ == (HeadView { remaining: args.n as nat, pending: Seq::empty(), closed: false }),
    {
        Head { remaining: args.n, scanner: LineScanner::new() }
    }

    fn step(&mut self, event: Event) -> (action: Action)
        ensures
            (final(self)@, action@) == head_step(old(self)@, event@),
    {
        match event {
            Event::Failed(failure) => {
                return Action::Abort(failure);
            },
            Event::Data(bytes) => {
                if bytes.len() == 0 {
                    self.scanner.close();
                } else {
                    self.scanner.feed(bytes.as_slice());
                }
            },
            _ => {},
        }
        if self.remaining == 0 {
            return Action::Exit(0);
        }
        match self.scanner.poll() {
            Some(chunk) => {
                self.remaining = self.remaining - 1;
                Action::Write(chunk)
            },
            None => {
                if self.scanner.is_closed() {
                    Action::Exit(0)
                } else {
                    Action::Read
                }
            },
        }
    }

    /// Writes the first `n` lines of the selected input, as far as the
    /// output takes them. Other inputs are left alone.
    fn run(streams: &mut Streams, args: HeadArgs) -> (outcome: Outcome)
        ensures
            ({
                let report = head_report(old(streams)@.input(), args.n as nat);
                &&& outcome == report.through(old(streams)@.room).outcome
                &&& final(streams)@.input().is_rest_of(old(streams)@.input())
                &&& final(streams)@ == (StreamsView {
                    turn: final(streams)@.turn,
                    ..old(streams)@.with_input(final(streams)@.input()).after_write(report.output)
                })
            }),
    {
        let ghost start = streams@;
        let ghost full = head_report(start.input(), args.n as nat);
        let ghost mut emitted: Seq<u8> = Seq::empty();
        let mut head = Head::new(args);
        let mut event = Event::Start;
        proof {
            lemma_head_run_start(start, head@);
        }
        loop
            invariant
                start == old(streams)@,
                full == head_report(start.input(), args.n as nat),
                head_run_invariant(start, full, streams@, head@, event@, emitted),
            decreases
                head_measure(head@, event@, streams@).0,
                head_measure(head@, event@, streams@).1,
                head_measure(head@, event@, streams@).2,
                head_measure(head@, event@, streams@).3,
                head_measure(head@, event@, streams@).4,
        {
            let ghost before = head@;
            let ghost world = streams@;
            let ghost lately = event@;
            let action = head.step(event);
            match streams.perform(&action) {
                Ok(next) => {
                    proof {
                        emitted = lemma_head_run_step(start, full, world, before, lately, emitted);
                    }
                    event = next;
                },
                Err(outcome) => {
                    proof {
                        lemma_head_run_end(start, full, world, before, lately, emitted);
                    }
                    return outcome;
                },
            }
        }
    }
}

} // verus!
