//! Why a run of `head` on streams in memory comes to what it is to come
//! to: what holds between two steps of the run, and that each step keeps it.

use vstd::prelude::*;
use crate::commands::head::HeadView;
use crate::commands::head::head_fed;
use crate::commands::head::head_report;
use crate::commands::head::head_step;
use crate::commands::measure_below;
use crate::commands::rank;
use crate::lines::NEWLINE;
use crate::lines::after_first_chunk;
use crate::lines::first_chunk;
use crate::lines::lemma_chunk_len_append;
use crate::lines::lemma_chunk_len_bounds;
use crate::lines::lemma_chunk_len_newline;
use crate::memory::Report;
use crate::memory::SourceView;
use crate::memory::StreamsView;
use crate::memory::after_read;
use crate::memory::fitting;
use crate::memory::lemma_write_progress;
use crate::memory::read_spec;
use crate::protocol::ActionView;
use crate::protocol::EventView;
use crate::protocol::Failure;
use crate::scanner::chunk_ready;

verus! {

/// What a run of `head` has yet to come to, between two of its steps: the
/// bytes pending, those that the event brings and those unread are the
/// input that is left.
pub(crate) open spec fn head_rest(head: HeadView, event: EventView, now: StreamsView) -> Report {
    match event {
        EventView::Failed(failure) => Report { output: Seq::empty(), outcome: Err(failure) },
        _ => head_report(
            SourceView {
                left: head_fed(head, event).pending + now.input().left,
                broken: now.input().broken,
            },
            head.remaining,
        ),
    }
}

/// What gets smaller from one step of a run to the next: the bytes unread,
/// whether the input is still open, the bytes not yet written, and how far
/// the event is from the end.
pub(crate) open spec fn head_measure(head: HeadView, event: EventView, now: StreamsView) -> (
    nat,
    nat,
    nat,
    nat,
    nat,
) {
    let fed = head_fed(head, event);
    (
        0,
        now.input().left.len(),
        if fed.closed {
            0nat
        } else {
            1nat
        },
        fed.pending.len(),
        rank(event),
    )
}

/// What holds between the steps of a run of `head` that began on `start`
/// and is to come to `full`, when `emitted` was written so far.
#[verifier::opaque]
pub(crate) open spec fn head_run_invariant(
    start: StreamsView,
    full: Report,
    now: StreamsView,
    head: HeadView,
    event: EventView,
    emitted: Seq<u8>,
) -> bool {
    let fed = head_fed(head, event);
    let input = now.input();
    &&& input.is_rest_of(start.input())
    &&& !(event is Flushed)
    &&& if event == EventView::Failed(Failure::Write) {
        &&& full.output.len() > start.room
        &&& now == (StreamsView { turn: now.turn, ..start.with_input(input).after_write(full.output) })
    } else {
        &&& emitted.len() <= start.room
        &&& now == (StreamsView { turn: now.turn, ..start.with_input(input).after_write(emitted) })
        &&& full == head_rest(head, event, now).preceded_by(emitted)
        &&& !(event is Failed) ==> {
            &&& fed.closed ==> input.left.len() == 0 && !input.broken
            &&& event is Data ==> !head.closed
        }
    }
}

/// The invariant holds before the first step.
pub(crate) proof fn lemma_head_run_start(start: StreamsView, head: HeadView)
    requires
        head.pending.len() == 0,
        !head.closed,
    ensures
        head_run_invariant(
            start,
            head_report(start.input(), head.remaining),
            start,
            head,
            EventView::Start,
            Seq::empty(),
        ),
{
    reveal(head_run_invariant);
    let full = head_report(start.input(), head.remaining);
    assert(start.input().left.skip(0) =~= start.input().left);
    assert(head.pending + start.input().left =~= start.input().left);
    assert(start.written + Seq::<u8>::empty() =~= start.written);
    assert(full.preceded_by(Seq::<u8>::empty()).output =~= full.output);
    assert(start.with_input(start.input()) == start);
}

/// Whether the step on `event` keeps the invariant, with `written` as what
/// was written after it, and brings the run nearer to its end.
pub(crate) open spec fn head_run_advances(
    start: StreamsView,
    full: Report,
    now: StreamsView,
    head: HeadView,
    event: EventView,
    written: Seq<u8>,
) -> bool {
    let (after, action) = head_step(head, event);
    let next = now.event_of(action)->Some_0;
    &&& head_run_invariant(start, full, now.after(action), after, next, written)
    &&& measure_below(head_measure(after, next, now.after(action)), head_measure(head, event, now))
}

/// A step that does not end the run keeps the invariant and brings the run
/// nearer to its end. The result is what was written after it.
pub(crate) proof fn lemma_head_run_step(
    start: StreamsView,
    full: Report,
    now: StreamsView,
    head: HeadView,
    event: EventView,
    emitted: Seq<u8>,
) -> (written: Seq<u8>)
    requires
        head_run_invariant(start, full, now, head, event, emitted),
        now.event_of(head_step(head, event).1) is Some,
    ensures
        head_run_advances(start, full, now, head, event, written),
{
    reveal(head_run_invariant);
    let (after, action) = head_step(head, event);
    let then = now.after(action);
    let input = now.input();
    let fed = head_fed(head, event);
    match action {
        ActionView::Write(chunk) => {
            lemma_head_report_chunk(fed.pending, fed.closed, input, fed.remaining);
            lemma_chunk_len_bounds(fed.pending);
            let rest = head_rest(after, EventView::Written, now);
            assert(head_rest(after, EventView::Written, then) == rest);
            assert(full.output =~= emitted + chunk + rest.output);
            lemma_write_progress(full.output, emitted, chunk, rest.output, start.room);
            let taken = fitting(chunk, (start.room - emitted.len()) as nat);
            assert(start.written + emitted + taken =~= start.written + (emitted + taken));
            assert(full.output =~= (emitted + chunk) + rest.output);
            assert(full == rest.preceded_by(emitted + chunk));
            emitted + chunk
        },
        _ => {
            let got = fitting(input.left, now.block());
            let unread = after_read(input, now.block());
            assert(got + unread.left =~= input.left);
            assert(then.input() == unread);
            let k = choose|k: int|
                0 <= k <= start.input().left.len() && input.left == #[trigger] start.input().left.skip(
                    k,
                );
            assert(unread.left =~= start.input().left.skip(k + got.len()));
            lemma_chunk_len_newline(fed.pending);
            if read_spec(input, now.block()).is_none() {
                assert(fed.pending + input.left =~= fed.pending);
            } else {
                assert(fed.pending + got + unread.left =~= fed.pending + input.left);
                if got.len() > 0 {
                    assert(head_fed(after, EventView::Data(got)).pending == fed.pending + got);
                }
            }
            emitted
        },
    }
}

/// A step that ends the run ends it as it was to end, with what was to be
/// written.
pub(crate) proof fn lemma_head_run_end(
    start: StreamsView,
    full: Report,
    now: StreamsView,
    head: HeadView,
    event: EventView,
    emitted: Seq<u8>,
)
    requires
        head_run_invariant(start, full, now, head, event, emitted),
        now.event_of(head_step(head, event).1) is None,
    ensures
        head_step(head, event).1 matches ActionView::Exit(status) ==> full.through(
            start.room,
        ).outcome == Ok::<u8, Failure>(status),
        head_step(head, event).1 matches ActionView::Abort(failure) ==> full.through(
            start.room,
        ).outcome == Err::<u8, Failure>(failure),
        now.input().is_rest_of(start.input()),
        now == (StreamsView { turn: now.turn, ..start.with_input(now.input()).after_write(full.output) }),
{
    reveal(head_run_invariant);
    let fed = head_fed(head, event);
    if head_step(head, event).1 is Exit {
        if fed.remaining > 0 {
            assert(fed.pending + now.input().left =~= Seq::<u8>::empty());
        }
        assert(full.output =~= emitted);
    } else if event != EventView::Failed(Failure::Write) {
        assert(full.output =~= emitted);
    }
}

/// Where a chunk is ready and chunks are still wanted, `head` writes that
/// chunk and goes on with one chunk less to write.
pub(crate) proof fn lemma_head_report_chunk(pending: Seq<u8>, closed: bool, input: SourceView, n: nat)
    requires
        n > 0,
        chunk_ready(pending, closed),
        closed ==> input.left.len() == 0 && !input.broken,
    ensures
        head_report(SourceView { left: pending + input.left, broken: input.broken }, n)
            == head_report(
            SourceView { left: after_first_chunk(pending) + input.left, broken: input.broken },
            (n - 1) as nat,
        ).preceded_by(first_chunk(pending)),
{
    let whole = pending + input.left;
    lemma_chunk_len_append(pending, input.left);
    lemma_chunk_len_bounds(pending);
    lemma_chunk_len_newline(pending);
    if pending.contains(NEWLINE) {
        let k = choose|k: int| 0 <= k < pending.len() && pending[k] == NEWLINE;
        assert(whole[k] == NEWLINE);
        assert(whole.contains(NEWLINE));
        assert(first_chunk(whole) =~= first_chunk(pending));
        assert(after_first_chunk(whole) =~= after_first_chunk(pending) + input.left);
    } else {
        assert(whole =~= pending);
        assert(first_chunk(pending) =~= pending);
        assert(after_first_chunk(pending) + input.left =~= Seq::<u8>::empty());
        let rest = SourceView { left: Seq::<u8>::empty(), broken: false };
        assert(!rest.left.contains(NEWLINE));
        assert(head_report(rest, (n - 1) as nat).output =~= Seq::<u8>::empty());
        assert(pending + Seq::<u8>::empty() =~= pending);
    }
}

} // verus!
