//! Why a run of `cat` on streams in memory comes to what it is to come to:
//! what holds between two steps of the run, and that each step keeps it.

use vstd::prelude::*;
use crate::commands::cat::CatView;
use crate::commands::cat::cat_fed;
use crate::commands::cat::cat_report;
use crate::commands::cat::cat_step;
use crate::commands::cat::counted;
use crate::commands::cat::counter_after;
use crate::commands::cat::drained;
use crate::commands::cat::is_stdin_name;
use crate::commands::cat::numbered;
use crate::commands::cat::resolve;
use crate::commands::cat::source_report;
use crate::commands::data_len;
use crate::commands::measure_below;
use crate::commands::rank;
use crate::lines::NEWLINE;
use crate::lines::after_first_chunk;
use crate::lines::first_chunk;
use crate::lines::lemma_chunk_len_append;
use crate::lines::lemma_chunk_len_bounds;
use crate::lines::lemma_chunk_len_newline;
use crate::memory::Report;
use crate::memory::SourceView;
use crate::memory::StreamsView;
use crate::memory::after_read;
use crate::memory::fitting;
use crate::memory::lemma_write_progress;
use crate::memory::read_spec;
use crate::protocol::ActionView;
use crate::protocol::EventView;
use crate::protocol::Failure;
use crate::scanner::chunk_ready;

verus! {

/// The bytes of the open input that are not yet written: those pending,
/// those that the event brings, and those unread.
pub(crate) open spec fn cat_unwritten(cat: CatView, event: EventView, now: StreamsView) -> Seq<u8> {
    let fed = cat_fed(cat, event);
    if cat.number {
        fed.pending + now.input().left
    } else {
        match event {
            EventView::Data(bytes) => bytes + now.input().left,
            _ => now.input().left,
        }
    }
}

/// What the inputs after the open one come to, once the open one is done.
pub(crate) open spec fn cat_later(cat: CatView, counter: nat, now: StreamsView) -> Report {
    cat_report(
        cat.names.skip(cat.next as int),
        if now.opened is None {
            drained(now.stdin)
        } else {
            now.stdin
        },
        now.files,
        cat.number,
        counter,
    )
}

/// What a run of `cat` has yet to come to, between two of its steps.
pub(crate) open spec fn cat_rest(cat: CatView, event: EventView, now: StreamsView) -> Report {
    match event {
        EventView::Failed(failure) => Report { output: Seq::empty(), outcome: Err(failure) },
        EventView::Flushed => Report { output: Seq::empty(), outcome: Ok(0) },
        EventView::Start => cat_report(
            cat.names.skip(cat.next as int),
            now.stdin,
            now.files,
            cat.number,
            cat.counter,
        ),
        _ => {
            let left = cat_unwritten(cat, event, now);
            source_report(
                SourceView { left, broken: now.input().broken },
                cat.number,
                cat.counter,
            ).followed_by(cat_later(cat, counter_after(left, cat.number, cat.counter), now))
        },
    }
}

/// What gets smaller from one step of a run to the next: the inputs not yet
/// opened, the bytes unread, whether the open input is still open, the
/// bytes not yet written, and how far the event is from the end.
pub(crate) open spec fn cat_measure(cat: CatView, event: EventView, now: StreamsView) -> (
    nat,
    nat,
    nat,
    nat,
    nat,
) {
    let fed = cat_fed(cat, event);
    (
        (cat.names.len() - cat.next) as nat,
        now.input().left.len(),
        if fed.closed {
            0nat
        } else {
            1nat
        },
        fed.pending.len() + data_len(event),
        rank(event),
    )
}

/// What holds between the steps of a run of `cat` that began on `start` and
/// is to come to `full`, when `emitted` was written so far.
#[verifier::opaque]
pub(crate) open spec fn cat_run_invariant(
    start: StreamsView,
    full: Report,
    now: StreamsView,
    cat: CatView,
    event: EventView,
    emitted: Seq<u8>,
) -> bool {
    let fed = cat_fed(cat, event);
    &&& now.files == start.files
    &&& now.limits == start.limits
    &&& now.stdin.is_rest_of(start.stdin)
    &&& cat.next <= cat.names.len()
    &&& if event == EventView::Failed(Failure::Write) {
        &&& full.output.len() > start.room
        &&& now.written == start.after_write(full.output).written
        &&& now.room == start.after_write(full.output).room
    } else {
        &&& emitted.len() <= start.room
        &&& now.written == start.written + emitted
        &&& now.room == start.room - emitted.len()
        &&& full == cat_rest(cat, event, now).preceded_by(emitted)
        &&& !(event is Failed) ==> {
            &&& fed.closed ==> now.input().left.len() == 0 && !now.input().broken
            &&& !cat.number ==> fed.pending.len() == 0 && !fed.closed
            &&& event is Data ==> !cat.closed
            &&& event matches EventView::Data(bytes) ==> (bytes.len() == 0 ==> now.input().left.len() == 0
                && !now.input().broken)
        }
    }
}

/// The invariant holds before the first step.
pub(crate) proof fn lemma_cat_run_start(start: StreamsView, cat: CatView)
    requires
        cat.next == 0,
        !cat.closed,
        cat.pending.len() == 0,
    ensures
        cat_run_invariant(
            start,
            cat_report(cat.names, start.stdin, start.files, cat.number, cat.counter),
            start,
            cat,
            EventView::Start,
            Seq::empty(),
        ),
{
    reveal(cat_run_invariant);
    let full = cat_report(cat.names, start.stdin, start.files, cat.number, cat.counter);
    assert(start.stdin.left.skip(0) =~= start.stdin.left);
    assert(start.written + Seq::<u8>::empty() =~= start.written);
    assert(cat.names.skip(0) =~= cat.names);
    assert(full.preceded_by(Seq::<u8>::empty()).output =~= full.output);
}

/// Whether the step on `event` keeps the invariant, with `written` as what
/// was written after it, and brings the run nearer to its end.
pub(crate) open spec fn cat_run_advances(
    start: StreamsView,
    full: Report,
    now: StreamsView,
    cat: CatView,
    event: EventView,
    written: Seq<u8>,
) -> bool {
    let (after, action) = cat_step(cat, event);
    let next = now.event_of(action)->Some_0;
    &&& cat_run_invariant(start, full, now.after(action), after, next, written)
    &&& measure_below(cat_measure(after, next, now.after(action)), cat_measure(cat, event, now))
}

/// A step that writes keeps the invariant and brings the run nearer to its
/// end.
pub(crate) proof fn lemma_cat_run_write(
    start: StreamsView,
    full: Report,
    now: StreamsView,
    cat: CatView,
    event: EventView,
    emitted: Seq<u8>,
)
    requires
        cat_run_invariant(start, full, now, cat, event, emitted),
        cat_step(cat, event).1 is Write,
    ensures
        cat_run_advances(start, full, now, cat, event, emitted + cat_step(cat, event).1->Write_0),
{
    reveal(cat_run_invariant);
    let (after, action) = cat_step(cat, event);
    let bytes = action->Write_0;
    let then = now.after(action);
    let fed = cat_fed(cat, event);
    lemma_cat_write(cat, event, now);
    if cat.number {
        lemma_chunk_len_bounds(fed.pending);
    }
    let rest = cat_rest(after, EventView::Written, now);
    assert(cat_rest(after, EventView::Written, then) == rest);
    assert(full.output =~= emitted + bytes + rest.output);
    lemma_write_progress(full.output, emitted, bytes, rest.output, start.room);
    let taken = fitting(bytes, (start.room - emitted.len()) as nat);
    assert(start.written + emitted + taken =~= start.written + (emitted + taken));
    assert(full.output =~= (emitted + bytes) + rest.output);
    assert(full == rest.preceded_by(emitted + bytes));
}

/// A step that reads keeps the invariant and brings the run nearer to its
/// end.
pub(crate) proof fn lemma_cat_run_read(
    start: StreamsView,
    full: Report,
    now: StreamsView,
    cat: CatView,
    event: EventView,
    emitted: Seq<u8>,
)
    requires
        cat_run_invariant(start, full, now, cat, event, emitted),
        cat_step(cat, event).1 is Read,
    ensures
        cat_run_advances(start, full, now, cat, event, emitted),
{
    reveal(cat_run_invariant);
    let then = now.after(ActionView::Read);
    lemma_cat_read(cat, event, now);
    let got = fitting(now.input().left, now.block());
    if now.opened is None {
        let k = choose|k: int|
            0 <= k <= start.stdin.left.len() && now.stdin.left == #[trigger] start.stdin.left.skip(
                k,
            );
        assert(then.stdin.left =~= start.stdin.left.skip(k + got.len()));
    }
}

/// A step that leaves an input, for the next one or for the flush, keeps the
/// invariant and brings the run nearer to its end.
pub(crate) proof fn lemma_cat_run_leave(
    start: StreamsView,
    full: Report,
    now: StreamsView,
    cat: CatView,
    event: EventView,
    emitted: Seq<u8>,
)
    requires
        cat_run_invariant(start, full, now, cat, event, emitted),
        cat_step(cat, event).1 is OpenStdin || cat_step(cat, event).1 is OpenFile || cat_step(
            cat,
            event,
        ).1 is Flush,
    ensures
        cat_run_advances(start, full, now, cat, event, emitted),
{
    reveal(cat_run_invariant);
    let (after, action) = cat_step(cat, event);
    lemma_cat_source_done(cat, event, now);
    if !(action is Flush) {
        lemma_cat_open(after, now, now.after(action));
    }
}

/// A step that does not end the run keeps the invariant and brings the run
/// nearer to its end. The result is what was written after it.
pub(crate) proof fn lemma_cat_run_step(
    start: StreamsView,
    full: Report,
    now: StreamsView,
    cat: CatView,
    event: EventView,
    emitted: Seq<u8>,
) -> (written: Seq<u8>)
    requires
        cat_run_invariant(start, full, now, cat, event, emitted),
        now.event_of(cat_step(cat, event).1) is Some,
    ensures
        cat_run_advances(start, full, now, cat, event, written),
{
    match cat_step(cat, event).1 {
        ActionView::Write(bytes) => {
            lemma_cat_run_write(start, full, now, cat, event, emitted);
            emitted + bytes
        },
        ActionView::Read => {
            lemma_cat_run_read(start, full, now, cat, event, emitted);
            emitted
        },
        _ => {
            lemma_cat_run_leave(start, full, now, cat, event, emitted);
            emitted
        },
    }
}

/// A step that ends the run ends it as it was to end, with what was to be
/// written.
pub(crate) proof fn lemma_cat_run_end(
    start: StreamsView,
    full: Report,
    now: StreamsView,
    cat: CatView,
    event: EventView,
    emitted: Seq<u8>,
)
    requires
        cat_run_invariant(start, full, now, cat, event, emitted),
        now.event_of(cat_step(cat, event).1) is None,
    ensures
        cat_step(cat, event).1 is Exit || cat_step(cat, event).1 is Abort,
        cat_step(cat, event).1 matches ActionView::Exit(status) ==> full.through(start.room).outcome
            == Ok::<u8, Failure>(status),
        cat_step(cat, event).1 matches ActionView::Abort(failure) ==> full.through(
            start.room,
        ).outcome == Err::<u8, Failure>(failure),
        now.written == start.after_write(full.output).written,
        now.room == start.after_write(full.output).room,
        now.files == start.files,
        now.limits == start.limits,
        now.stdin.is_rest_of(start.stdin),
{
    reveal(cat_run_invariant);
    if event != EventView::Failed(Failure::Write) {
        assert(full.output =~= emitted);
    }
}

/// Where a chunk is ready, numbering writes that chunk and goes on behind it.
pub(crate) proof fn lemma_source_report_chunk(pending: Seq<u8>, closed: bool, input: SourceView, counter: nat)
    requires
        chunk_ready(pending, closed),
        closed ==> input.left.len() == 0 && !input.broken,
    ensures
        source_report(SourceView { left: pending + input.left, broken: input.broken }, true, counter)
            == source_report(
            SourceView { left: after_first_chunk(pending) + input.left, broken: input.broken },
            true,
            counted(first_chunk(pending), counter),
        ).preceded_by(numbered(first_chunk(pending), counter)),
        counter_after(pending + input.left, true, counter) == counter_after(
            after_first_chunk(pending) + input.left,
            true,
            counted(first_chunk(pending), counter),
        ),
{
    let whole = pending + input.left;
    lemma_chunk_len_append(pending, input.left);
    lemma_chunk_len_bounds(pending);
    lemma_chunk_len_newline(pending);
    if pending.contains(NEWLINE) {
        let k = choose|k: int| 0 <= k < pending.len() && pending[k] == NEWLINE;
        assert(whole[k] == NEWLINE);
        assert(whole.contains(NEWLINE));
        assert(first_chunk(whole) =~= first_chunk(pending));
        assert(after_first_chunk(whole) =~= after_first_chunk(pending) + input.left);
    } else {
        assert(whole =~= pending);
        assert(first_chunk(pending) =~= pending);
        assert(after_first_chunk(pending) + input.left =~= Seq::<u8>::empty());
        assert(after_first_chunk(whole) =~= Seq::<u8>::empty());
        let rest = SourceView { left: Seq::<u8>::empty(), broken: false };
        assert(!rest.left.contains(NEWLINE));
        assert(numbered(pending, counter) + Seq::<u8>::empty() =~= numbered(pending, counter));
    }
}

/// A write of `cat` is the start of what was to come, and the rest is still
/// to come after it.
pub(crate) proof fn lemma_cat_write(cat: CatView, event: EventView, now: StreamsView)
    requires
        cat_step(cat, event).1 is Write,
        !(event is Failed),
        cat_fed(cat, event).closed ==> now.input().left.len() == 0 && !now.input().broken,
        !cat.number ==> cat_fed(cat, event).pending.len() == 0,
    ensures
        cat_rest(cat, event, now) == cat_rest(cat_step(cat, event).0, EventView::Written, now).preceded_by(
            cat_step(cat, event).1->Write_0,
        ),
{
    let fed = cat_fed(cat, event);
    let after = cat_step(cat, event).0;
    let bytes = cat_step(cat, event).1->Write_0;
    let input = now.input();
    if cat.number {
        lemma_source_report_chunk(fed.pending, fed.closed, input, cat.counter);
        let left = after.pending + input.left;
        let here = source_report(SourceView { left, broken: input.broken }, true, after.counter);
        let later = cat_later(after, counter_after(left, true, after.counter), now);
        assert(here.followed_by(later).preceded_by(bytes).output =~= here.preceded_by(
            bytes,
        ).followed_by(later).output);
    } else {
        assert(cat_unwritten(cat, event, now) =~= bytes + input.left);
        assert(cat_unwritten(after, EventView::Written, now) =~= input.left);
        let here = source_report(SourceView { left: input.left, broken: input.broken }, false, cat.counter);
        let later = cat_later(after, cat.counter, now);
        assert(here.followed_by(later).preceded_by(bytes).output =~= here.preceded_by(
            bytes,
        ).followed_by(later).output);
    }
}

/// A read of `cat` changes nothing of what is to come: the bytes that it
/// brings were to be read, and a read that fails was to fail.
pub(crate) proof fn lemma_cat_read(cat: CatView, event: EventView, now: StreamsView)
    requires
        cat_step(cat, event).1 is Read,
        !(event is Failed),
        !cat.number ==> cat_fed(cat, event).pending.len() == 0,
    ensures
        ({
            let next = now.event_of(ActionView::Read)->Some_0;
            let after = now.after(ActionView::Read);
            &&& cat_rest(cat, event, now) == cat_rest(cat_step(cat, event).0, next, after)
            &&& next matches EventView::Data(bytes) ==> (bytes.len() == 0 ==> after.input().left.len()
                == 0 && !after.input().broken)
        }),
{
    let fed = cat_fed(cat, event);
    let input = now.input();
    let next = now.event_of(ActionView::Read)->Some_0;
    let after = now.after(ActionView::Read);
    let got = fitting(input.left, now.block());
    assert(got + after_read(input, now.block()).left =~= input.left);
    assert(after.input() == after_read(input, now.block()));
    lemma_chunk_len_newline(fed.pending);
    let stepped = cat_step(cat, event).0;
    if read_spec(input, now.block()).is_none() {
        assert(fed.pending + input.left =~= fed.pending);
        assert(cat_unwritten(cat, event, now) =~= fed.pending);
        assert(cat_rest(cat, event, now).output =~= cat_rest(stepped, next, after).output);
    } else {
        assert(cat_unwritten(cat, event, now) =~= cat_unwritten(stepped, next, after));
        if now.opened is None {
            assert(drained(now.stdin) == drained(after.stdin));
        }
        assert(cat_later(cat, cat.counter, now) == cat_later(stepped, stepped.counter, after));
        assert(cat_rest(cat, event, now).output =~= cat_rest(stepped, next, after).output);
    }
}

/// Where `cat` leaves an input, that input has given everything, and what
/// is to come is what the inputs after it come to.
pub(crate) proof fn lemma_cat_source_done(cat: CatView, event: EventView, now: StreamsView)
    requires
        cat_step(cat, event).1 is OpenStdin || cat_step(cat, event).1 is OpenFile || cat_step(
            cat,
            event,
        ).1 is Flush,
        cat_fed(cat, event).closed ==> now.input().left.len() == 0 && !now.input().broken,
        !cat.number ==> cat_fed(cat, event).pending.len() == 0,
        event matches EventView::Data(bytes) ==> (bytes.len() == 0 ==> now.input().left.len() == 0
            && !now.input().broken),
    ensures
        cat_rest(cat, event, now) == cat_report(
            cat.names.skip(cat.next as int),
            now.stdin,
            now.files,
            cat.number,
            cat.counter,
        ),
{
    if !(event is Start) {
        let left = cat_unwritten(cat, event, now);
        assert(left =~= Seq::<u8>::empty());
        let later = cat_later(cat, cat.counter, now);
        assert(later.preceded_by(Seq::<u8>::empty()).output =~= later.output);
        if now.opened is None {
            assert(now.stdin.left =~= Seq::<u8>::empty());
            assert(drained(now.stdin) == now.stdin);
        }
    }
}

/// Opening the next input: what was to come of all the inputs left is what
/// is to come of the opened one and those after it, or the failure to open.
pub(crate) proof fn lemma_cat_open(cat: CatView, now: StreamsView, after: StreamsView)
    requires
        0 < cat.next <= cat.names.len(),
        ({
            let name = cat.names[cat.next - 1];
            let action = if is_stdin_name(name) {
                ActionView::OpenStdin
            } else {
                ActionView::OpenFile(name)
            };
            after == now.after(action)
        }),
    ensures
        ({
            let name = cat.names[cat.next - 1];
            let action = if is_stdin_name(name) {
                ActionView::OpenStdin
            } else {
                ActionView::OpenFile(name)
            };
            cat_report(cat.names.skip(cat.next - 1), now.stdin, now.files, cat.number, cat.counter)
                == cat_rest(cat, now.event_of(action)->Some_0, after)
        }),
{
    let names = cat.names.skip(cat.next - 1);
    assert(names[0] == cat.names[cat.next - 1]);
    assert(names.skip(1) =~= cat.names.skip(cat.next as int));
    match resolve(names[0], now.stdin, now.files) {
        Some(source) => {
            assert(Seq::<u8>::empty() + source.left =~= source.left);
        },
        None => {},
    }
}

} // verus!
