//! `cat`: the inputs one after the other, as they are or with their
//! non-blank lines numbered.
//!
//! Without numbering `cat` is a stream copier: every block that was read is
//! written as it came, and nothing is held back. With numbering the line
//! scanner cuts the input into chunks, and each chunk that is not blank is
//! written behind its number. The counter belongs to the run, not to the
//! input: it goes on where the last input left it.

use vstd::prelude::*;
use vstd::arithmetic::power::pow;
use vstd::slice::slice_to_vec;
use crate::commands::Command;
use crate::commands::cat_run::cat_measure;
use crate::commands::cat_run::cat_run_invariant;
use crate::commands::cat_run::lemma_cat_run_end;
use crate::commands::cat_run::lemma_cat_run_start;
use crate::commands::cat_run::lemma_cat_run_step;
use crate::commands::texts;
use crate::decimal::Counter;
use crate::decimal::decimal;
use crate::decimal::lemma_decimal_len;
use crate::decimal::push_right_justified;
use crate::decimal::right_justified;
use crate::lines::NEWLINE;
use crate::lines::after_first_chunk;
use crate::lines::blank;
use crate::lines::first_chunk;
use crate::lines::is_blank;
use crate::lines::lemma_chunk_len_bounds;
use crate::lines::lemma_chunk_len_newline;
use crate::memory::FileView;
use crate::memory::Report;
use crate::memory::SourceView;
use crate::memory::Streams;
use crate::memory::lookup;
use crate::protocol::Action;
use crate::protocol::ActionView;
use crate::protocol::Event;
use crate::protocol::EventView;
use crate::protocol::Failure;
use crate::protocol::Outcome;
use crate::scanner::LineScanner;
use crate::scanner::chunk_ready;

verus! {

/// The byte `-`: as a name it stands for the standard input.
pub const DASH: u8 = 45;

/// The byte that follows a line number.
pub const TAB: u8 = 9;

/// How wide the field of a line number is.
pub const NUMBER_WIDTH: usize = 6;

/// The number that the first non-blank line gets.
pub const FIRST_NUMBER: u64 = 1;

/// The arguments of `cat`.
#[derive(Debug)]
pub struct CatArgs {
    /// The names of the inputs, in order; `-` is the standard input.
    pub files: Vec<Vec<u8>>,
    /// The flag `-b`: number the lines that are not blank.
    pub number_nonblank: bool,
}

impl Clone for CatArgs {
    /// Arguments with the same names and the same flag.
    fn clone(&self) -> (copy: Self)
        ensures
            texts(copy.files@) == texts(self.files@),
            copy.number_nonblank == self.number_nonblank,
    {
        let mut files: Vec<Vec<u8>> = Vec::new();
        let mut i: usize = 0;
        while i < self.files.len()
            invariant
                i <= self.files@.len(),
                files@.len() == i,
                forall|j: int| 0 <= j < i ==> files@[j]@ == self.files@[j]@,
            decreases self.files@.len() - i,
        {
            files.push(slice_to_vec(self.files[i].as_slice()));
            i += 1;
        }
        assert(texts(files@) =~= texts(self.files@));
        CatArgs { files, number_nonblank: self.number_nonblank }
    }
}

/// Whether `name` stands for the standard input.
pub open spec fn is_stdin_name(name: Seq<u8>) -> bool {
    name == seq![DASH]
}

/// What stands before a numbered line: the number, right-justified in its
/// field, and a tab.
pub open spec fn number_prefix(counter: nat) -> Seq<u8> {
    right_justified(decimal(counter), NUMBER_WIDTH as nat).push(TAB)
}

/// A chunk as `cat -b` writes it: a blank one as it is, another with the
/// number before it.
pub open spec fn numbered(chunk: Seq<u8>, counter: nat) -> Seq<u8> {
    if blank(chunk) {
        chunk
    } else {
        number_prefix(counter) + chunk
    }
}

/// The counter after a chunk: only a chunk that is not blank uses a number.
pub open spec fn counted(chunk: Seq<u8>, counter: nat) -> nat {
    if blank(chunk) {
        counter
    } else {
        counter + 1
    }
}

/// `input` with its non-blank lines numbered from `counter` on.
pub open spec fn number_lines(input: Seq<u8>, counter: nat) -> Seq<u8>
    decreases input.len(),
{
    if input.len() == 0 {
        Seq::empty()
    } else {
        proof {
            lemma_chunk_len_bounds(input);
        }
        numbered(first_chunk(input), counter) + number_lines(
            after_first_chunk(input),
            counted(first_chunk(input), counter),
        )
    }
}

/// The counter after all of `input`; it does not move where lines are not
/// numbered.
pub open spec fn counter_after(input: Seq<u8>, number: bool, counter: nat) -> nat
    decreases input.len(),
{
    if !number || input.len() == 0 {
        counter
    } else {
        proof {
            lemma_chunk_len_bounds(input);
        }
        counter_after(after_first_chunk(input), number, counted(first_chunk(input), counter))
    }
}

/// What `cat` makes of one input. Without numbering, every byte is written
/// as it is. With numbering, each whole line is written as soon as it is
/// there, and an unfinished last line when the input has ended. An input
/// that breaks ends the run where its bytes end.
pub open spec fn source_report(source: SourceView, number: bool, counter: nat) -> Report
    decreases source.left.len(),
{
    if !number {
        Report {
            output: source.left,
            outcome: if source.broken {
                Err(Failure::Read)
            } else {
                Ok(0)
            },
        }
    } else if source.left.contains(NEWLINE) {
        proof {
            lemma_chunk_len_bounds(source.left);
        }
        source_report(
            SourceView { left: after_first_chunk(source.left), broken: source.broken },
            number,
            counted(first_chunk(source.left), counter),
        ).preceded_by(numbered(first_chunk(source.left), counter))
    } else if source.broken {
        Report { output: Seq::empty(), outcome: Err(Failure::Read) }
    } else if source.left.len() > 0 {
        Report { output: numbered(source.left, counter), outcome: Ok(0) }
    } else {
        Report { output: Seq::empty(), outcome: Ok(0) }
    }
}

/// A source that has given everything.
pub open spec fn drained(source: SourceView) -> SourceView {
    SourceView { left: Seq::empty(), broken: source.broken }
}

/// The input that `name` stands for: the standard input for `-`, else the
/// first file of that name; none where there is no such file.
pub open spec fn resolve(name: Seq<u8>, stdin: SourceView, files: Seq<FileView>) -> Option<
    SourceView,
> {
    if is_stdin_name(name) {
        Some(stdin)
    } else {
        match lookup(files, name) {
            Some(file) => Some(SourceView { left: file.data, broken: file.broken }),
            None => None,
        }
    }
}

/// What `cat` comes to on these names, on an output that takes everything.
/// The inputs are taken in order; a name that cannot be opened ends the
/// run, and so does an input that breaks. The counter goes on from one
/// input to the next, and the standard input gives its bytes once.
pub open spec fn cat_report(
    names: Seq<Seq<u8>>,
    stdin: SourceView,
    files: Seq<FileView>,
    number: bool,
    counter: nat,
) -> Report
    decreases names.len(),
{
    if names.len() == 0 {
        Report { output: Seq::empty(), outcome: Ok(0) }
    } else {
        match resolve(names[0], stdin, files) {
            Some(source) => source_report(source, number, counter).followed_by(
                cat_report(
                    names.skip(1),
                    if is_stdin_name(names[0]) {
                        drained(stdin)
                    } else {
                        stdin
                    },
                    files,
                    number,
                    counter_after(source.left, number, counter),
                ),
            ),
            None => Report { output: Seq::empty(), outcome: Err(Failure::Open) },
        }
    }
}

/// A `cat` as a plain value.
pub struct CatView {
    /// The names of all the inputs.
    pub names: Seq<Seq<u8>>,
    /// How many of them were asked to be opened.
    pub next: nat,
    /// Whether non-blank lines are numbered.
    pub number: bool,
    /// The number that the next non-blank line gets.
    pub counter: nat,
    /// The bytes of the open input that were read and not yet written.
    pub pending: Seq<u8>,
    /// Whether the open input was seen to end.
    pub closed: bool,
}

/// The state after an event was taken in. A newly opened input has nothing
/// pending. With numbering, bytes that were read are pending, and a read
/// that gave none has closed the input.
pub open spec fn cat_fed(state: CatView, event: EventView) -> CatView {
    match event {
        EventView::Opened => CatView { pending: Seq::empty(), closed: false, ..state },
        EventView::Data(bytes) => if !state.number {
            state
        } else if bytes.len() == 0 {
            CatView { closed: true, ..state }
        } else {
            CatView { pending: state.pending + bytes, ..state }
        },
        _ => state,
    }
}

/// Going on to the next input: open it, or flush the output where none is
/// left.
pub open spec fn cat_open_next(state: CatView) -> (CatView, ActionView) {
    if state.next < state.names.len() {
        let name = state.names[state.next as int];
        (
            CatView { next: state.next + 1, ..state },
            if is_stdin_name(name) {
                ActionView::OpenStdin
            } else {
                ActionView::OpenFile(name)
            },
        )
    } else {
        (state, ActionView::Flush)
    }
}

/// Going on with numbering: write the next chunk where one is ready, go to
/// the next input where this one has ended, and read on otherwise.
pub open spec fn cat_advance(state: CatView) -> (CatView, ActionView) {
    if chunk_ready(state.pending, state.closed) {
        let chunk = first_chunk(state.pending);
        (
            CatView {
                pending: after_first_chunk(state.pending),
                counter: counted(chunk, state.counter),
                ..state
            },
            ActionView::Write(numbered(chunk, state.counter)),
        )
    } else if state.closed {
        cat_open_next(state)
    } else {
        (state, ActionView::Read)
    }
}

/// One step of `cat`. A failure ends the run, and so does the flush, with
/// success. At the start the first input is opened, and an opened input is
/// read. Without numbering, what was read is written as it is, a write is
/// followed by a read, and the end of an input by the next input.
pub open spec fn cat_step(state: CatView, event: EventView) -> (CatView, ActionView) {
    let fed = cat_fed(state, event);
    match event {
        EventView::Failed(failure) => (state, ActionView::Abort(failure)),
        EventView::Flushed => (state, ActionView::Exit(0)),
        EventView::Start => cat_open_next(fed),
        EventView::Opened => (fed, ActionView::Read),
        EventView::Data(bytes) => if state.number {
            cat_advance(fed)
        } else if bytes.len() == 0 {
            cat_open_next(fed)
        } else {
            (fed, ActionView::Write(bytes))
        },
        EventView::Written => if state.number {
            cat_advance(fed)
        } else {
            (fed, ActionView::Read)
        },
    }
}

/// The `cat` command.
pub struct Cat {
    files: Vec<Vec<u8>>,
    next: usize,
    number: bool,
    counter: Counter,
    scanner: LineScanner,
}

impl View for Cat {
    type V = CatView;

    closed spec fn view(&self) -> CatView {
        CatView {
            names: texts(self.files@),
            next: self.next as nat,
            number: self.number,
            counter: self.counter.value(),
            pending: self.scanner.pending(),
            closed: self.scanner.closed(),
        }
    }
}

impl Cat {
    /// Goes on to the next input.
    fn open_next(&mut self) -> (action: Action)
        ensures
            (final(self)@, action@) == cat_open_next(old(self)@),
    {
        if self.next < self.files.len() {
            let name: &Vec<u8> = &self.files[self.next];
            let action = if name.len() == 1 && name[0] == DASH {
                assert(name@ =~= seq![DASH]);
                Action::OpenStdin
            } else {
                Action::OpenFile(slice_to_vec(name.as_slice()))
            };
            self.next = self.next + 1;
            action
        } else {
            Action::Flush
        }
    }

    /// Goes on with numbering.
    fn advance(&mut self) -> (action: Action)
        ensures
            (final(self)@, action@) == cat_advance(old(self)@),
    {
        match self.scanner.poll() {
            Some(chunk) => {
                if is_blank(chunk.as_slice()) {
                    Action::Write(chunk)
                } else {
                    let mut line: Vec<u8> = Vec::new();
                    push_right_justified(&mut line, self.counter.text(), NUMBER_WIDTH);
                    line.push(TAB);
                    let ghost prefix = line@;
                    line.extend_from_slice(chunk.as_slice());
                    assert(line@ =~= prefix + chunk@);
                    assert(prefix =~= number_prefix(self.counter.value()));
                    self.counter.increment();
                    Action::Write(line)
                }
            },
            None => {
                if self.scanner.is_closed() {
                    self.open_next()
                } else {
                    Action::Read
                }
            },
        }
    }
}

impl Command for Cat {
    type Args = CatArgs;

    fn new(args: CatArgs) -> (cat: Self)
        ensures
            cat@ == (CatView {
                names: texts(args.files@),
                next: 0,
                number: args.number_nonblank,
                counter: FIRST_NUMBER as nat,
                pending: Seq::empty(),
                closed: false,
            }),
    {
        Cat {
            files: args.files,
            next: 0,
            number: args.number_nonblank,
            counter: Counter::new(FIRST_NUMBER),
            scanner: LineScanner::new(),
        }
    }

    fn step(&mut self, event: Event) -> (action: Action)
        ensures
            (final(self)@, action@) == cat_step(old(self)@, event@),
    {
        match event {
            Event::Failed(failure) => Action::Abort(failure),
            Event::Flushed => Action::Exit(0),
            Event::Start => self.open_next(),
            Event::Opened => {
                self.scanner = LineScanner::new();
                Action::Read
            },
            Event::Data(bytes) => {
                if self.number {
                    if bytes.len() == 0 {
                        self.scanner.close();
                    } else {
                        self.scanner.feed(bytes.as_slice());
                    }
                    self.advance()
                } else if bytes.len() == 0 {
                    self.open_next()
                } else {
                    Action::Write(bytes)
                }
            },
            Event::Written => {
                if self.number {
                    self.advance()
                } else {
                    Action::Read
                }
            },
        }
    }

    /// Writes the inputs one after the other, as far as the output takes
    /// them. Files are opened, not changed; the standard input is read as
    /// far as the run gets.
    fn run(streams: &mut Streams, args: CatArgs) -> (outcome: Outcome)
        ensures
            ({
                let report = cat_report(
                    texts(args.files@),
                    old(streams)@.stdin,
                    old(streams)@.files,
                    args.number_nonblank,
                    FIRST_NUMBER as nat,
                );
                &&& outcome == report.through(old(streams)@.room).outcome
                &&& final(streams)@.written == old(streams)@.after_write(report.output).written
                &&& final(streams)@.room == old(streams)@.after_write(report.output).room
                &&& final(streams)@.files == old(streams)@.files
                &&& final(streams)@.limits == old(streams)@.limits
                &&& final(streams)@.stdin.is_rest_of(old(streams)@.stdin)
            }),
    {
        let ghost start = streams@;
        let ghost full = cat_report(
            texts(args.files@),
            start.stdin,
            start.files,
            args.number_nonblank,
            FIRST_NUMBER as nat,
        );
        let ghost mut emitted: Seq<u8> = Seq::empty();
        let mut cat = Cat::new(args);
        let mut event = Event::Start;
        proof {
            lemma_cat_run_start(start, cat@);
        }
        loop
            invariant
                start == old(streams)@,
                full == cat_report(
                    texts(args.files@),
                    start.stdin,
                    start.files,
                    args.number_nonblank,
                    FIRST_NUMBER as nat,
                ),
                cat_run_invariant(start, full, streams@, cat@, event@, emitted),
            decreases
                cat_measure(cat@, event@, streams@).0,
                cat_measure(cat@, event@, streams@).1,
                cat_measure(cat@, event@, streams@).2,
                cat_measure(cat@, event@, streams@).3,
                cat_measure(cat@, event@, streams@).4,
        {
            let ghost before = cat@;
            let ghost world = streams@;
            let ghost lately = event@;
            let action = cat.step(event);
            match streams.perform(&action) {
                Ok(next) => {
                    proof {
                        emitted = lemma_cat_run_step(start, full, world, before, lately, emitted);
                    }
                    event = next;
                },
                Err(outcome) => {
                    proof {
                        lemma_cat_run_end(start, full, world, before, lately, emitted);
                    }
                    return outcome;
                },
            }
        }
    }
}

/// What stands before a numbered line ends in a tab and is never shorter
/// than the field and the tab; up to 999999 it is exactly that long, so that
/// the lines stand in a column.
pub proof fn lemma_number_prefix_width(counter: nat)
    ensures
        number_prefix(counter).last() == TAB,
        number_prefix(counter).len() >= NUMBER_WIDTH + 1,
        counter < 1_000_000 ==> number_prefix(counter).len() == NUMBER_WIDTH + 1,
{
    if counter < 1_000_000 {
        assert(pow(10, 6) == 1_000_000) by {
            reveal_with_fuel(pow, 7);
        }
        lemma_decimal_len(counter, 6);
    }
}

/// With numbering, an input that does not break comes out with its
/// non-blank lines numbered, an unfinished last line too.
pub proof fn lemma_source_report_numbered(input: Seq<u8>, counter: nat)
    ensures
        source_report(SourceView { left: input, broken: false }, true, counter) == (Report {
            output: number_lines(input, counter),
            outcome: Ok(0),
        }),
    decreases input.len(),
{
    let source = SourceView { left: input, broken: false };
    lemma_chunk_len_bounds(input);
    lemma_chunk_len_newline(input);
    if input.contains(NEWLINE) {
        lemma_source_report_numbered(
            after_first_chunk(input),
            counted(first_chunk(input), counter),
        );
        assert(source_report(source, true, counter).output =~= number_lines(input, counter));
    } else if input.len() > 0 {
        assert(first_chunk(input) =~= input);
        assert(after_first_chunk(input) =~= Seq::<u8>::empty());
        assert(number_lines(after_first_chunk(input), counted(input, counter)) =~= Seq::<
            u8,
        >::empty());
        assert(number_lines(input, counter) =~= numbered(input, counter));
    }
}

/// How far the counter moves over an input does not depend on where it
/// stood: it moves by the number of lines that are not blank.
pub proof fn lemma_counter_after_shift(input: Seq<u8>, counter: nat)
    ensures
        counter_after(input, true, counter) == counter + counter_after(input, true, 0),
    decreases input.len(),
{
    if input.len() > 0 {
        lemma_chunk_len_bounds(input);
        let rest = after_first_chunk(input);
        lemma_counter_after_shift(rest, counted(first_chunk(input), counter));
        lemma_counter_after_shift(rest, counted(first_chunk(input), 0));
    }
}

/// Without numbering, `cat` of one input that does not break writes exactly
/// the bytes of that input, whatever they are.
pub proof fn lemma_cat_copies(
    name: Seq<u8>,
    stdin: SourceView,
    files: Seq<FileView>,
    counter: nat,
)
    requires
        resolve(name, stdin, files) matches Some(source) && !source.broken,
    ensures
        cat_report(seq![name], stdin, files, false, counter) == (Report {
            output: resolve(name, stdin, files)->Some_0.left,
            outcome: Ok(0),
        }),
{
    reveal_with_fuel(cat_report, 2);
    let names = seq![name];
    let source = resolve(name, stdin, files)->Some_0;
    assert(names.skip(1) =~= Seq::<Seq<u8>>::empty());
    assert(cat_report(names, stdin, files, false, counter).output =~= source.left);
}

/// The counter does not start again at the second input: with numbering,
/// `cat` of two inputs that do not break numbers the second from where the
/// first left off.
pub proof fn lemma_cat_counter_carries_over(
    first: Seq<u8>,
    second: Seq<u8>,
    stdin: SourceView,
    files: Seq<FileView>,
    counter: nat,
)
    requires
        !is_stdin_name(first),
        !is_stdin_name(second),
        resolve(first, stdin, files) matches Some(source) && !source.broken,
        resolve(second, stdin, files) matches Some(source) && !source.broken,
    ensures
        ({
            let a = resolve(first, stdin, files)->Some_0.left;
            let b = resolve(second, stdin, files)->Some_0.left;
            cat_report(seq![first, second], stdin, files, true, counter) == (Report {
                output: number_lines(a, counter) + number_lines(
                    b,
                    counter + counter_after(a, true, 0),
                ),
                outcome: Ok(0),
            })
        }),
{
    reveal_with_fuel(cat_report, 3);
    let names = seq![first, second];
    let a = resolve(first, stdin, files)->Some_0.left;
    let b = resolve(second, stdin, files)->Some_0.left;
    let later = counter_after(a, true, counter);
    lemma_source_report_numbered(a, counter);
    lemma_source_report_numbered(b, later);
    lemma_counter_after_shift(a, counter);
    assert(names.skip(1) =~= seq![second]);
    assert(seq![second].skip(1) =~= Seq::<Seq<u8>>::empty());
    assert(names.skip(1)[0] == second);
    let last = cat_report(names.skip(1), stdin, files, true, later);
    assert(last.output =~= number_lines(b, later));
    assert(cat_report(names, stdin, files, true, counter).output =~= number_lines(a, counter)
        + number_lines(b, later));
}

} // verus!
