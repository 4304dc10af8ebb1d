//! Sources and sinks that live in memory, and a driver over them.
//!
//! They stand where files, pipes and terminals stand in a running program,
//! and fail the way those fail: a source may break once it has given all its
//! bytes, a missing file cannot be opened, and a sink takes no more than it
//! has room for.

use vstd::prelude::*;
use vstd::slice::slice_subrange;
use vstd::slice::slice_to_vec;
use crate::protocol::Action;
use crate::protocol::ActionView;
use crate::protocol::Event;
use crate::protocol::EventView;
use crate::protocol::Failure;
use crate::protocol::Outcome;
use crate::protocol::outcome_of;

verus! {

/// How many bytes a read returns at most, unless the driver is told otherwise.
pub const DEFAULT_BLOCK: usize = 8192;

/// The part of `bytes` that a sink with `room` bytes left takes.
pub open spec fn fitting(bytes: Seq<u8>, room: nat) -> Seq<u8> {
    if bytes.len() <= room {
        bytes
    } else {
        bytes.take(room as int)
    }
}

/// What a run is to come to where the output takes everything: the bytes
/// that it writes and how it ends.
pub struct Report {
    pub output: Seq<u8>,
    pub outcome: Outcome,
}

impl Report {
    /// This report with `bytes` written before everything else.
    pub open spec fn preceded_by(self, bytes: Seq<u8>) -> Report {
        Report { output: bytes + self.output, outcome: self.outcome }
    }

    /// This report, and `next` after it where this one ends well: a failure
    /// ends everything, and the last status is the one that counts.
    pub open spec fn followed_by(self, next: Report) -> Report {
        if self.outcome is Err {
            self
        } else {
            next.preceded_by(self.output)
        }
    }

    /// What becomes of the run on an output with `room` bytes left: where
    /// the bytes do not all fit, those that fit are written and the run ends
    /// on the failed write.
    pub open spec fn through(self, room: nat) -> Report {
        if self.output.len() <= room {
            self
        } else {
            Report { output: self.output.take(room as int), outcome: Err(Failure::Write) }
        }
    }
}

/// Writing `bytes` after `emitted`, where `emitted`, `bytes` and `rest` make
/// up `full`: either they fit, or the output has then taken the first `room`
/// bytes of `full`.
pub proof fn lemma_write_progress(
    full: Seq<u8>,
    emitted: Seq<u8>,
    bytes: Seq<u8>,
    rest: Seq<u8>,
    room: nat,
)
    requires
        full == emitted + bytes + rest,
        emitted.len() <= room,
    ensures
        bytes.len() <= room - emitted.len() ==> (emitted + bytes).len() <= room,
        bytes.len() > room - emitted.len() ==> full.len() > room && full.take(room as int) == emitted
            + fitting(bytes, (room - emitted.len()) as nat),
{
    if bytes.len() > room - emitted.len() {
        assert(full.take(room as int) =~= emitted + bytes.take(room - emitted.len()));
    }
}

/// A sink that keeps what is written to it, for as long as it has room.
pub struct Sink {
    data: Vec<u8>,
    room: usize,
}

impl Sink {
    /// Everything that the sink has taken, in order.
    pub closed spec fn written(&self) -> Seq<u8> {
        self.data@
    }

    /// How many more bytes the sink takes.
    pub closed spec fn room(&self) -> nat {
        self.room as nat
    }

    /// An empty sink with room for `capacity` bytes.
    pub fn with_capacity(capacity: usize) -> (sink: Self)
        ensures
            sink.written() == Seq::<u8>::empty(),
            sink.room() == capacity,
    {
        Sink { data: Vec::new(), room: capacity }
    }

    /// An empty sink with as much room as memory can hold.
    pub fn new() -> (sink: Self)
        ensures
            sink.written() == Seq::<u8>::empty(),
            sink.room() == usize::MAX,
    {
        Sink::with_capacity(usize::MAX)
    }

    /// What the sink has taken so far.
    pub fn bytes(&self) -> (bytes: &[u8])
        ensures
            bytes@ == self.written(),
    {
        self.data.as_slice()
    }

    /// Writes `bytes`: all of them where they fit, else as many as fit, and
    /// then the write has failed.
    pub fn write_all(&mut self, bytes: &[u8]) -> (done: Result<(), Failure>)
        ensures
            final(self).written() == old(self).written() + fitting(bytes@, old(self).room()),
            final(self).room() == old(self).room() - fitting(bytes@, old(self).room()).len(),
            bytes@.len() <= old(self).room() ==> done == Ok::<(), Failure>(()),
            bytes@.len() > old(self).room() ==> done == Err::<(), Failure>(Failure::Write),
    {
        let ghost before = self.data@;
        if bytes.len() <= self.room {
            self.data.extend_from_slice(bytes);
            assert(self.data@ =~= before + bytes@);
            self.room = self.room - bytes.len();
            Ok(())
        } else {
            self.data.extend_from_slice(slice_subrange(bytes, 0, self.room));
            assert(self.data@ =~= before + bytes@.take(self.room as int));
            self.room = 0;
            Err(Failure::Write)
        }
    }
}

/// A source as a plain value: the bytes that it has yet to give, and whether
/// reading it fails once they are gone.
pub struct SourceView {
    pub left: Seq<u8>,
    pub broken: bool,
}

/// A source that gives the bytes it was made with.
pub struct Source {
    data: Vec<u8>,
    pos: usize,
    broken: bool,
}

impl View for Source {
    type V = SourceView;

    closed spec fn view(&self) -> SourceView {
        SourceView { left: self.data@.skip(self.pos as int), broken: self.broken }
    }
}

impl SourceView {
    /// Whether this is what is left of `before` after some reads.
    pub open spec fn is_rest_of(self, before: SourceView) -> bool {
        &&& self.broken == before.broken
        &&& exists|k: int| 0 <= k <= before.left.len() && self.left == #[trigger] before.left.skip(k)
    }
}

/// What a read of at most `max` bytes returns from `source`: the bytes, or
/// nothing where the read fails.
pub open spec fn read_spec(source: SourceView, max: nat) -> Option<Seq<u8>> {
    if source.left.len() == 0 && source.broken {
        None
    } else {
        Some(fitting(source.left, max))
    }
}

/// The source after that read.
pub open spec fn after_read(source: SourceView, max: nat) -> SourceView {
    SourceView {
        left: source.left.skip(fitting(source.left, max).len() as int),
        broken: source.broken,
    }
}

impl Source {
    #[verifier::type_invariant]
    spec fn well_formed(self) -> bool {
        self.pos <= self.data@.len()
    }

    /// A source that gives `data` and then ends.
    pub fn new(data: Vec<u8>) -> (source: Self)
        ensures
            source@ == (SourceView { left: data@, broken: false }),
    {
        let source = Source { data, pos: 0, broken: false };
        assert(source.data@.skip(0) =~= source.data@);
        source
    }

    /// A source that gives `data`; the read after that fails.
    pub fn broken(data: Vec<u8>) -> (source: Self)
        ensures
            source@ == (SourceView { left: data@, broken: true }),
    {
        let source = Source { data, pos: 0, broken: true };
        assert(source.data@.skip(0) =~= source.data@);
        source
    }

    /// How many bytes the source has yet to give.
    pub fn remaining(&self) -> (count: usize)
        ensures
            count == self@.left.len(),
    {
        proof {
            use_type_invariant(self);
        }
        self.data.len() - self.pos
    }

    /// Reads at most `max` bytes. No bytes mean that the source has ended.
    pub fn read(&mut self, max: usize) -> (bytes: Result<Vec<u8>, Failure>)
        ensures
            final(self)@ == after_read(old(self)@, max as nat),
            match bytes {
                Ok(bytes) => read_spec(old(self)@, max as nat) == Some(bytes@),
                Err(failure) => failure == Failure::Read && read_spec(old(self)@, max as nat).is_none(),
            },
    {
        proof {
            use_type_invariant(&*self);
        }
        let left: usize = self.data.len() - self.pos;
        let ghost before = self@;
        if left == 0 && self.broken {
            assert(before.left.skip(0) =~= before.left);
            return Err(Failure::Read);
        }
        let n: usize = if left <= max {
            left
        } else {
            max
        };
        let bytes: Vec<u8> = slice_to_vec(slice_subrange(self.data.as_slice(), self.pos, self.pos + n));
        assert(bytes@ =~= fitting(before.left, max as nat));
        assert(self.data@.skip(self.pos + n) =~= before.left.skip(n as int));
        self.pos = self.pos + n;
        Ok(bytes)
    }
}

/// Copies `source` to `sink`, at most `block` bytes at a time (zero counts
/// as one), until the source has ended. Nothing is looked at and nothing is
/// changed on the way. The result is the number of bytes copied; where the
/// sink is full before the end, or the source breaks, the copy fails with
/// everything written that was read and fitted.
pub fn copy(source: &mut Source, sink: &mut Sink, block: usize) -> (copied: Result<u64, Failure>)
    ensures
        final(sink).written() == old(sink).written() + fitting(old(source)@.left, old(sink).room()),
        final(sink).room() == old(sink).room() - fitting(old(source)@.left, old(sink).room()).len(),
        final(source)@.is_rest_of(old(source)@),
        copied == (if old(source)@.left.len() > old(sink).room() {
            Err::<u64, Failure>(Failure::Write)
        } else if old(source)@.broken {
            Err::<u64, Failure>(Failure::Read)
        } else {
            Ok::<u64, Failure>(old(source)@.left.len() as u64)
        }),
        copied is Ok ==> final(source)@.left.len() == 0,
{
    let max: usize = if block == 0 {
        1
    } else {
        block
    };
    let ghost all = source@.left;
    let ghost room = sink.room();
    let length: usize = source.remaining();
    let mut total: u64 = 0;
    proof {
        assert(all.skip(0) =~= all);
        assert(sink.written() + all.take(0) =~= sink.written());
    }
    loop
        invariant
            max >= 1,
            all == old(source)@.left,
            room == old(sink).room(),
            total <= room,
            total <= all.len() == length,
            source@ == (SourceView { left: all.skip(total as int), broken: old(source)@.broken }),
            sink.written() == old(sink).written() + all.take(total as int),
            sink.room() == room - total,
        decreases all.len() - total,
    {
        match source.read(max) {
            Ok(bytes) => {
                if bytes.len() == 0 {
                    proof {
                        assert(all.take(total as int) =~= all);
                        assert(source@.left == all.skip(total as int));
                    }
                    return Ok(total);
                }
                let ghost taken = fitting(bytes@, sink.room());
                proof {
                    assert(all.take(total as int) + taken =~= all.take(total + taken.len()));
                    assert(old(sink).written() + all.take(total as int) + taken =~= old(
                        sink,
                    ).written() + (all.take(total as int) + taken));
                    assert(all.skip(total as int).skip(bytes@.len() as int) =~= all.skip(
                        total + bytes@.len(),
                    ));
                }
                match sink.write_all(bytes.as_slice()) {
                    Ok(()) => {
                        total = total + bytes.len() as u64;
                    },
                    Err(failure) => {
                        proof {
                            assert(source@.left == all.skip(total + bytes@.len()));
                        }
                        return Err(failure);
                    },
                }
            },
            Err(failure) => {
                proof {
                    assert(all.skip(total as int).skip(0) =~= all.skip(total as int));
                    assert(all.take(total as int) =~= all);
                    assert(source@.left == all.skip(total as int));
                }
                return Err(failure);
            },
        }
    }
}

/// A file that can be opened by its name.
pub struct NamedFile {
    /// The name that opens it.
    pub name: Vec<u8>,
    /// What reading it gives.
    pub data: Vec<u8>,
    /// Whether reading fails once `data` has been given.
    pub broken: bool,
}

/// A [`NamedFile`] as a plain value.
pub struct FileView {
    pub name: Seq<u8>,
    pub data: Seq<u8>,
    pub broken: bool,
}

impl View for NamedFile {
    type V = FileView;

    open spec fn view(&self) -> FileView {
        FileView { name: self.name@, data: self.data@, broken: self.broken }
    }
}

/// The first of `files` that has this name, if any has.
pub open spec fn lookup(files: Seq<FileView>, name: Seq<u8>) -> Option<FileView>
    decreases files.len(),
{
    if files.len() == 0 {
        None
    } else if files[0].name == name {
        Some(files[0])
    } else {
        lookup(files.skip(1), name)
    }
}

/// The streams of a process as plain values.
pub struct StreamsView {
    /// The standard input.
    pub stdin: SourceView,
    /// The files that can be opened.
    pub files: Seq<FileView>,
    /// The file that is open and selected; none where the standard input is.
    pub opened: Option<SourceView>,
    /// What the standard output has taken.
    pub written: Seq<u8>,
    /// How many more bytes the standard output takes.
    pub room: nat,
    /// How many bytes a read returns at most: one limit for each read to
    /// come, taken in turn and again from the first.
    pub limits: Seq<nat>,
    /// Which of the limits the next read goes by.
    pub turn: nat,
}

impl StreamsView {
    /// How many bytes the next read returns at most: the limit whose turn
    /// it is, the default where there is none, and never less than one.
    pub open spec fn block(self) -> nat {
        if self.turn < self.limits.len() {
            if self.limits[self.turn as int] == 0 {
                1
            } else {
                self.limits[self.turn as int]
            }
        } else {
            DEFAULT_BLOCK as nat
        }
    }

    /// The turn after a read.
    pub open spec fn next_turn(self) -> nat {
        if self.turn + 1 < self.limits.len() {
            self.turn + 1
        } else {
            0
        }
    }

    /// The selected input.
    pub open spec fn input(self) -> SourceView {
        match self.opened {
            Some(source) => source,
            None => self.stdin,
        }
    }

    /// These streams with `source` in place of the selected input.
    pub open spec fn with_input(self, source: SourceView) -> StreamsView {
        match self.opened {
            Some(_) => StreamsView { opened: Some(source), ..self },
            None => StreamsView { stdin: source, ..self },
        }
    }

    /// These streams after `bytes` were written to the output.
    pub open spec fn after_write(self, bytes: Seq<u8>) -> StreamsView {
        StreamsView {
            written: self.written + fitting(bytes, self.room),
            room: (self.room - fitting(bytes, self.room).len()) as nat,
            ..self
        }
    }

    /// What performing `action` reports; nothing where the action ends the run.
    pub open spec fn event_of(self, action: ActionView) -> Option<EventView> {
        match action {
            ActionView::OpenStdin => Some(EventView::Opened),
            ActionView::OpenFile(name) => match lookup(self.files, name) {
                Some(_) => Some(EventView::Opened),
                None => Some(EventView::Failed(Failure::Open)),
            },
            ActionView::Read => match read_spec(self.input(), self.block()) {
                Some(bytes) => Some(EventView::Data(bytes)),
                None => Some(EventView::Failed(Failure::Read)),
            },
            ActionView::Write(bytes) => if bytes.len() <= self.room {
                Some(EventView::Written)
            } else {
                Some(EventView::Failed(Failure::Write))
            },
            ActionView::Flush => Some(EventView::Flushed),
            ActionView::Exit(_) => None,
            ActionView::Abort(_) => None,
        }
    }

    /// The streams after `action` was performed.
    pub open spec fn after(self, action: ActionView) -> StreamsView {
        match action {
            ActionView::OpenStdin => StreamsView { opened: None, ..self },
            ActionView::OpenFile(name) => match lookup(self.files, name) {
                Some(file) => StreamsView {
                    opened: Some(SourceView { left: file.data, broken: file.broken }),
                    ..self
                },
                None => self,
            },
            ActionView::Read => StreamsView {
                turn: self.next_turn(),
                ..self.with_input(after_read(self.input(), self.block()))
            },
            ActionView::Write(bytes) => self.after_write(bytes),
            _ => self,
        }
    }
}

/// The streams of a process, held in memory: a standard input, files that
/// can be opened by name, and a standard output.
pub struct Streams {
    stdin: Source,
    files: Vec<NamedFile>,
    opened: Option<Source>,
    stdout: Sink,
    limits: Vec<usize>,
    turn: usize,
}

impl View for Streams {
    type V = StreamsView;

    closed spec fn view(&self) -> StreamsView {
        StreamsView {
            stdin: self.stdin@,
            files: self.files@.map_values(|file: NamedFile| file@),
            opened: match self.opened {
                Some(source) => Some(source@),
                None => None,
            },
            written: self.stdout.written(),
            room: self.stdout.room(),
            limits: self.limits@.map_values(|limit: usize| limit as nat),
            turn: self.turn as nat,
        }
    }
}

/// Whether two byte strings are the same.
pub fn same_bytes(a: &[u8], b: &[u8]) -> (same: bool)
    ensures
        same == (a@ == b@),
{
    if a.len() != b.len() {
        return false;
    }
    let mut i: usize = 0;
    while i < a.len()
        invariant
            i <= a@.len() == b@.len(),
            forall|j: int| 0 <= j < i ==> a@[j] == b@[j],
        decreases a@.len() - i,
    {
        if a[i] != b[i] {
            return false;
        }
        i += 1;
    }
    assert(a@ =~= b@);
    true
}

impl Streams {
    /// Streams with `stdin` on the standard input, no files, and an output
    /// that takes whatever is written.
    pub fn new(stdin: Vec<u8>) -> (streams: Self)
        ensures
            streams@ == (StreamsView {
                stdin: SourceView { left: stdin@, broken: false },
                files: Seq::empty(),
                opened: None,
                written: Seq::empty(),
                room: usize::MAX as nat,
                limits: Seq::empty(),
                turn: 0,
            }),
    {
        let streams = Streams {
            stdin: Source::new(stdin),
            files: Vec::new(),
            opened: None,
            stdout: Sink::new(),
            limits: Vec::new(),
            turn: 0,
        };
        assert(streams@.files =~= Seq::empty());
        assert(streams@.limits =~= Seq::empty());
        streams
    }

    /// Replaces the standard input.
    pub fn set_stdin(&mut self, stdin: Source)
        ensures
            final(self)@ == (StreamsView { stdin: stdin@, ..old(self)@ }),
    {
        self.stdin = stdin;
    }

    /// Replaces the standard output.
    pub fn set_stdout(&mut self, stdout: Sink)
        ensures
            final(self)@ == (StreamsView {
                written: stdout.written(),
                room: stdout.room(),
                ..old(self)@
            }),
    {
        self.stdout = stdout;
    }

    /// Sets how many bytes every read returns at most; zero counts as one.
    pub fn set_block(&mut self, block: usize)
        ensures
            final(self)@ == (StreamsView { limits: seq![block as nat], turn: 0, ..old(self)@ }),
    {
        let mut limits: Vec<usize> = Vec::new();
        limits.push(block);
        self.set_blocks(limits);
        assert(self@.limits =~= seq![block as nat]);
    }

    /// Sets how many bytes the reads to come return at most, read by read:
    /// the limits are taken in turn, and again from the first when the last
    /// was used. A limit of zero counts as one.
    pub fn set_blocks(&mut self, limits: Vec<usize>)
        ensures
            final(self)@ == (StreamsView {
                limits: limits@.map_values(|limit: usize| limit as nat),
                turn: 0,
                ..old(self)@
            }),
    {
        self.limits = limits;
        self.turn = 0;
    }

    /// Adds a file. Where an earlier file has the same name, that one is
    /// still the one that opens.
    pub fn add_file(&mut self, file: NamedFile)
        ensures
            final(self)@ == (StreamsView { files: old(self)@.files.push(file@), ..old(self)@ }),
    {
        self.files.push(file);
        assert(self@.files =~= old(self)@.files.push(file@));
    }

    /// What the standard output has taken so far.
    pub fn output(&self) -> (bytes: &[u8])
        ensures
            bytes@ == self@.written,
    {
        self.stdout.bytes()
    }

    /// Looks for the first file of this name.
    fn find(&self, name: &[u8]) -> (found: Option<usize>)
        ensures
            match found {
                Some(i) => i < self.files@.len() && lookup(self@.files, name@) == Some(
                    self.files@[i as int]@,
                ),
                None => lookup(self@.files, name@).is_none(),
            },
    {
        let ghost files = self@.files;
        let mut i: usize = 0;
        assert(files.skip(0) =~= files);
        while i < self.files.len()
            invariant
                i <= self.files@.len(),
                files == self@.files,
                files.len() == self.files@.len(),
                lookup(files, name@) == lookup(files.skip(i as int), name@),
            decreases self.files@.len() - i,
        {
            assert(files.skip(i as int)[0] == files[i as int]);
            assert(files[i as int] == self.files@[i as int]@);
            if same_bytes(self.files[i].name.as_slice(), name) {
                return Some(i);
            }
            assert(files.skip(i as int).skip(1) =~= files.skip(i + 1));
            i += 1;
        }
        None
    }

    /// Does what `action` asks for and reports what came of it. Where the
    /// action ends the run, nothing is done, and the result is how the run
    /// has ended.
    pub fn perform(&mut self, action: &Action) -> (event: Result<Event, Outcome>)
        ensures
            final(self)@ == old(self)@.after(action@),
            match event {
                Ok(event) => old(self)@.event_of(action@) == Some(event@),
                Err(outcome) => old(self)@.event_of(action@).is_none() && outcome_of(action@)
                    == Some(outcome),
            },
    {
        match action {
            Action::OpenStdin => {
                self.opened = None;
                Ok(Event::Opened)
            },
            Action::OpenFile(name) => {
                match self.find(name.as_slice()) {
                    Some(i) => {
                        let file = &self.files[i];
                        let data: Vec<u8> = slice_to_vec(file.data.as_slice());
                        let source = if file.broken {
                            Source::broken(data)
                        } else {
                            Source::new(data)
                        };
                        self.opened = Some(source);
                        Ok(Event::Opened)
                    },
                    None => Ok(Event::Failed(Failure::Open)),
                }
            },
            Action::Read => {
                let max: usize = if self.turn < self.limits.len() {
                    if self.limits[self.turn] == 0 {
                        1
                    } else {
                        self.limits[self.turn]
                    }
                } else {
                    DEFAULT_BLOCK
                };
                self.turn = if self.turn < self.limits.len() && self.turn + 1 < self.limits.len() {
                    self.turn + 1
                } else {
                    0
                };
                let read = match &mut self.opened {
                    Some(source) => source.read(max),
                    None => self.stdin.read(max),
                };
                match read {
                    Ok(bytes) => Ok(Event::Data(bytes)),
                    Err(failure) => Ok(Event::Failed(failure)),
                }
            },
            Action::Write(bytes) => {
                match self.stdout.write_all(bytes.as_slice()) {
                    Ok(()) => Ok(Event::Written),
                    Err(failure) => Ok(Event::Failed(failure)),
                }
            },
            Action::Flush => Ok(Event::Flushed),
            Action::Exit(status) => Err(Ok(*status)),
            Action::Abort(failure) => Err(Err(*failure)),
        }
    }
}

} // verus!
