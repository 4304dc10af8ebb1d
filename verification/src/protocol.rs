//! What a command and its driver say to each other.
//!
//! A command performs no I/O. It names the next thing to be done, an
//! [`Action`]; the driver does it and reports what came of it, an [`Event`].
//! The driver decides nothing: every rule of a command is in its `step`.

use vstd::prelude::*;

verus! {

/// The kinds of I/O failure.
#[derive(Clone, Copy, Debug, PartialEq, Eq, Structural)]
pub enum Failure {
    /// A named input could not be opened.
    Open,
    /// An open input could not be read.
    Read,
    /// The output did not take what was written to it, or could not be flushed.
    Write,
}

/// What the driver reports to the command.
#[derive(Debug, PartialEq, Eq)]
pub enum Event {
    /// Nothing has been done yet.
    Start,
    /// The input asked for is open and selected.
    Opened,
    /// A read returned these bytes; none means that the input has ended.
    Data(Vec<u8>),
    /// All the bytes of the last write were taken.
    Written,
    /// The output was flushed.
    Flushed,
    /// The last action failed.
    Failed(Failure),
}

/// What the command asks the driver to do next.
#[derive(Debug, PartialEq, Eq)]
pub enum Action {
    /// Select the standard input.
    OpenStdin,
    /// Open the file of this name and select it.
    OpenFile(Vec<u8>),
    /// Read a block from the selected input.
    Read,
    /// Write all of these bytes to the output.
    Write(Vec<u8>),
    /// Flush the output.
    Flush,
    /// Stop: the command has ended with this status.
    Exit(u8),
    /// Stop: the command gives up on this failure.
    Abort(Failure),
}

/// An [`Event`] as a plain value.
pub enum EventView {
    Start,
    Opened,
    Data(Seq<u8>),
    Written,
    Flushed,
    Failed(Failure),
}

/// An [`Action`] as a plain value.
pub enum ActionView {
    OpenStdin,
    OpenFile(Seq<u8>),
    Read,
    Write(Seq<u8>),
    Flush,
    Exit(u8),
    Abort(Failure),
}

impl View for Event {
    type V = EventView;

    open spec fn view(&self) -> EventView {
        match *self {
            Event::Start => EventView::Start,
            Event::Opened => EventView::Opened,
            Event::Data(bytes) => EventView::Data(bytes@),
            Event::Written => EventView::Written,
            Event::Flushed => EventView::Flushed,
            Event::Failed(failure) => EventView::Failed(failure),
        }
    }
}

impl View for Action {
    type V = ActionView;

    open spec fn view(&self) -> ActionView {
        match *self {
            Action::OpenStdin => ActionView::OpenStdin,
            Action::OpenFile(name) => ActionView::OpenFile(name@),
            Action::Read => ActionView::Read,
            Action::Write(bytes) => ActionView::Write(bytes@),
            Action::Flush => ActionView::Flush,
            Action::Exit(status) => ActionView::Exit(status),
            Action::Abort(failure) => ActionView::Abort(failure),
        }
    }
}

/// How a run ended: the exit status, or the failure that it gave up on.
pub type Outcome = Result<u8, Failure>;

/// The outcome that an action ends the run with, if it ends it.
pub open spec fn outcome_of(action: ActionView) -> Option<Outcome> {
    match action {
        ActionView::Exit(status) => Some(Ok(status)),
        ActionView::Abort(failure) => Some(Err(failure)),
        _ => None,
    }
}

} // verus!
