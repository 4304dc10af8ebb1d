//! The commands. Each is a state machine over the protocol: `step` takes
//! what the driver reports and names what is to be done next.

pub mod cat;
mod cat_run;
pub mod echo;
pub mod head;
mod head_run;
pub mod seq;
pub mod yes;

use vstd::prelude::*;
use crate::memory::Streams;
use crate::protocol::Action;
use crate::protocol::Event;
use crate::protocol::EventView;
use crate::protocol::Outcome;

verus! {

/// Byte strings as plain values.
pub open spec fn texts(strings: Seq<Vec<u8>>) -> Seq<Seq<u8>> {
    strings.map_values(|string: Vec<u8>| string@)
}

/// How many bytes an event brings.
pub(crate) open spec fn data_len(event: EventView) -> nat {
    match event {
        EventView::Data(bytes) => bytes.len(),
        _ => 0,
    }
}

/// How far an event is from the end of a run: after a failure or a flush
/// the next step is the last, and the end of an input is one step from
/// leaving that input.
pub(crate) open spec fn rank(event: EventView) -> nat {
    match event {
        EventView::Failed(_) => 0,
        EventView::Flushed => 0,
        EventView::Data(bytes) => if bytes.len() == 0 {
            1
        } else {
            2
        },
        _ => 3,
    }
}

/// Whether the measure `a` is below the measure `b`.
pub(crate) open spec fn measure_below(a: (nat, nat, nat, nat, nat), b: (nat, nat, nat, nat, nat)) -> bool {
    a.0 < b.0 || (a.0 == b.0 && (a.1 < b.1 || (a.1 == b.1 && (a.2 < b.2 || (a.2 == b.2 && (a.3 < b.3
        || (a.3 == b.3 && a.4 < b.4)))))))
}

/// The arguments of a command that takes none.
#[derive(Clone, Copy, Debug, Default)]
pub struct NoArgs;

/// A command: made from its arguments, then driven step by step.
pub trait Command: Sized {
    /// What the command is configured with.
    type Args;

    /// The command before its first step.
    fn new(args: Self::Args) -> Self;

    /// Takes the event that the last action led to, `Event::Start` at
    /// first, and names the next action.
    fn step(&mut self, event: Event) -> Action;

    /// Runs the command to its end on streams held in memory.
    fn run(streams: &mut Streams, args: Self::Args) -> Outcome;
}

} // verus!
