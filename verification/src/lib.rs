//! Verified core of a model-railway simulation: trains with bounded speeds
//! perpetually repeat fixed circuits over a network of mutually exclusive
//! track segments, publishing their position for a renderer and taking speed
//! commands from a user interface.

use vstd::prelude::*;

pub mod circuit;
pub mod network;
pub mod observer;
pub mod runtime;
pub mod track;

pub use track::Track;

verus! {

/// Lowest speed a train may be commanded to; keeping it above zero rules out
/// a division fault in traversal-time computations.
pub const MIN_VELOCITY: u64 = 1;

/// Highest speed a train may be commanded to.
pub const MAX_VELOCITY: u64 = 6;

/// The four train colours; each colour drives its own circuit.
#[allow(non_camel_case_types)]
pub enum Color {
    GREEN,
    PURPLE,
    RED,
    BLUE,
}

/// A speed command issued by the user interface: at a bound the command is a
/// silent no-op rather than an error.
#[derive(Clone, Copy, PartialEq, Eq, Structural, Debug)]
pub enum VelocityCommand {
    Increment,
    Decrement,
}

/// The speed that one command leaves a train at: clamped to stay inside
/// `[MIN_VELOCITY, MAX_VELOCITY]`, a no-op at either bound.
pub open spec fn step_velocity(v: int, c: VelocityCommand) -> int {
    match c {
        VelocityCommand::Increment => if v < MAX_VELOCITY { v + 1 } else { v },
        VelocityCommand::Decrement => if v > MIN_VELOCITY { v - 1 } else { v },
    }
}

/// The speed after a whole sequence of commands has been applied in order.
pub open spec fn run_velocity_commands(v: int, cmds: Seq<VelocityCommand>) -> int
    decreases cmds.len(),
{
    if cmds.len() == 0 {
        v
    } else {
        run_velocity_commands(step_velocity(v, cmds[0]), cmds.drop_first())
    }
}

/// Law: starting from any speed within bounds, every sequence of increment and
/// decrement commands leaves the speed within bounds.
pub proof fn lemma_velocity_always_bounded(v: int, cmds: Seq<VelocityCommand>)
    requires
        MIN_VELOCITY <= v <= MAX_VELOCITY,
    ensures
        MIN_VELOCITY <= run_velocity_commands(v, cmds) <= MAX_VELOCITY,
    decreases cmds.len(),
{
    if cmds.len() > 0 {
        lemma_velocity_always_bounded(step_velocity(v, cmds[0]), cmds.drop_first());
    }
}

/// Per-agent state: an identity and a commanded speed. The speed is mutated
/// only through `increment` and `decrement` and read by the runtime once per
/// lap as a snapshot.
#[derive(Clone, Copy)]
pub struct Train {
    pub id: u64,
    pub velocity: u64,
}

impl Train {
    /// The speed invariant every constructed train keeps.
    pub open spec fn valid(self) -> bool {
        MIN_VELOCITY <= self.velocity <= MAX_VELOCITY
    }

    pub fn new(id: u64, velocity: u64) -> (t: Train)
        requires
            MIN_VELOCITY <= velocity <= MAX_VELOCITY,
        ensures
            t.id == id,
            t.velocity == velocity,
            t.valid(),
    {
        Train { velocity, id }
    }

    /// Raise the speed by one, a no-op at `MAX_VELOCITY`.
    pub fn increment(&mut self)
        ensures
            final(self).id == old(self).id,
            final(self).velocity as int == step_velocity(
                old(self).velocity as int,
                VelocityCommand::Increment,
            ),
            old(self).valid() ==> final(self).valid(),
    {
        if self.velocity < MAX_VELOCITY {
            self.velocity = self.velocity + 1;
        }
    }

    /// Lower the speed by one, a no-op at `MIN_VELOCITY`.
    pub fn decrement(&mut self)
        ensures
            final(self).id == old(self).id,
            final(self).velocity as int == step_velocity(
                old(self).velocity as int,
                VelocityCommand::Decrement,
            ),
            old(self).valid() ==> final(self).valid(),
    {
        if self.velocity > MIN_VELOCITY {
            self.velocity = self.velocity - 1;
        }
    }
}

} // verus!
