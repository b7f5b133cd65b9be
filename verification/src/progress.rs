//! What a run tells on its way.

use crate::collision::Tally;
use vstd::prelude::*;

verus! {

/// What a reporter can be told.
#[derive(Clone, Copy, PartialEq, Eq, Structural, Debug)]
pub enum Event {
    /// A pass, a class or a stage is done.
    Part(Tally),
    /// A repetition is done.
    Repetition(Tally),
}

/// What a reporter was told, in its order.
pub type Log = Seq<Event>;

/// The log of some passes, classes or stages.
pub open spec fn parts(tallies: Seq<Tally>) -> Log {
    tallies.map_values(|tally: Tally| Event::Part(tally))
}

/// Each part is an event of its own, in the order of the parts.
pub proof fn law_parts_one_by_one(tallies: Seq<Tally>, i: int)
    requires
        0 <= i < tallies.len(),
    ensures
        parts(tallies).len() == tallies.len(),
        parts(tallies)[i] == Event::Part(tallies[i]),
{
}

/// Who is told of the tallies of a run as soon as they are known, so that it can be judged partway.
pub trait Reporter {
    /// What it was told so far.
    spec fn told(&self) -> Log;

    /// A pass, a class or a stage is done.
    fn part_done(&mut self, tally: Tally)
        ensures
            final(self).told() == old(self).told().push(Event::Part(tally)),
    ;

    /// A repetition is done.
    fn repetition_done(&mut self, tally: Tally)
        ensures
            final(self).told() == old(self).told().push(Event::Repetition(tally)),
    ;
}

/// A reporter that takes everything down.
pub struct Recorder {
    /// What it was told, in its order.
    pub events: Vec<Event>,
}

impl Recorder {
    /// A recorder that was told nothing yet.
    pub fn new() -> (recorder: Self)
        ensures
            recorder.told() == Seq::<Event>::empty(),
    {
        Recorder { events: Vec::new() }
    }
}

impl Reporter for Recorder {
    open spec fn told(&self) -> Log {
        self.events@
    }

    fn part_done(&mut self, tally: Tally) {
        self.events.push(Event::Part(tally));
    }

    fn repetition_done(&mut self, tally: Tally) {
        self.events.push(Event::Repetition(tally));
    }
}

} // verus!
