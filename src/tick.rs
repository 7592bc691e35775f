//! Change ticks: a fixed-width counter read as a ring, compared by relative age.
use vstd::prelude::*;

verus! {

/// Number of distinct tick values; ticks wrap at this modulus.
pub open spec fn tick_ring() -> int {
    0x1_0000_0000
}

/// How many ticks ago `t` happened, seen from `now`, going backwards around the ring.
pub open spec fn age(t: u32, now: u32) -> int {
    if now >= t {
        now - t
    } else {
        now - t + tick_ring()
    }
}

/// The tick `t` advanced by `d` steps around the ring.
pub open spec fn advance(t: u32, d: nat) -> u32 {
    ((t + d) % tick_ring()) as u32
}

/// A point in time of a world, used for change detection.
#[derive(Clone, Copy, Debug, PartialEq, Eq, Structural)]
pub struct Tick {
    pub tick: u32,
}

impl Tick {
    pub fn new(tick: u32) -> (r: Tick)
        ensures
            r.tick == tick,
    {
        Tick { tick }
    }

    pub fn get(&self) -> (r: u32)
        ensures
            r == self.tick,
    {
        self.tick
    }

    /// The next tick, wrapping at the end of the ring.
    pub fn next(&self) -> (r: Tick)
        ensures
            r.tick == advance(self.tick, 1),
    {
        Tick { tick: self.tick.wrapping_add(1) }
    }

    /// Whether this tick happened strictly after `last_run`, both seen from `this_run`:
    /// the tick that is fewer steps back from `this_run` is the newer one.
    pub fn is_newer_than(&self, last_run: Tick, this_run: Tick) -> (r: bool)
        ensures
            r == (age(last_run.tick, this_run.tick) > age(self.tick, this_run.tick)),
    {
        let since_insert = this_run.tick.wrapping_sub(self.tick);
        let since_system = this_run.tick.wrapping_sub(last_run.tick);
        since_system > since_insert
    }
}

/// A value written at tick `written` is seen by a change filter whose query last ran
/// before `written` (`ahead` steps earlier, `ahead > 0`) and now runs `behind` steps
/// after the write, as long as the whole span fits in the ring; the span may wrap.
/// A query that last ran at or after the write (`ahead` steps later, `ahead >= 0`)
/// does not see it.
pub proof fn lemma_change_visibility(written: u32, ahead: nat, behind: nat)
    requires
        ahead + behind < tick_ring(),
    ensures
        ahead > 0 ==> ({
            let last_run = ((written - ahead + tick_ring()) % tick_ring()) as u32;
            let now = advance(written, behind);
            age(last_run, now) > age(written, now)
        }),
        ({
            let last_run = advance(written, ahead);
            let now = advance(last_run, behind);
            !(age(last_run, now) > age(written, now))
        }),
{
}

} // verus!
