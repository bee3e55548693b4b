//! How long a crossing takes.
use crate::time::SECOND;
use crate::transition::{does_something, taken, Crossing};
use vstd::prelude::*;

verus! {

/// A crossing takes from each side as long as it lasts, half a minute at most;
/// through a colour it takes half of that, as each side has its own half. One
/// that lasts no time, or is a plain cut, takes nothing.
pub proof fn law_a_crossing_takes_as_long_as_it_lasts(kind: Crossing, seconds: int)
    ensures
        ({
            let t = taken(kind, seconds);
            let cut = kind == Crossing::Hard || seconds <= 0;
            &&& does_something(kind, seconds) == !cut
            &&& cut ==> t == 0
            &&& !cut && !(kind is Fade) && seconds <= 30 * SECOND ==> t == seconds
            &&& !cut && !(kind is Fade) && seconds > 30 * SECOND ==> t == 30 * SECOND
            &&& !cut && kind is Fade && seconds <= 30 * SECOND ==> 2 * t <= seconds <= 2 * t + 1
            &&& !cut && kind is Fade && seconds > 30 * SECOND ==> t == 15 * SECOND
        }),
{
}

} // verus!
