use vstd::prelude::*;

verus! {

/// One step of a core's wait for its wake signal: the core may start its
/// tick exactly when the signal was set, and the signal is clear afterwards
/// either way. A `false` result tells the caller to block until the next wake.
pub fn sleep_core(running: &mut bool) -> (woken: bool)
    ensures
        woken == *old(running),
        !*final(running),
{
    let woken = *running;
    *running = false;
    woken
}

/// Sets a core's wake signal, so that its next wait goes through once.
pub fn wake_core(running: &mut bool)
    ensures
        *final(running),
{
    *running = true;
}

} // verus!
