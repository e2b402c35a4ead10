//! What the transport tells its listeners, and how its handle winds down.
use vstd::prelude::*;

verus! {

/// Which way a relative seek moves the playhead.
#[derive(Clone, Copy, Debug, PartialEq, Eq, Structural)]
pub enum SeekDirection {
    /// Later in the track.
    Forward,
    /// Earlier in the track.
    Backward,
}

/// What the engine is playing, if anything.
#[derive(Clone, Copy, Debug, PartialEq, Eq, Structural)]
pub enum Mode {
    /// Nothing is loaded or playing.
    Idle,
    /// Playing a local queue entry.
    Local,
    /// Playing a web-radio stream.
    Radio,
}

/// How long a shutdown waits for the engine thread, in milliseconds.
pub const SHUTDOWN_WAIT_MS: u64 = 3000;

/// What to do next while the engine thread winds down.
#[derive(Clone, Copy, Debug, PartialEq, Eq, Structural)]
pub enum ShutdownStep {
    /// The thread still runs and may yet end in time: look again shortly.
    Wait,
    /// The thread has ended: collect it.
    Join,
    /// The thread missed its deadline: leave without it.
    Abandon,
}

/// Decides the next step of a shutdown from whether the thread has ended and
/// how long it has been waited for.
pub fn shutdown_step(finished: bool, waited_ms: u64) -> (step: ShutdownStep)
    ensures
        step == ShutdownStep::Join <==> finished,
        step == ShutdownStep::Wait <==> !finished && waited_ms < SHUTDOWN_WAIT_MS,
        step == ShutdownStep::Abandon <==> !finished && waited_ms >= SHUTDOWN_WAIT_MS,
{
    if finished {
        ShutdownStep::Join
    } else if waited_ms < SHUTDOWN_WAIT_MS {
        ShutdownStep::Wait
    } else {
        ShutdownStep::Abandon
    }
}

/// The epoch claimed by a station request when `last` was claimed before it.
pub fn next_station_epoch(last: u64) -> (epoch: u64)
    ensures
        epoch as int == (last + 1) % 0x1_0000_0000_0000_0000,
        epoch != last,
{
    last.wrapping_add(1)
}

/// Whether work begun under `claimed` is still wanted: nothing has been
/// started since.
pub fn station_is_current(claimed: u64, latest: u64) -> (current: bool)
    ensures
        current == (claimed == latest),
{
    claimed == latest
}

/// A claim retires the request that came before it.
pub proof fn a_claim_retires_the_last_one(last: u64, epoch: u64)
    requires
        epoch as int == (last + 1) % 0x1_0000_0000_0000_0000,
    ensures
        last != epoch,
{
}

} // verus!
