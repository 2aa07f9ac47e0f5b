//! Detecting a world Minecraft currently has open.
//!
//! Writes under a live world do not survive: `level.dat` is rewritten from the
//! game's memory on every save, and a second writer against a live `db/` can
//! corrupt it. A lock file cannot detect this, so recent write activity in
//! `db/` is the signal instead, in two phases: [`looks_in_use`] suspects,
//! [`confirm_in_use`] decides.
//!
//! Deliberately one-sided. A false positive costs a retry; a false negative
//! costs a silent revert or a damaged save. Timings err long, and callers
//! refuse rather than warn.
//!
//! Times are nanoseconds since the Unix epoch. Reading the modification
//! times and the clock, and waiting between looks, are the caller's.
use crate::discovery::World;
use crate::error::CoreError;
use vstd::prelude::*;

verus! {

/// How recently `db/` must have been written, in milliseconds, for a world
/// to be suspected of being in use: twice the longest autosave gap measured
/// against a live world (10 s). Twice, not equal: [`looks_in_use`] compares
/// with `<`, so a window equal to the worst case reads a live world as free
/// whenever the game leaves a full gap.
pub const ACTIVITY_WINDOW_MS: u64 = 20000;

/// How long, in milliseconds, the confirming watch looks for a new write
/// before concluding the recent one was a one-off. It must exceed the longest
/// autosave gap, or a live world could stay quiet for the whole watch.
pub const CONFIRM_WATCH_MS: u64 = 20000;

/// The pause, in milliseconds, between two looks during the watch.
pub const CONFIRM_TICK_MS: u64 = 500;

/// What a write to an open world would put at risk.
#[derive(Debug, Clone, Copy, PartialEq, Eq, Structural)]
pub enum AtRisk {
    /// `level.dat`: a write succeeds, reads back correct, and is discarded at
    /// the next save.
    LevelDat,
    /// The world's database: opening it is itself a write, and a second
    /// writer against a live database can corrupt the save unrecoverably.
    Database,
}

/// Whether a database last written at `newest` is suspected of being in use
/// at `now`: written less than the window ago, or apparently in the future.
pub open spec fn suspected(newest: Option<u128>, now: u128) -> bool {
    match newest {
        None => false,
        Some(t) => now < t || now - t < ACTIVITY_WINDOW_MS * 1000000,
    }
}

/// Whether `db/` was written recently enough to suspect Minecraft has the
/// world open. `newest` is the latest modification time of anything directly
/// inside it, `None` for a missing, unreadable or empty database, which
/// reports `false`. Instant and deliberately trigger-happy; not an answer on
/// its own.
pub fn looks_in_use(newest: Option<u128>, now: u128) -> (r: bool)
    ensures
        r == suspected(newest, now),
{
    match newest {
        None => false,
        Some(t) => {
            if now < t {
                true
            } else {
                now - t < (ACTIVITY_WINDOW_MS as u128) * 1000000
            }
        },
    }
}

/// Whether the looks taken during the watch saw the world being written: a
/// write newer than the baseline, or the newest file gone.
pub open spec fn written_during(baseline: u128, looks: Seq<Option<u128>>) -> bool {
    exists|i: int|
        #![trigger looks[i]]
        0 <= i < looks.len() && (looks[i] is None || looks[i]->0 > baseline)
}

/// Decides the watch that tells a live world from a command that just
/// finished writing one: a live world keeps writing, a finished command
/// does not. `baseline` is the newest write when the watch began, `None`
/// clearing the world at once; `looks` are the newest writes seen at each
/// tick so far. The caller stops at the first `true`, or once the watch has
/// run its length.
pub fn confirm_in_use(baseline: Option<u128>, looks: &Vec<Option<u128>>) -> (r: bool)
    ensures
        r == match baseline {
            Some(b) => written_during(b, looks@),
            None => false,
        },
{
    let b = match baseline {
        Some(b) => b,
        None => return false,
    };
    let mut i: usize = 0;
    while i < looks.len()
        invariant
            i <= looks@.len(),
            baseline == Some(b),
            forall|j: int| 0 <= j < i ==> (#[trigger] looks@[j] matches Some(t) && t <= b),
        decreases looks@.len() - i,
    {
        match looks[i] {
            Some(t) => {
                if t > b {
                    assert(looks@[i as int] is None || looks@[i as int]->0 > b);
                    return true;
                }
            },
            None => {
                assert(looks@[i as int] is None || looks@[i as int]->0 > b);
                return true;
            },
        }
        i += 1;
    }
    assert(!written_during(b, looks@)) by {
        if written_during(b, looks@) {
            let j = choose|j: int|
                #![trigger looks@[j]]
                0 <= j < looks@.len() && (looks@[j] is None || looks@[j]->0 > b);
            assert(looks@[j] matches Some(t) && t <= b);
        }
    }
    false
}

/// Refuses when Minecraft appears to have `world` open: suspected from the
/// recent activity, not explained by this library's own last write, and
/// confirmed by the watch.
///
/// Write paths must call this before taking a backup or opening anything, so
/// a refusal leaves no trace. Read paths must not: reads work from a snapshot
/// and are safe at any time. The caller need only find out whether the
/// write was its own when the world is suspected, and only watch when it
/// was not.
pub fn refuse_if_in_use(world: &World, at_risk: AtRisk, suspected: bool, ours: bool, confirmed: bool) -> (r: Result<
    (),
    CoreError,
>)
    ensures
        r is Err <==> (suspected && !ours && confirmed),
        r matches Err(e) ==> (e matches CoreError::WorldInUse { world: w, at_risk: a } && w@
            == world.path@ && a == at_risk),
{
    if !suspected || ours || !confirmed {
        return Ok(());
    }
    Err(CoreError::WorldInUse { world: world.path.clone(), at_risk })
}

} // verus!
