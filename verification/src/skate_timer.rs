use vstd::prelude::*;

verus! {

/// The lock delay in time units: how long a piece may rest on an obstruction
/// before its placement becomes final.
pub const SKATE_DELAY: u64 = 2_000_000;

/// The countdown that runs while the falling piece rests on an obstruction:
/// the time it has rested so far and the delay after which the piece locks.
#[derive(Clone, Copy, Debug, PartialEq, Eq, Structural)]
pub struct SkateTimer {
    pub elapsed: u64,
    pub threshold: u64,
}

/// The state of the lock delay.
#[derive(Clone, Copy, Debug, PartialEq, Eq, Structural)]
pub enum LockDelay {
    /// The piece has room below it, or there is no piece.
    Absent,
    /// The piece rests on an obstruction and the countdown runs.
    Running(SkateTimer),
    /// The countdown has run out: the placement is to be made final now.
    Fired,
}

/// The state that follows `state` when a tick of length `delta` finds the
/// piece able to move down (`can_descend`) or not. A countdown that starts has
/// the delay `threshold`.
pub open spec fn next_lock_delay(
    state: LockDelay,
    can_descend: bool,
    delta: u64,
    threshold: u64,
) -> LockDelay {
    match state {
        LockDelay::Fired => LockDelay::Absent,
        LockDelay::Absent => if can_descend {
            LockDelay::Absent
        } else {
            LockDelay::Running(SkateTimer { elapsed: 0, threshold })
        },
        LockDelay::Running(t) => if can_descend {
            LockDelay::Absent
        } else if t.elapsed + delta >= t.threshold {
            LockDelay::Fired
        } else {
            LockDelay::Running(
                SkateTimer { elapsed: (t.elapsed + delta) as u64, threshold: t.threshold },
            )
        },
    }
}

impl SkateTimer {
    /// A countdown that has not run yet.
    pub fn new(threshold: u64) -> (t: SkateTimer)
        ensures
            t == (SkateTimer { elapsed: 0, threshold }),
    {
        SkateTimer { elapsed: 0, threshold }
    }

    /// The time left until the piece locks.
    pub open spec fn spec_remaining(&self) -> int {
        if self.elapsed >= self.threshold {
            0
        } else {
            self.threshold - self.elapsed
        }
    }

    /// The time left until the piece locks.
    pub fn remaining(&self) -> (r: u64)
        ensures
            r == self.spec_remaining(),
    {
        if self.elapsed >= self.threshold {
            0
        } else {
            self.threshold - self.elapsed
        }
    }
}

/// Whether a countdown is running.
pub fn skate_timer_present(t: &LockDelay) -> (b: bool)
    ensures
        b == (*t is Running),
{
    match t {
        LockDelay::Running(_) => true,
        _ => false,
    }
}

/// Whether no countdown is running.
pub fn skate_timer_absent(t: &LockDelay) -> (b: bool)
    ensures
        b == !(*t is Running),
{
    !skate_timer_present(t)
}

/// Takes the lock delay through one tick of length `delta`. A countdown
/// starts when the piece cannot move down, is dropped as soon as it can,
/// and fires when the time rested reaches the delay; a fired delay is absent
/// on the next tick.
pub fn step_lock_delay(state: LockDelay, can_descend: bool, delta: u64, threshold: u64) -> (next:
    LockDelay)
    ensures
        next == next_lock_delay(state, can_descend, delta, threshold),
{
    match state {
        LockDelay::Fired => LockDelay::Absent,
        LockDelay::Absent => {
            if can_descend {
                LockDelay::Absent
            } else {
                LockDelay::Running(SkateTimer::new(threshold))
            }
        },
        LockDelay::Running(t) => {
            if can_descend {
                LockDelay::Absent
            } else if t.elapsed >= t.threshold || delta >= t.threshold - t.elapsed {
                LockDelay::Fired
            } else {
                LockDelay::Running(
                    SkateTimer { elapsed: t.elapsed + delta, threshold: t.threshold },
                )
            }
        },
    }
}

/// The sum of the lengths of a run of ticks.
pub open spec fn total(deltas: Seq<u64>) -> int
    decreases deltas.len(),
{
    if deltas.len() == 0 {
        0
    } else {
        total(deltas.drop_last()) + deltas.last()
    }
}

/// The state after a run of ticks during all of which the piece cannot move
/// down.
pub open spec fn after_resting(state: LockDelay, deltas: Seq<u64>, threshold: u64) -> LockDelay
    decreases deltas.len(),
{
    if deltas.len() == 0 {
        state
    } else {
        next_lock_delay(
            after_resting(state, deltas.drop_last(), threshold),
            false,
            deltas.last(),
            threshold,
        )
    }
}

/// While the piece rests and the ticks add up to less than the delay, the
/// countdown keeps running and holds their sum.
pub proof fn lemma_countdown_keeps_running(deltas: Seq<u64>, threshold: u64)
    requires
        total(deltas) < threshold,
    ensures
        after_resting(
            LockDelay::Running(SkateTimer { elapsed: 0, threshold }),
            deltas,
            threshold,
        ) == LockDelay::Running(SkateTimer { elapsed: total(deltas) as u64, threshold }),
        0 <= total(deltas),
    decreases deltas.len(),
{
    lemma_total_nonnegative(deltas);
    if deltas.len() > 0 {
        lemma_total_nonnegative(deltas.drop_last());
        lemma_countdown_keeps_running(deltas.drop_last(), threshold);
    }
}

/// The sum of tick lengths is never negative.
pub proof fn lemma_total_nonnegative(deltas: Seq<u64>)
    ensures
        0 <= total(deltas),
    decreases deltas.len(),
{
    if deltas.len() > 0 {
        lemma_total_nonnegative(deltas.drop_last());
    }
}

/// The tick that brings the time rested up to the delay fires the lock delay;
/// the tick after that finds it absent, whatever that tick brings, and an
/// absent delay never fires. So the delay fires once.
pub proof fn lemma_countdown_fires_once(deltas: Seq<u64>, last: u64, threshold: u64)
    requires
        total(deltas) < threshold,
        total(deltas) + last >= threshold,
    ensures
        after_resting(
            LockDelay::Running(SkateTimer { elapsed: 0, threshold }),
            deltas.push(last),
            threshold,
        ) == LockDelay::Fired,
        forall|can_descend: bool, delta: u64| #[trigger]
            next_lock_delay(LockDelay::Fired, can_descend, delta, threshold) == LockDelay::Absent,
        forall|can_descend: bool, delta: u64| #[trigger]
            next_lock_delay(LockDelay::Absent, can_descend, delta, threshold) != LockDelay::Fired,
{
    lemma_countdown_keeps_running(deltas, threshold);
    assert(deltas.push(last).drop_last() =~= deltas);
    assert(deltas.push(last).last() == last);
}

} // verus!
