//! The decisions of the fixed-interval sampling loop.
//!
//! Each tick reads the metrics, emits one sample, and then looks at the stop
//! signal once: if it has been raised the loop ends, else it sleeps until the
//! next tick. The signal is never looked at in the middle of a tick, so a
//! stop raised during a tick or during the sleep after it ends the loop at
//! the end of the next tick at the latest.
use vstd::prelude::*;

verus! {

/// What the loop does after a tick's sample has been emitted.
#[derive(Clone, Copy, Debug, PartialEq, Eq, Structural)]
pub enum TickAction {
    /// Sleep until the next tick.
    Sleep,
    /// End the loop.
    Finish,
}

/// The state of the sampling loop.
pub struct Sampler {
    ticks: u64,
    finished: bool,
}

/// The state as plain values: ticks run so far, and whether the loop ended.
pub struct SamplerView {
    pub ticks: nat,
    pub finished: bool,
}

/// One tick: its sample counts, and the loop ends if the signal was seen.
pub open spec fn step(st: SamplerView, stop_seen: bool) -> SamplerView {
    SamplerView { ticks: st.ticks + 1, finished: stop_seen }
}

/// The loop's state after the ticks whose end-of-tick observations of the
/// stop signal are `obs`, from `st`. Observations after the loop has ended
/// change nothing: no tick runs then.
pub open spec fn drive(st: SamplerView, obs: Seq<bool>) -> SamplerView
    decreases obs.len(),
{
    if obs.len() == 0 {
        st
    } else {
        let before = drive(st, obs.drop_last());
        if before.finished {
            before
        } else {
            step(before, obs.last())
        }
    }
}

/// A loop that has not run yet.
pub open spec fn fresh() -> SamplerView {
    SamplerView { ticks: 0, finished: false }
}

impl Sampler {
    pub closed spec fn view(&self) -> SamplerView {
        SamplerView { ticks: self.ticks as nat, finished: self.finished }
    }

    /// A loop that has not run yet.
    pub fn new() -> (r: Self)
        ensures
            r.view() == fresh(),
    {
        Sampler { ticks: 0, finished: false }
    }

    /// The number of ticks run so far.
    pub fn ticks(&self) -> (r: u64)
        ensures
            r as nat == self.view().ticks,
    {
        self.ticks
    }

    /// Whether the loop has ended.
    pub fn is_finished(&self) -> (r: bool)
        ensures
            r == self.view().finished,
    {
        self.finished
    }

    /// Records a tick whose sample has been emitted, given whether the stop
    /// signal had been raised when the tick ended, and says what comes next.
    pub fn after_tick(&mut self, stop_seen: bool) -> (r: TickAction)
        requires
            !old(self).view().finished,
            old(self).view().ticks < u64::MAX,
        ensures
            final(self).view() == step(old(self).view(), stop_seen),
            r == (if stop_seen { TickAction::Finish } else { TickAction::Sleep }),
    {
        self.ticks = self.ticks + 1;
        self.finished = stop_seen;
        if stop_seen {
            TickAction::Finish
        } else {
            TickAction::Sleep
        }
    }
}

/// A stop raised while the loop runs ends it within one tick. If the signal
/// is first seen at the end of tick `s` (it was raised after tick `s - 1`
/// ended, and stays raised), the loop ends there after `s + 1` ticks: at
/// most one sample, that of tick `s`, can follow the stop.
pub proof fn lemma_stop_ends_within_one_tick(obs: Seq<bool>, s: nat)
    requires
        s < obs.len(),
        forall|k: int| 0 <= k < obs.len() ==> #[trigger] obs[k] == (k >= s),
    ensures
        drive(fresh(), obs).finished,
        drive(fresh(), obs).ticks == s + 1,
        drive(fresh(), obs).ticks - s <= 1,
{
    lemma_drive_prefix(obs, s, obs.len() as int);
    assert(obs.subrange(0, obs.len() as int) =~= obs);
}

proof fn lemma_drive_prefix(obs: Seq<bool>, s: nat, n: int)
    requires
        s < n <= obs.len(),
        forall|k: int| 0 <= k < obs.len() ==> #[trigger] obs[k] == (k >= s),
    ensures
        drive(fresh(), obs.subrange(0, n)).finished,
        drive(fresh(), obs.subrange(0, n)).ticks == s + 1,
    decreases n,
{
    let p = obs.subrange(0, n);
    assert(p.drop_last() =~= obs.subrange(0, n - 1));
    if n == s + 1 {
        lemma_drive_before_stop(obs, s, s as int);
    } else {
        lemma_drive_prefix(obs, s, n - 1);
    }
}

proof fn lemma_drive_before_stop(obs: Seq<bool>, s: nat, n: int)
    requires
        0 <= n <= s,
        s < obs.len(),
        forall|k: int| 0 <= k < obs.len() ==> #[trigger] obs[k] == (k >= s),
    ensures
        !drive(fresh(), obs.subrange(0, n)).finished,
        drive(fresh(), obs.subrange(0, n)).ticks == n,
    decreases n,
{
    if n > 0 {
        let p = obs.subrange(0, n);
        assert(p.drop_last() =~= obs.subrange(0, n - 1));
        lemma_drive_before_stop(obs, s, n - 1);
        assert(p.last() == obs[n - 1]);
    }
}

} // verus!
