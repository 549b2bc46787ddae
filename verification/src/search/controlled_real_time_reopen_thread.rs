//! When a reader is reopened, and how long callers wait for a change to become
//! visible.

use vstd::prelude::*;

verus! {

/// Knows the last operation that has completed.
pub trait MaxCompletedSequenceNumberSource {
    /// Returns the sequence number of the last operation that has completed. What it
    /// is depends on when it is asked for.
    fn get_max_completed_sequence_number(&self) -> (r: i64);
}

/// What the thread that reopens a reader shares with those who wait for it.
///
/// A generation is the sequence number of an operation.
#[derive(Debug, Clone, Copy)]
pub struct ReopenState {
    /// Whether the thread is to end.
    pub finish: bool,
    /// The greatest generation that someone has waited for.
    pub waiting_gen: i64,
    /// The generation that the current reader holds at least.
    pub searching_gen: i64,
    /// The generation that the reader holds that is being opened.
    pub refresh_start_gen: i64,
}

/// What a caller who waits for a generation does next.
#[derive(Debug, Clone, Copy, PartialEq, Eq, Structural)]
pub enum WaitStep {
    /// The generation is visible.
    Available,
    /// The time is over.
    TimedOut,
    /// Wait until the reader is reopened.
    Wait,
    /// Wait until the reader is reopened, at most for the given milliseconds.
    WaitMillis(i64),
}

/// What the thread that reopens the reader does next.
#[derive(Debug, Clone, Copy, PartialEq, Eq, Structural)]
pub enum ReopenStep {
    /// End.
    Finish,
    /// Sleep for the given nanoseconds, unless woken up.
    SleepNanos(i64),
    /// Reopen the reader.
    Reopen,
}

impl ReopenState {
    /// What a caller does next who has waited for a generation.
    pub open spec fn next_wait(self, target_gen: i64, max_ms: i64, elapsed_ms: i64) -> WaitStep {
        if target_gen <= self.searching_gen {
            WaitStep::Available
        } else if max_ms < 0 {
            WaitStep::Wait
        } else if max_ms <= elapsed_ms {
            WaitStep::TimedOut
        } else {
            WaitStep::WaitMillis((max_ms - elapsed_ms) as i64)
        }
    }

    /// What the thread does next that reopens the reader.
    pub open spec fn next_step(
        self,
        max_stale_ns: i64,
        min_stale_ns: i64,
        elapsed_ns: i64,
    ) -> ReopenStep {
        let stale = if self.waiting_gen > self.searching_gen {
            min_stale_ns
        } else {
            max_stale_ns
        };
        if self.finish {
            ReopenStep::Finish
        } else if stale > elapsed_ns {
            ReopenStep::SleepNanos((stale - elapsed_ns) as i64)
        } else {
            ReopenStep::Reopen
        }
    }

    /// The state after someone asks for a generation.
    pub open spec fn asked_for(self, target_gen: i64) -> ReopenState {
        if target_gen > self.searching_gen && target_gen > self.waiting_gen {
            ReopenState { waiting_gen: target_gen, ..self }
        } else {
            self
        }
    }

    /// Creates the state before the first reopening.
    pub fn new() -> (r: Self)
        ensures
            r == (ReopenState {
                finish: false,
                waiting_gen: 0,
                searching_gen: 0,
                refresh_start_gen: 0,
            }),
    {
        ReopenState { finish: false, waiting_gen: 0, searching_gen: 0, refresh_start_gen: 0 }
    }

    /// Notes the generation that a reopening which starts now makes visible: the last
    /// operation that `writer` has completed.
    pub fn before_refresh<W: MaxCompletedSequenceNumberSource>(&mut self, writer: &W)
        ensures
            call_ensures(
                W::get_max_completed_sequence_number,
                (writer,),
                final(self).refresh_start_gen,
            ),
            *final(self) == (ReopenState {
                refresh_start_gen: final(self).refresh_start_gen,
                ..*old(self)
            }),
    {
        let completed: i64 = writer.get_max_completed_sequence_number();
        self.refresh_started(completed);
    }

    /// Notes that a reopening starts when `completed` is the last operation that has
    /// completed.
    pub fn refresh_started(&mut self, completed: i64)
        ensures
            *final(self) == (ReopenState { refresh_start_gen: completed, ..*old(self) }),
    {
        self.refresh_start_gen = completed;
    }

    /// Makes the generation visible with which the reopening started.
    pub fn after_refresh(&mut self)
        ensures
            *final(self) == (ReopenState {
                searching_gen: old(self).refresh_start_gen,
                ..*old(self)
            }),
    {
        self.searching_gen = self.refresh_start_gen;
    }

    /// Returns the generation that the current reader holds at least.
    pub fn get_searching_gen(&self) -> (r: i64)
        ensures
            r == self.searching_gen,
    {
        self.searching_gen
    }

    /// Notes that someone waits for a generation; returns whether the reopening
    /// thread is to be woken up, which is when the generation is not visible.
    pub fn request_generation(&mut self, target_gen: i64) -> (r: bool)
        ensures
            r == (target_gen > old(self).searching_gen),
            *final(self) == old(self).asked_for(target_gen),
    {
        if target_gen > self.searching_gen {
            if target_gen > self.waiting_gen {
                self.waiting_gen = target_gen;
            }
            true
        } else {
            false
        }
    }

    /// Returns what a caller does next who has waited for a generation for
    /// `elapsed_ms` milliseconds, of at most `max_ms`; a negative `max_ms` sets no
    /// limit.
    pub fn wait_step(&self, target_gen: i64, max_ms: i64, elapsed_ms: i64) -> (r: WaitStep)
        requires
            elapsed_ms >= 0,
        ensures
            r == self.next_wait(target_gen, max_ms, elapsed_ms),
    {
        if target_gen <= self.searching_gen {
            return WaitStep::Available;
        }
        if max_ms < 0 {
            return WaitStep::Wait;
        }
        let ms_left: i64 = max_ms - elapsed_ms;
        if ms_left <= 0 {
            return WaitStep::TimedOut;
        }
        WaitStep::WaitMillis(ms_left)
    }

    /// Returns what the thread does next that started to reopen the reader
    /// `elapsed_ns` nanoseconds ago: it waits for `target_max_stale_ns` in all, or
    /// for `target_min_stale_ns` while someone waits for a generation.
    pub fn reopen_step(
        &self,
        target_max_stale_ns: i64,
        target_min_stale_ns: i64,
        elapsed_ns: i64,
    ) -> (r: ReopenStep)
        requires
            elapsed_ns >= 0,
        ensures
            r == self.next_step(target_max_stale_ns, target_min_stale_ns, elapsed_ns),
    {
        if self.finish {
            return ReopenStep::Finish;
        }
        let has_waiting: bool = self.waiting_gen > self.searching_gen;
        let stale_ns: i64 = if has_waiting {
            target_min_stale_ns
        } else {
            target_max_stale_ns
        };
        if stale_ns > elapsed_ns {
            ReopenStep::SleepNanos(stale_ns - elapsed_ns)
        } else {
            ReopenStep::Reopen
        }
    }

    /// Notes that reopening the reader has failed: the thread ends.
    pub fn reopen_failed(&mut self)
        ensures
            *final(self) == (ReopenState { finish: true, ..*old(self) }),
    {
        self.finish = true;
    }

    /// Tells the thread to end; returns whether there is something to close, which
    /// is not so when it was told before and does not run.
    pub fn begin_close(&mut self, running: bool) -> (r: bool)
        ensures
            r == (running || !old(self).finish),
            !r ==> *final(self) == *old(self),
            r ==> *final(self) == (ReopenState { finish: true, ..*old(self) }),
    {
        if self.finish && !running {
            return false;
        }
        self.finish = true;
        true
    }

    /// Makes every generation visible, so that no one waits any longer.
    pub fn end_close(&mut self)
        ensures
            *final(self) == (ReopenState { searching_gen: i64::MAX, ..*old(self) }),
    {
        self.searching_gen = i64::MAX;
    }
}

/// The state after the reader was reopened, which started when `completed` was the
/// last operation.
pub open spec fn refreshed(state: ReopenState, completed: i64) -> ReopenState {
    ReopenState { refresh_start_gen: completed, searching_gen: completed, ..state }
}

/// A reopening makes every operation visible that had completed when it started:
/// whoever waits for one of them need not wait any longer, however long it took.
pub proof fn reopening_makes_generations_visible(
    state: ReopenState,
    completed: i64,
    target_gen: i64,
    max_ms: i64,
    elapsed_ms: i64,
)
    ensures
        refreshed(state, completed).next_wait(target_gen, max_ms, elapsed_ms) is Available
            <==> target_gen <= completed,
{
}

/// Once the thread is closed, no one waits any longer.
pub proof fn closing_ends_waiting(
    state: ReopenState,
    target_gen: i64,
    max_ms: i64,
    elapsed_ms: i64,
)
    ensures
        (ReopenState { searching_gen: i64::MAX, ..state }).next_wait(
            target_gen,
            max_ms,
            elapsed_ms,
        ) is Available,
{
}

/// Asking for a generation never delays the next reopening, if the time between
/// reopenings is not longer while someone waits.
pub proof fn waiting_hastens_reopening(
    state: ReopenState,
    target_gen: i64,
    max_stale_ns: i64,
    min_stale_ns: i64,
    elapsed_ns: i64,
)
    requires
        min_stale_ns <= max_stale_ns,
        elapsed_ns >= 0,
    ensures
        ({
            let before = state.next_step(max_stale_ns, min_stale_ns, elapsed_ns);
            let after = state.asked_for(target_gen).next_step(
                max_stale_ns,
                min_stale_ns,
                elapsed_ns,
            );
            &&& before is Finish <==> after is Finish
            &&& before is Reopen ==> after is Reopen
            &&& before matches ReopenStep::SleepNanos(long) ==> (after
                matches ReopenStep::SleepNanos(short) ==> short <= long)
        }),
{
}

} // verus!
