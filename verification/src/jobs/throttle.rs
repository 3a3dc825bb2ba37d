//! How often the progress of a job is reported.
use vstd::prelude::*;

verus! {

/// How many nanoseconds a millisecond has.
pub const NANOS_PER_MILLI: u64 = 1_000_000;

/// What thins out the progress events of one job.
#[derive(Debug)]
pub struct ProgressThrottler {
    last_emit_ns: u64,
    last_pct: u8,
    interval_ms: u64,
    pct_threshold: u8,
}

/// What contracts say of a [`ProgressThrottler`].
pub struct ThrottleView {
    /// When the last event went out, in nanoseconds.
    pub last_emit_ns: u64,
    /// The percentage of the last event.
    pub last_pct: u8,
    /// How many milliseconds lie between two events.
    pub interval_ms: u64,
    /// By how many points the percentage must grow for an event to go out earlier.
    pub pct_threshold: u8,
}

impl View for ProgressThrottler {
    type V = ThrottleView;

    closed spec fn view(&self) -> ThrottleView {
        ThrottleView {
            last_emit_ns: self.last_emit_ns,
            last_pct: self.last_pct,
            interval_ms: self.interval_ms,
            pct_threshold: self.pct_threshold,
        }
    }
}

/// The whole milliseconds from `earlier` to `now`; none where time went back.
pub open spec fn elapsed_ms(earlier: u64, now: u64) -> int {
    if now <= earlier {
        0
    } else {
        (now - earlier) / NANOS_PER_MILLI as int
    }
}

/// By how many points the percentage grew; none where it shrank.
pub open spec fn grown(earlier: u8, now: u8) -> int {
    if now <= earlier {
        0
    } else {
        now - earlier
    }
}

/// Whether an event is due: enough time has passed since the last one, or the
/// percentage has grown enough. Either suffices.
pub open spec fn due(t: ThrottleView, now_ns: u64, pct: u8) -> bool {
    elapsed_ms(t.last_emit_ns, now_ns) >= t.interval_ms || grown(t.last_pct, pct)
        >= t.pct_threshold
}

impl ProgressThrottler {
    /// A throttle that no event has passed.
    pub fn new(interval_ms: u64, pct_threshold: u8) -> (r: ProgressThrottler)
        ensures
            r@ == (ThrottleView { last_emit_ns: 0, last_pct: 0, interval_ms, pct_threshold }),
    {
        ProgressThrottler { last_emit_ns: 0, last_pct: 0, interval_ms, pct_threshold }
    }

    /// Whether the event at `pct` percent goes out. One that does is remembered; one
    /// that does not changes nothing.
    pub fn should_emit(&mut self, now_ns: u64, pct: u8) -> (emit: bool)
        ensures
            emit == due(old(self)@, now_ns, pct),
            emit <==> {
                let t = old(self)@;
                ||| t.interval_ms == 0 || now_ns - t.last_emit_ns >= t.interval_ms * 1_000_000
                ||| t.pct_threshold == 0 || pct - t.last_pct >= t.pct_threshold
            },
            final(self)@ == (if emit {
                ThrottleView { last_emit_ns: now_ns, last_pct: pct, ..old(self)@ }
            } else {
                old(self)@
            }),
    {
        let elapsed: u64 = now_ns.saturating_sub(self.last_emit_ns) / NANOS_PER_MILLI;
        let delta: u8 = pct.saturating_sub(self.last_pct);
        let emit = elapsed >= self.interval_ms || delta >= self.pct_threshold;
        if emit {
            self.last_emit_ns = now_ns;
            self.last_pct = pct;
        }
        emit
    }
}

/// The first event goes out as soon as the clock has run for one interval.
pub proof fn first_event_goes_out(interval_ms: u64, pct_threshold: u8, now_ns: u64, pct: u8)
    requires
        now_ns / NANOS_PER_MILLI >= interval_ms,
    ensures
        due(
            ThrottleView { last_emit_ns: 0, last_pct: 0, interval_ms, pct_threshold },
            now_ns,
            pct,
        ),
{
}

/// Two events that go out one after the other are an interval apart, or the percentage
/// has grown by the threshold in between.
pub proof fn events_are_spaced(t: ThrottleView, first_ns: u64, first_pct: u8, now_ns: u64, pct: u8)
    requires
        first_ns <= now_ns,
        due(
            ThrottleView { last_emit_ns: first_ns, last_pct: first_pct, ..t },
            now_ns,
            pct,
        ),
    ensures
        now_ns - first_ns >= t.interval_ms * NANOS_PER_MILLI || pct - first_pct >= t.pct_threshold
            || t.pct_threshold == 0,
{
    if elapsed_ms(first_ns, now_ns) >= t.interval_ms {
        let gap = now_ns - first_ns;
        assert(gap >= (gap / NANOS_PER_MILLI as int) * NANOS_PER_MILLI);
        assert((gap / NANOS_PER_MILLI as int) * NANOS_PER_MILLI >= t.interval_ms * NANOS_PER_MILLI)
            by (nonlinear_arith)
            requires
                gap / NANOS_PER_MILLI as int >= t.interval_ms,
        ;
    }
}

/// An event goes out just where the interval has passed since the last one, or the progress has
/// grown by the threshold; progress that falls back counts as none.
pub proof fn time_or_progress_lets_events_out(t: ThrottleView, now_ns: u64, pct: u8)
    ensures
        now_ns - t.last_emit_ns >= t.interval_ms * 1_000_000 ==> due(t, now_ns, pct),
        pct - t.last_pct >= t.pct_threshold ==> due(t, now_ns, pct),
        t.interval_ms > 0 && t.pct_threshold > 0 && now_ns - t.last_emit_ns < t.interval_ms
            * 1_000_000 && pct - t.last_pct < t.pct_threshold ==> !due(t, now_ns, pct),
{
}

} // verus!
