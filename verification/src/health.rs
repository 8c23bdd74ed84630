//! Health of the background tasks: which run, which must, how often tasks were
//! started, stopped and failed, and when the chain last made progress.
use vstd::prelude::*;

use crate::table;
use crate::text;

verus! {

/// Tracks background task health: per-task liveness for the liveness probe, the
/// last successful on-chain progress for the readiness probe, and counts of
/// starts, stops and failures for monitoring.
pub struct TaskHealth {
    /// Count of task starts.
    started: u64,
    /// Count of task stops.
    stopped: u64,
    /// Count of task panics and failures.
    failed: u64,
    /// Per-task liveness, one entry for each task name.
    running: Vec<(&'static str, bool)>,
    /// Names of the tasks that must be running for the service to be healthy.
    required: Vec<&'static str>,
    /// Unix seconds of the last successful poll cycle or stream event; `0`
    /// means never.
    last_success_unix: i64,
}

/// How the join of a task ended.
#[derive(Debug, Clone, Copy, PartialEq, Eq, Structural)]
pub enum JoinOutcome {
    /// The task had returned.
    Returned,
    /// A panic surfaced at the join.
    Panicked,
    /// The task was cancelled before it returned.
    Cancelled,
}

/// What a [`TaskHealth`] records.
#[verifier::ext_equal]
pub struct HealthView {
    pub started: int,
    pub stopped: int,
    pub failed: int,
    pub running: Map<Seq<char>, bool>,
    pub required: Seq<Seq<char>>,
    pub last_success_unix: int,
}

impl HealthView {
    /// Whether a task is running.
    pub open spec fn is_running(self, name: Seq<char>) -> bool {
        self.running.contains_key(name) && self.running[name]
    }

    /// The required tasks that are not running, in the order in which they were
    /// required.
    pub open spec fn dead(self) -> Seq<Seq<char>> {
        self.required.filter(|name: Seq<char>| !self.is_running(name))
    }

    /// The record with one more task required.
    pub open spec fn with_required(self, name: Seq<char>) -> HealthView {
        HealthView { required: self.required.push(name), ..self }
    }

    /// The record after a task started.
    pub open spec fn after_start(self, name: Seq<char>) -> HealthView {
        HealthView {
            started: count_up(self.started),
            running: self.running.insert(name, true),
            ..self
        }
    }

    /// The record after a task stopped.
    pub open spec fn after_stop(self, name: Seq<char>) -> HealthView {
        HealthView {
            stopped: count_up(self.stopped),
            running: self.running.insert(name, false),
            ..self
        }
    }

    /// The record after a task failed.
    pub open spec fn after_failure(self, name: Seq<char>) -> HealthView {
        HealthView {
            failed: count_up(self.failed),
            running: self.running.insert(name, false),
            ..self
        }
    }

    /// The record after a task returned, normally or by a panic.
    pub open spec fn after_return(self, name: Seq<char>, panicked: bool) -> HealthView {
        if panicked {
            self.after_failure(name).after_stop(name)
        } else {
            self.after_stop(name)
        }
    }
}

/// The next value of a 64-bit counter, which starts over behind its largest.
pub open spec fn count_up(n: int) -> int {
    (n + 1) % 0x1_0000_0000_0000_0000
}

/// The liveness that a list of entries records: the first entry of a name
/// counts.
spec fn liveness(entries: Seq<(&'static str, bool)>) -> Map<Seq<char>, bool>
    decreases entries.len(),
{
    if entries.len() == 0 {
        Map::empty()
    } else {
        liveness(entries.drop_first()).insert(entries[0].0@, entries[0].1)
    }
}

/// The names of tasks, as text.
pub open spec fn names(tasks: Seq<&'static str>) -> Seq<Seq<char>> {
    Seq::new(tasks.len(), |i: int| tasks[i]@)
}

/// The background tasks that must keep running: the poller and the stream
/// listener only once a gateway wallet is configured, and the stream listener
/// only where it is in use, since without a wallet they idle by design.
pub open spec fn expected_tasks(gateway_configured: bool, streaming: bool) -> Seq<Seq<char>> {
    (if gateway_configured && streaming {
        seq!["poller"@, "stream"@]
    } else if gateway_configured {
        seq!["poller"@]
    } else {
        Seq::<Seq<char>>::empty()
    }) + seq!["sweeper"@, "retention"@, "redrive"@]
}

impl View for TaskHealth {
    type V = HealthView;

    closed spec fn view(&self) -> HealthView {
        HealthView {
            started: self.started as int,
            stopped: self.stopped as int,
            failed: self.failed as int,
            running: liveness(self.running@),
            required: names(self.required@),
            last_success_unix: self.last_success_unix as int,
        }
    }
}

impl TaskHealth {
    /// No task is required, none runs, and nothing was counted.
    pub fn new() -> (r: Self)
        ensures
            r@ == (HealthView {
                started: 0,
                stopped: 0,
                failed: 0,
                running: Map::empty(),
                required: Seq::empty(),
                last_success_unix: 0,
            }),
    {
        let r = TaskHealth {
            started: 0,
            stopped: 0,
            failed: 0,
            running: Vec::new(),
            required: Vec::new(),
            last_success_unix: 0,
        };
        assert(r@.required =~= Seq::empty());
        r
    }

    /// Declares that the named task must keep running for the service to be
    /// healthy. Call before the task is spawned.
    pub fn require(&mut self, name: &'static str)
        ensures
            final(self)@ == old(self)@.with_required(name@),
    {
        self.required.push(name);
        assert(self@.required =~= old(self)@.required.push(name@));
    }

    /// Declares the tasks that this deployment expects to keep running.
    pub fn require_expected(&mut self, gateway_configured: bool, streaming: bool)
        ensures
            final(self)@ == (HealthView {
                required: old(self)@.required + expected_tasks(gateway_configured, streaming),
                ..old(self)@
            }),
    {
        if gateway_configured {
            self.require("poller");
            if streaming {
                self.require("stream");
            }
        }
        self.require("sweeper");
        self.require("retention");
        self.require("redrive");
        assert(self@.required =~= old(self)@.required + expected_tasks(
            gateway_configured,
            streaming,
        ));
    }

    /// Records whether a task runs.
    fn set_running(&mut self, name: &'static str, alive: bool)
        ensures
            final(self)@ == (HealthView {
                running: old(self)@.running.insert(name@, alive),
                ..old(self)@
            }),
    {
        let mut i: usize = 0;
        while i < self.running.len()
            invariant
                *self == *old(self),
                i <= self.running.len(),
                forall|j: int| 0 <= j < i ==> #[trigger] self.running@[j].0@ != name@,
            decreases self.running.len() - i,
        {
            if text::str_eq(self.running[i].0, name) {
                proof {
                    lemma_liveness_update(self.running@, i as int, name, alive);
                }
                self.running.set(i, (name, alive));
                assert(self@.running =~= old(self)@.running.insert(name@, alive));
                return;
            }
            i += 1;
        }
        proof {
            lemma_liveness_push(self.running@, name, alive);
        }
        self.running.push((name, alive));
    }

    /// A task started.
    pub fn task_started(&mut self, name: &'static str)
        ensures
            final(self)@ == old(self)@.after_start(name@),
    {
        self.started = self.started.wrapping_add(1);
        self.set_running(name, true);
    }

    /// A task stopped.
    pub fn task_stopped(&mut self, name: &'static str)
        ensures
            final(self)@ == old(self)@.after_stop(name@),
    {
        self.stopped = self.stopped.wrapping_add(1);
        self.set_running(name, false);
    }

    /// A task failed. It is by definition not running, even if it is never
    /// recorded as stopped.
    pub fn task_failed(&mut self, name: &'static str)
        ensures
            final(self)@ == old(self)@.after_failure(name@),
    {
        self.failed = self.failed.wrapping_add(1);
        self.set_running(name, false);
    }

    /// A spawned task returned, normally or by panicking. A panic counts as a
    /// failure; either way the task is stopped.
    pub fn task_returned(&mut self, name: &'static str, panicked: bool)
        ensures
            final(self)@ == old(self)@.after_return(name@, panicked),
    {
        if panicked {
            self.task_failed(name);
        }
        self.task_stopped(name);
    }

    /// A task was joined during shutdown. A join that gives an error is
    /// unexpected; if one surfaces, it is recorded, so that the failure counter
    /// and any alert watching it fire.
    pub fn task_joined(&mut self, name: &'static str, outcome: JoinOutcome)
        ensures
            final(self)@ == (if outcome is Returned {
                old(self)@
            } else {
                old(self)@.after_failure(name@)
            }),
    {
        match outcome {
            JoinOutcome::Returned => {},
            JoinOutcome::Panicked | JoinOutcome::Cancelled => self.task_failed(name),
        }
    }

    /// Whether a task is running.
    fn runs(&self, name: &str) -> (r: bool)
        ensures
            r == self@.is_running(name@),
    {
        let mut i: usize = 0;
        while i < self.running.len()
            invariant
                i <= self.running.len(),
                forall|j: int| 0 <= j < i ==> #[trigger] self.running@[j].0@ != name@,
            decreases self.running.len() - i,
        {
            if text::str_eq(self.running[i].0, name) {
                proof {
                    lemma_liveness_first(self.running@, i as int);
                }
                return self.running[i].1;
            }
            i += 1;
        }
        proof {
            lemma_liveness_absent(self.running@, name@);
        }
        false
    }

    /// Names of required tasks that are not currently running, empty when the
    /// service is healthy.
    pub fn dead_required_tasks(&self) -> (r: Vec<&'static str>)
        ensures
            names(r@) == self@.dead(),
    {
        let mut dead: Vec<&'static str> = Vec::new();
        let mut i: usize = 0;
        let ghost all = self@.required;
        let ghost is_dead = |name: Seq<char>| !self@.is_running(name);
        assert(all.take(0) =~= Seq::empty());
        assert(names(dead@) =~= Seq::empty());
        reveal(Seq::filter);
        while i < self.required.len()
            invariant
                all == names(self.required@),
                is_dead == (|name: Seq<char>| !self@.is_running(name)),
                i <= self.required.len(),
                names(dead@) == all.take(i as int).filter(is_dead),
            decreases self.required.len() - i,
        {
            let name = self.required[i];
            proof {
                reveal(Seq::filter);
                assert(all.take(i + 1).drop_last() =~= all.take(i as int));
                assert(all.take(i + 1).last() == name@);
                assert(names(dead@.push(name)) =~= names(dead@).push(name@));
            }
            if !self.runs(name) {
                dead.push(name);
            }
            i += 1;
        }
        assert(all.take(i as int) =~= all);
        dead
    }

    /// Records successful on-chain progress, a completed poll cycle or a
    /// received stream event, at the current time.
    pub fn note_success(&mut self)
        ensures
            exists|clock: Option<u64>|
                final(self)@ == (HealthView {
                    last_success_unix: #[trigger] clock_secs(clock),
                    ..old(self)@
                }),
    {
        let clock = secs_since_epoch();
        self.note_success_at(clock);
        assert(self@ == (HealthView { last_success_unix: clock_secs(clock), ..old(self)@ }));
    }

    /// Records successful on-chain progress at a reading of the clock.
    pub fn note_success_at(&mut self, clock: Option<u64>)
        ensures
            final(self)@ == (HealthView { last_success_unix: clock_secs(clock), ..old(self)@ }),
    {
        self.set_last_success_unix(secs_of_clock(clock));
    }

    /// Overwrites the time of the last success.
    pub fn set_last_success_unix(&mut self, unix_secs: i64)
        ensures
            final(self)@ == (HealthView { last_success_unix: unix_secs as int, ..old(self)@ }),
    {
        self.last_success_unix = unix_secs;
    }

    /// Seconds since the last successful poll or stream event, at a reading of
    /// the clock. A never-updated time (`0`) reads as maximally stale; a clock
    /// before the epoch saturates at `0` rather than going negative.
    pub fn success_age_at(&self, clock: Option<u64>) -> (r: i64)
        ensures
            r == success_age(clock, self@.last_success_unix),
    {
        let last: i64 = self.last_success_unix;
        let age: i64 = match secs_of_clock(clock).checked_sub(last) {
            Some(age) => age,
            None => if last > 0 {
                i64::MIN
            } else {
                i64::MAX
            },
        };
        if clock.is_none() && age < 0 {
            0
        } else {
            age
        }
    }

    /// Seconds since the last successful poll or stream event.
    pub fn last_success_age_secs(&self) -> (r: i64)
        ensures
            exists|clock: Option<u64>| r == #[trigger] success_age(clock, self@.last_success_unix),
    {
        let clock = secs_since_epoch();
        self.success_age_at(clock)
    }
}

impl Default for TaskHealth {
    fn default() -> (r: Self)
        ensures
            r@ == (HealthView {
                started: 0,
                stopped: 0,
                failed: 0,
                running: Map::empty(),
                required: Seq::empty(),
                last_success_unix: 0,
            }),
    {
        TaskHealth::new()
    }
}

/// The seconds since the epoch that a clock reading stands for: the two's
/// complement reading of its 64 bits, and `0` for a clock before the epoch.
pub open spec fn clock_secs(clock: Option<u64>) -> int {
    match clock {
        Some(secs) => if secs <= i64::MAX {
            secs as int
        } else {
            secs - 0x1_0000_0000_0000_0000
        },
        None => 0,
    }
}

/// `a - b`, clipped to 64 bits.
pub open spec fn saturating_difference(a: int, b: int) -> int {
    if a - b > i64::MAX {
        i64::MAX as int
    } else if a - b < i64::MIN {
        i64::MIN as int
    } else {
        a - b
    }
}

/// The age of a success at a reading of the clock.
pub open spec fn success_age(clock: Option<u64>, last: int) -> int {
    let age = saturating_difference(clock_secs(clock), last);
    if clock is None && age < 0 {
        0
    } else {
        age
    }
}

/// The Unix seconds of a clock reading.
pub fn secs_of_clock(clock: Option<u64>) -> (r: i64)
    ensures
        r == clock_secs(clock),
{
    match clock {
        Some(secs) => {
            if secs <= i64::MAX as u64 {
                secs as i64
            } else {
                -((u64::MAX - secs) as i64) - 1
            }
        },
        None => 0,
    }
}

/// Reads the system clock: `std::time::SystemTime::elapsed` of the epoch, in
/// whole seconds, or `None` where the clock stands before the epoch. Nothing is
/// promised of the reading.
#[verifier::external_body]
fn secs_since_epoch() -> (r: Option<u64>)
{
    match std::time::UNIX_EPOCH.elapsed() {
        Ok(elapsed) => Some(elapsed.as_secs()),
        Err(_) => None,
    }
}

/// Current Unix time in whole seconds, `0` where the clock stands before the
/// epoch.
pub fn unix_now_secs() -> (r: i64)
    ensures
        exists|clock: Option<u64>| r == #[trigger] clock_secs(clock),
{
    let clock = secs_since_epoch();
    secs_of_clock(clock)
}

/// A task is reported dead exactly when it is required and not running; a task
/// that is not required never fails the liveness probe.
pub proof fn law_dead_iff_required_and_not_running(h: HealthView, name: Seq<char>)
    ensures
        h.dead().contains(name) <==> h.required.contains(name) && !h.is_running(name),
{
    let is_dead = |n: Seq<char>| !h.is_running(n);
    table::lemma_filter_members(h.required, is_dead, name);
}

/// A task that was started, and neither stopped nor failed since, is not
/// reported dead.
pub proof fn law_started_task_is_alive(h: HealthView, name: Seq<char>)
    ensures
        !h.after_start(name).dead().contains(name),
{
    law_dead_iff_required_and_not_running(h.after_start(name), name);
}

/// A required task is reported dead once it stopped, failed, or returned, even
/// where a failed task is never recorded as stopped.
pub proof fn law_ended_required_task_is_dead(h: HealthView, name: Seq<char>, panicked: bool)
    requires
        h.required.contains(name),
    ensures
        h.after_stop(name).dead().contains(name),
        h.after_failure(name).dead().contains(name),
        h.after_return(name, panicked).dead().contains(name),
{
    law_dead_iff_required_and_not_running(h.after_stop(name), name);
    law_dead_iff_required_and_not_running(h.after_failure(name), name);
    law_dead_iff_required_and_not_running(h.after_return(name, panicked), name);
}

/// What happens to one task does not change what is reported of another.
pub proof fn law_tasks_are_independent(h: HealthView, name: Seq<char>, other: Seq<char>)
    requires
        name != other,
    ensures
        h.after_start(name).dead().contains(other) <==> h.dead().contains(other),
        h.after_stop(name).dead().contains(other) <==> h.dead().contains(other),
        h.after_failure(name).dead().contains(other) <==> h.dead().contains(other),
{
    law_dead_iff_required_and_not_running(h, other);
    law_dead_iff_required_and_not_running(h.after_start(name), other);
    law_dead_iff_required_and_not_running(h.after_stop(name), other);
    law_dead_iff_required_and_not_running(h.after_failure(name), other);
}

/// A success has age zero at the reading of the clock at which it was noted, and
/// `n` seconds later its age is `n`.
pub proof fn law_success_ages_with_the_clock(noted: u64, n: u64)
    requires
        noted + n <= i64::MAX,
    ensures
        success_age(Some(noted), clock_secs(Some(noted))) == 0,
        success_age(Some((noted + n) as u64), clock_secs(Some(noted))) == n,
{
}

/// A clock before the epoch never makes an age negative.
pub proof fn law_age_before_epoch_is_not_negative(last: i64)
    ensures
        success_age(None, last as int) >= 0,
{
}

/// The required tasks that are reported dead are those without a record, or with one
/// that says that they do not run, in the order in which they were required.
pub proof fn law_dead_tasks_come_in_order(h: HealthView, i: int, j: int)
    requires
        0 <= i < j < h.required.len(),
        !(h.running.contains_key(h.required[i]) && h.running[h.required[i]]),
        !(h.running.contains_key(h.required[j]) && h.running[h.required[j]]),
    ensures
        exists|a: int, b: int|
            0 <= a < b < h.dead().len() && #[trigger] h.dead()[a] == h.required[i]
                && #[trigger] h.dead()[b] == h.required[j],
{
    let p = |n: Seq<char>| !h.is_running(n);
    let r = table::lemma_filter_keeps_order(h.required, p, i, j);
    assert(h.dead()[r.0] == h.required[i] && h.dead()[r.1] == h.required[j]);
}

/// Every start, stop and failure is counted once, and recorded of its task; the tasks
/// that are required and the last success stay.
pub proof fn law_events_are_counted(h: HealthView, name: Seq<char>)
    requires
        0 <= h.started < 0xffff_ffff_ffff_ffff,
        0 <= h.stopped < 0xffff_ffff_ffff_ffff,
        0 <= h.failed < 0xffff_ffff_ffff_ffff,
    ensures
        h.after_start(name) == (HealthView {
            started: h.started + 1,
            running: h.running.insert(name, true),
            ..h
        }),
        h.after_stop(name) == (HealthView {
            stopped: h.stopped + 1,
            running: h.running.insert(name, false),
            ..h
        }),
        h.after_failure(name) == (HealthView {
            failed: h.failed + 1,
            running: h.running.insert(name, false),
            ..h
        }),
        h.after_return(name, false) == h.after_stop(name),
        h.after_return(name, true) == (HealthView {
            failed: h.failed + 1,
            stopped: h.stopped + 1,
            running: h.running.insert(name, false),
            ..h
        }),
{
    assert(h.running.insert(name, false).insert(name, false) =~= h.running.insert(name, false));
}

/// A task that is required comes behind those that are, and nothing else changes.
pub proof fn law_requirement_is_added(h: HealthView, name: Seq<char>)
    ensures
        h.with_required(name) == (HealthView { required: h.required.push(name), ..h }),
        h.with_required(name).required.contains(name),
{
    assert(h.with_required(name).required[h.required.len() as int] == name);
}

/// Which tasks must run: the sweeper, retention and redrive always, the poller with a
/// gateway wallet, and the stream with a wallet where streaming is in use.
pub proof fn law_expected_tasks(gateway_configured: bool, streaming: bool, name: Seq<char>)
    ensures
        expected_tasks(gateway_configured, streaming).contains(name) <==> {
            ||| name == "sweeper"@
            ||| name == "retention"@
            ||| name == "redrive"@
            ||| name == "poller"@ && gateway_configured
            ||| name == "stream"@ && gateway_configured && streaming
        },
        expected_tasks(gateway_configured, streaming).len() == 3 + (if gateway_configured {
            1int
        } else {
            0
        }) + (if gateway_configured && streaming {
            1int
        } else {
            0
        }),
{
    let t = expected_tasks(gateway_configured, streaming);
    if gateway_configured && streaming {
        assert(t =~= seq!["poller"@, "stream"@, "sweeper"@, "retention"@, "redrive"@]);
        assert(t[0] == "poller"@ && t[1] == "stream"@ && t[2] == "sweeper"@ && t[3] == "retention"@
            && t[4] == "redrive"@);
    } else if gateway_configured {
        assert(t =~= seq!["poller"@, "sweeper"@, "retention"@, "redrive"@]);
        assert(t[0] == "poller"@ && t[1] == "sweeper"@ && t[2] == "retention"@ && t[3]
            == "redrive"@);
    } else {
        assert(t =~= seq!["sweeper"@, "retention"@, "redrive"@]);
        assert(t[0] == "sweeper"@ && t[1] == "retention"@ && t[2] == "redrive"@);
    }
}

/// A reading of the clock is its seconds, and zero before the epoch; the age of a
/// success is the difference, and never below zero before the epoch.
pub proof fn law_age_is_the_difference(secs: u64, last: i64)
    requires
        secs <= 0x7fff_ffff_ffff_ffff,
        i64::MIN <= secs - last <= i64::MAX,
    ensures
        clock_secs(Some(secs)) == secs,
        clock_secs(None) == 0,
        success_age(Some(secs), last as int) == secs - last,
        last >= 0 ==> success_age(None, last as int) == 0,
        i64::MIN < last < 0 ==> success_age(None, last as int) == -last,
{
}

/// A counter behind its largest value starts over at zero, and so do a task's start, stop
/// and failure counts.
pub proof fn law_counters_start_over(h: HealthView, name: Seq<char>)
    ensures
        h.started == u64::MAX ==> h.after_start(name).started == 0,
        h.stopped == u64::MAX ==> h.after_stop(name).stopped == 0,
        h.failed == u64::MAX ==> h.after_failure(name).failed == 0,
{
}

/// A reading of the clock beyond the signed range wraps around into it.
pub proof fn law_late_clock_wraps(secs: u64)
    ensures
        i64::MIN <= clock_secs(Some(secs)) <= i64::MAX,
        clock_secs(Some(secs)) == secs || clock_secs(Some(secs)) + 2 * 0x8000_0000_0000_0000
            == secs,
{
}

/// An age that does not fit in 64 bits is the nearest that does.
pub proof fn law_age_is_clipped(clock: Option<u64>, last: i64, other: i64)
    requires
        clock is Some,
    ensures
        ({
            let exact = clock_secs(clock) - last;
            let age = success_age(clock, last as int);
            &&& i64::MIN <= age <= i64::MAX
            &&& exact <= other ==> age <= other
            &&& exact >= other ==> age >= other
        }),
{
}

proof fn lemma_liveness_absent(entries: Seq<(&'static str, bool)>, name: Seq<char>)
    requires
        forall|j: int| 0 <= j < entries.len() ==> #[trigger] entries[j].0@ != name,
    ensures
        !liveness(entries).contains_key(name),
    decreases entries.len(),
{
    if entries.len() > 0 {
        let rest = entries.drop_first();
        assert forall|j: int| 0 <= j < rest.len() implies #[trigger] rest[j].0@ != name by {
            assert(rest[j] == entries[j + 1]);
        }
        lemma_liveness_absent(rest, name);
        assert(entries[0].0@ != name);
    }
}

proof fn lemma_liveness_first(entries: Seq<(&'static str, bool)>, i: int)
    requires
        0 <= i < entries.len(),
        forall|j: int| 0 <= j < i ==> #[trigger] entries[j].0@ != entries[i].0@,
    ensures
        liveness(entries).contains_key(entries[i].0@),
        liveness(entries)[entries[i].0@] == entries[i].1,
    decreases entries.len(),
{
    if i > 0 {
        let rest = entries.drop_first();
        assert forall|j: int| 0 <= j < i - 1 implies #[trigger] rest[j].0@ != rest[i - 1].0@ by {
            assert(rest[j] == entries[j + 1]);
        }
        lemma_liveness_first(rest, i - 1);
        assert(entries[0].0@ != entries[i].0@);
    }
}

proof fn lemma_liveness_update(
    entries: Seq<(&'static str, bool)>,
    i: int,
    name: &'static str,
    alive: bool,
)
    requires
        0 <= i < entries.len(),
        entries[i].0@ == name@,
        forall|j: int| 0 <= j < i ==> #[trigger] entries[j].0@ != name@,
    ensures
        liveness(entries.update(i, (name, alive))) == liveness(entries).insert(name@, alive),
    decreases entries.len(),
{
    let rest = entries.drop_first();
    let updated = entries.update(i, (name, alive));
    if i > 0 {
        assert forall|j: int| 0 <= j < i - 1 implies #[trigger] rest[j].0@ != name@ by {
            assert(rest[j] == entries[j + 1]);
        }
        lemma_liveness_update(rest, i - 1, name, alive);
        assert(updated.drop_first() =~= rest.update(i - 1, (name, alive)));
        assert(entries[0].0@ != name@);
    } else {
        assert(updated.drop_first() =~= rest);
    }
    assert(liveness(updated) =~= liveness(entries).insert(name@, alive));
}

proof fn lemma_liveness_push(
    entries: Seq<(&'static str, bool)>,
    name: &'static str,
    alive: bool,
)
    requires
        forall|j: int| 0 <= j < entries.len() ==> #[trigger] entries[j].0@ != name@,
    ensures
        liveness(entries.push((name, alive))) == liveness(entries).insert(name@, alive),
    decreases entries.len(),
{
    let pushed = entries.push((name, alive));
    if entries.len() > 0 {
        let rest = entries.drop_first();
        assert forall|j: int| 0 <= j < rest.len() implies #[trigger] rest[j].0@ != name@ by {
            assert(rest[j] == entries[j + 1]);
        }
        lemma_liveness_push(rest, name, alive);
        assert(pushed.drop_first() =~= rest.push((name, alive)));
        assert(entries[0].0@ != name@);
        assert(pushed[0] == entries[0]);
    } else {
        assert(pushed.drop_first() =~= Seq::empty());
        reveal_with_fuel(liveness, 2);
    }
    assert(liveness(pushed) =~= liveness(entries).insert(name@, alive));
}

} // verus!
