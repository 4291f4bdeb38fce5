//! Decisions of the model manager: the order of a load, which executor core runs
//! which session, and what is reported of a ring.
use crate::model::{LoadError, ModelRepositoryConfig};
use crate::ring;
use crate::supertensor::SuperTensorMetricsSnapshot;
use crate::text;
use vstd::arithmetic::div_mod::*;
use vstd::prelude::*;

verus! {

/// One session on its way to an executor core.
pub struct Assignment {
    pub executor_id: String,
    /// Number of the executor core.
    pub starter: usize,
}

/// The name of executor `i` of a model.
pub open spec fn executor_name(model_name: Seq<char>, i: nat) -> Seq<char> {
    model_name + "-executor-"@ + text::decimal(i)
}

/// The executor core for the session that is the `n`-th to be handed out.
pub open spec fn starter_of(n: int, starters: int) -> int {
    ring::wrap(n) as int % starters
}

/// Hands sessions to executor cores in turn, over all models.
pub struct RoundRobin {
    /// Sessions handed out so far, as a counter that wraps.
    pub count: usize,
}

impl RoundRobin {
    pub fn new() -> (r: RoundRobin)
        ensures
            r.count == 0,
    {
        RoundRobin { count: 0 }
    }

    /// The executor core for the next session.
    pub fn next_starter(&mut self, starters: usize) -> (r: usize)
        requires
            starters > 0,
        ensures
            r == starter_of(old(self).count as int, starters as int),
            final(self).count == ring::wrap(old(self).count + 1),
    {
        proof {
            ring::lemma_wrapping_ops(self.count, 1);
            ring::lemma_wrap_small(self.count);
        }
        let r = self.count % starters;
        self.count = self.count.wrapping_add(1);
        r
    }

    /// Assigns session number `session` of a model.
    pub fn assign(&mut self, model_name: &str, session: usize, starters: usize) -> (r: Assignment)
        requires
            starters > 0,
        ensures
            r.executor_id@ == executor_name(model_name@, session as nat),
            r.starter == starter_of(old(self).count as int, starters as int),
            final(self).count == ring::wrap(old(self).count + 1),
    {
        let mut executor_id = model_name.to_owned();
        executor_id.append("-executor-");
        text::push_decimal(&mut executor_id, session as u64);
        let starter = self.next_starter(starters);
        Assignment { executor_id, starter }
    }
}

/// How far the load of a model has come, with what is being done.
#[derive(Clone, Copy, Debug, PartialEq, Eq, Structural)]
pub enum LoadPhase {
    /// Session number so-and-so is being built.
    Building(usize),
    Allocating,
    MakingRing,
    /// Session number so-and-so is being warmed up.
    Warming(usize),
    /// The model is being made available to requests.
    Publishing,
    /// Session number so-and-so is being sent to its executor core.
    Sending(usize),
    Loaded,
    Failed,
}

/// What is to be done next to load a model.
pub enum LoadAction {
    BuildSession { session: usize },
    CreateAllocator,
    MakeRing,
    WarmUp { session: usize },
    Publish,
    Send { session: usize },
    /// The model is loaded.
    Done,
    /// The model is not loaded, for that reason.
    Fail(LoadError),
    /// There is nothing left to be done.
    Idle,
}

/// The phase behind `phase`, where what was done in it succeeded or not. Nothing
/// follows a failure.
pub open spec fn next_load_phase(phase: LoadPhase, num_executors: int, succeeded: bool) -> LoadPhase {
    match phase {
        LoadPhase::Loaded => LoadPhase::Loaded,
        LoadPhase::Failed => LoadPhase::Failed,
        _ if !succeeded => LoadPhase::Failed,
        LoadPhase::Building(i) => if i + 1 < num_executors {
            LoadPhase::Building((i + 1) as usize)
        } else {
            LoadPhase::Allocating
        },
        LoadPhase::Allocating => LoadPhase::MakingRing,
        LoadPhase::MakingRing => LoadPhase::Warming(0),
        LoadPhase::Warming(i) => if i + 1 < num_executors {
            LoadPhase::Warming((i + 1) as usize)
        } else {
            LoadPhase::Publishing
        },
        LoadPhase::Publishing => LoadPhase::Sending(0),
        LoadPhase::Sending(i) => if i + 1 < num_executors {
            LoadPhase::Sending((i + 1) as usize)
        } else {
            LoadPhase::Loaded
        },
    }
}

/// `action` is what a phase asks for, where the phase before ended with `event`.
pub open spec fn is_load_action(action: LoadAction, phase: LoadPhase, event: Result<(), LoadError>) -> bool {
    match phase {
        LoadPhase::Building(i) => action == (LoadAction::BuildSession { session: i }),
        LoadPhase::Allocating => action == LoadAction::CreateAllocator,
        LoadPhase::MakingRing => action == LoadAction::MakeRing,
        LoadPhase::Warming(i) => action == (LoadAction::WarmUp { session: i }),
        LoadPhase::Publishing => action == LoadAction::Publish,
        LoadPhase::Sending(i) => action == (LoadAction::Send { session: i }),
        LoadPhase::Loaded => action == LoadAction::Done,
        LoadPhase::Failed => match event {
            Err(e) => action == LoadAction::Fail(e),
            Ok(()) => action == LoadAction::Idle,
        },
    }
}

/// One step of the load of a model: from a phase and how it ended to the next
/// phase and what is to be done in it. A load begins with the phase
/// `Building(0)`.
pub fn load_step(phase: LoadPhase, num_executors: usize, event: Result<(), LoadError>) -> (r: (LoadPhase, LoadAction))
    requires
        num_executors > 0,
    ensures
        r.0 == next_load_phase(phase, num_executors as int, event is Ok),
        is_load_action(r.1, r.0, event),
{
    let last = num_executors - 1;
    match (phase, event) {
        (LoadPhase::Loaded, _) => (LoadPhase::Loaded, LoadAction::Done),
        (_, Err(e)) => (LoadPhase::Failed, LoadAction::Fail(e)),
        (LoadPhase::Failed, Ok(())) => (LoadPhase::Failed, LoadAction::Idle),
        (LoadPhase::Building(i), Ok(())) => if i < last {
            (LoadPhase::Building(i + 1), LoadAction::BuildSession { session: i + 1 })
        } else {
            (LoadPhase::Allocating, LoadAction::CreateAllocator)
        },
        (LoadPhase::Allocating, Ok(())) => (LoadPhase::MakingRing, LoadAction::MakeRing),
        (LoadPhase::MakingRing, Ok(())) => (LoadPhase::Warming(0), LoadAction::WarmUp { session: 0 }),
        (LoadPhase::Warming(i), Ok(())) => if i < last {
            (LoadPhase::Warming(i + 1), LoadAction::WarmUp { session: i + 1 })
        } else {
            (LoadPhase::Publishing, LoadAction::Publish)
        },
        (LoadPhase::Publishing, Ok(())) => (LoadPhase::Sending(0), LoadAction::Send { session: 0 }),
        (LoadPhase::Sending(i), Ok(())) => if i < last {
            (LoadPhase::Sending(i + 1), LoadAction::Send { session: i + 1 })
        } else {
            (LoadPhase::Loaded, LoadAction::Done)
        },
    }
}

/// Where a load stands whose phases so far ended as `succeeded` says.
pub open spec fn load_run(succeeded: Seq<bool>, num_executors: int) -> LoadPhase
    decreases succeeded.len(),
{
    if succeeded.len() == 0 {
        LoadPhase::Building(0)
    } else {
        next_load_phase(load_run(succeeded.drop_last(), num_executors), num_executors, succeeded.last())
    }
}

/// Where a load of `n` sessions stands after `k` phases that all succeeded: the
/// sessions are built one by one, then the memory is allocated and the ring
/// made, then the sessions are warmed up one by one, then the model is
/// published, and then the sessions are sent one by one.
pub open spec fn load_phase_at(k: int, n: int) -> LoadPhase {
    if k < n {
        LoadPhase::Building(k as usize)
    } else if k == n {
        LoadPhase::Allocating
    } else if k == n + 1 {
        LoadPhase::MakingRing
    } else if k < 2 * n + 2 {
        LoadPhase::Warming((k - n - 2) as usize)
    } else if k == 2 * n + 2 {
        LoadPhase::Publishing
    } else if k < 3 * n + 3 {
        LoadPhase::Sending((k - 2 * n - 3) as usize)
    } else {
        LoadPhase::Loaded
    }
}

/// A load goes through its phases in order, and ends with the first that fails.
pub proof fn loads_go_in_order(succeeded: Seq<bool>, n: int)
    requires
        0 < n <= usize::MAX,
        succeeded.len() <= 3 * n + 3,
    ensures
        load_run(succeeded, n) == (if forall|i: int| 0 <= i < succeeded.len() ==> #[trigger] succeeded[i] {
            load_phase_at(succeeded.len() as int, n)
        } else {
            LoadPhase::Failed
        }),
    decreases succeeded.len(),
{
    if succeeded.len() > 0 {
        let before = succeeded.drop_last();
        loads_go_in_order(before, n);
        assert forall|i: int| 0 <= i < before.len() implies before[i] == succeeded[i] by {}
        if forall|i: int| 0 <= i < before.len() ==> #[trigger] before[i] {
            if succeeded.last() {
                assert forall|i: int| 0 <= i < succeeded.len() implies #[trigger] succeeded[i] by {
                    if i < before.len() {
                        assert(before[i]);
                    }
                }
            } else {
                assert(!succeeded[succeeded.len() - 1]);
            }
        } else {
            let i = choose|i: int| 0 <= i < before.len() && !#[trigger] before[i];
            assert(!succeeded[i]);
        }
    }
}

/// A model is made available only once every session is built and warmed up,
/// and no load that failed before has made it available: it is at that phase
/// exactly when everything before succeeded.
pub proof fn models_are_published_warm(succeeded: Seq<bool>, n: int)
    requires
        0 < n <= usize::MAX,
        succeeded.len() <= 3 * n + 3,
    ensures
        load_run(succeeded, n) is Publishing <==> {
            &&& succeeded.len() == 2 * n + 2
            &&& forall|i: int| 0 <= i < succeeded.len() ==> #[trigger] succeeded[i]
        },
{
    loads_go_in_order(succeeded, n);
}

/// No executor core gets a second session before every core has one, as long
/// as the counter does not wrap in between.
pub proof fn sessions_go_round(n: int, m: int, starters: int)
    requires
        0 <= n < m < n + starters,
        m <= usize::MAX,
    ensures
        starter_of(n, starters) != starter_of(m, starters),
{
    lemma_small_mod(n as nat, ring::wrap_size() as nat);
    lemma_small_mod(m as nat, ring::wrap_size() as nat);
    if n % starters == m % starters {
        lemma_mod_equivalence(m, n, starters);
        lemma_small_mod((m - n) as nat, starters as nat);
    }
}

/// How many of the first `n` sessions that were handed out went to the executor
/// core.
pub open spec fn sessions_on(starter: int, n: nat, starters: int) -> int
    decreases n,
{
    if n == 0 {
        0
    } else {
        sessions_on(starter, (n - 1) as nat, starters) + (if starter_of(n - 1, starters) == starter {
            1int
        } else {
            0int
        })
    }
}

proof fn lemma_sessions_on(starter: int, n: nat, starters: int)
    requires
        0 <= starter < starters,
        n <= usize::MAX + 1,
    ensures
        sessions_on(starter, n, starters) == n as int / starters + (if starter < n as int % starters {
            1int
        } else {
            0int
        }),
    decreases n,
{
    if n == 0 {
        lemma_small_mod(0, starters as nat);
        lemma_div_basics(starters);
    } else {
        let m = n - 1;
        lemma_sessions_on(starter, m as nat, starters);
        lemma_small_mod(m as nat, ring::wrap_size() as nat);
        lemma_fundamental_div_mod(m, starters);
        lemma_mod_bound(m, starters);
        let q = m / starters;
        let rest = m % starters;
        if rest + 1 < starters {
            lemma_fundamental_div_mod_converse(m + 1, starters, q, rest + 1);
        } else {
            assert((q + 1) * starters == starters * q + starters) by (nonlinear_arith);
            lemma_fundamental_div_mod_converse(m + 1, starters, q + 1, 0);
        }
    }
}

/// The sessions are spread evenly: at any time no executor core was given more
/// than one session more than another, as long as the counter has not wrapped.
pub proof fn sessions_are_spread_evenly(a: int, b: int, n: nat, starters: int)
    requires
        0 <= a < starters,
        0 <= b < starters,
        n <= usize::MAX + 1,
    ensures
        sessions_on(a, n, starters) - sessions_on(b, n, starters) <= 1,
{
    lemma_sessions_on(a, n, starters);
    lemma_sessions_on(b, n, starters);
}

/// A count as a gauge shows it: as large as a gauge can show.
pub open spec fn gauge_value(value: usize) -> i64 {
    if value <= i64::MAX {
        value as i64
    } else {
        i64::MAX
    }
}

/// A count as a gauge shows it.
pub fn to_gauge(value: usize) -> (r: i64)
    ensures
        r == gauge_value(value),
{
    if value as u64 <= i64::MAX as u64 {
        value as i64
    } else {
        i64::MAX
    }
}

/// What is reported of a ring.
#[derive(Clone, Copy, Debug, PartialEq, Eq, Structural)]
pub struct RingGauges {
    pub executors_in_use: i64,
    pub ring_tail_index: i64,
    pub ring_in_use_index: i64,
    pub ring_head_index: i64,
}

/// Reads the gauges of a ring off a snapshot.
pub fn ring_gauges(snapshot: &SuperTensorMetricsSnapshot) -> (r: RingGauges)
    ensures
        r.executors_in_use == gauge_value(snapshot.executors_in_use),
        r.ring_tail_index == gauge_value(snapshot.tail_index),
        r.ring_in_use_index == gauge_value(snapshot.in_use_index),
        r.ring_head_index == gauge_value(snapshot.head_index),
{
    RingGauges {
        executors_in_use: to_gauge(snapshot.executors_in_use),
        ring_tail_index: to_gauge(snapshot.tail_index),
        ring_in_use_index: to_gauge(snapshot.in_use_index),
        ring_head_index: to_gauge(snapshot.head_index),
    }
}

/// After how many batches the sessions of a model end their profile.
pub fn stop_profiling_after(config: &ModelRepositoryConfig) -> (r: Option<u64>)
    ensures
        r == (match config.profiling {
            Some(profiling) => profiling.stop_after_batches,
            None => None,
        }),
{
    match &config.profiling {
        Some(profiling) => profiling.stop_after_batches,
        None => None,
    }
}

/// An executor ends its profile behind its `batches`-th batch.
pub open spec fn ends_profile(batches: u64, stop_after: Option<u64>) -> bool {
    stop_after == Some(batches)
}

/// How often an executor has ended its profile behind its first `n` batches.
pub open spec fn profile_ends(n: nat, stop_after: Option<u64>) -> nat
    decreases n,
{
    if n == 0 {
        0
    } else {
        profile_ends((n - 1) as nat, stop_after) + (if ends_profile(n as u64, stop_after) {
            1nat
        } else {
            0nat
        })
    }
}

/// The profile is ended once, if the executor comes to the batch that it is to
/// be ended behind, and otherwise never.
pub proof fn profile_is_ended_once(n: nat, stop_after: Option<u64>)
    requires
        n <= u64::MAX,
    ensures
        profile_ends(n, stop_after) == (match stop_after {
            Some(last) => if 1 <= last <= n {
                1nat
            } else {
                0nat
            },
            None => 0nat,
        }),
    decreases n,
{
    if n > 0 {
        profile_is_ended_once((n - 1) as nat, stop_after);
    }
}

/// Whether an executor ends its profile behind its `batches`-th batch.
pub fn ends_profiling(batches: u64, stop_after: Option<u64>) -> (r: bool)
    ensures
        r == ends_profile(batches, stop_after),
{
    match stop_after {
        Some(n) => n == batches,
        None => false,
    }
}

/// The first sessions go to the executor cores from the first to the last, and
/// those behind them in the same order again.
pub proof fn executor_cores_come_round(n: int, starters: int)
    requires
        0 < starters,
        0 <= n,
        n + starters <= usize::MAX,
    ensures
        n < starters ==> starter_of(n, starters) == n,
        starter_of(n + starters, starters) == starter_of(n, starters),
        0 <= starter_of(n, starters) < starters,
{
    lemma_small_mod(n as nat, ring::wrap_size() as nat);
    lemma_small_mod((n + starters) as nat, ring::wrap_size() as nat);
    if n < starters {
        lemma_small_mod(n as nat, starters as nat);
    }
    lemma_mod_add_multiples_vanish(n, starters);
    lemma_mod_bound(n, starters);
}

/// The executors of a model have names of their own, which begin with the name of
/// the model and end with their number.
pub proof fn executors_have_names_of_their_own(model_name: Seq<char>, i: nat, j: nat)
    ensures
        model_name.is_prefix_of(executor_name(model_name, i)),
        executor_name(model_name, i).skip((model_name.len() + "-executor-"@.len()) as int) == text::decimal(i),
        executor_name(model_name, i) == executor_name(model_name, j) ==> i == j,
{
    let k = (model_name.len() + "-executor-"@.len()) as int;
    assert(executor_name(model_name, i).take(model_name.len() as int) =~= model_name);
    assert(executor_name(model_name, i).skip(k) =~= text::decimal(i));
    assert(executor_name(model_name, j).skip(k) =~= text::decimal(j));
    if executor_name(model_name, i) == executor_name(model_name, j) {
        text::numbers_are_told_apart(i, j);
    }
}

/// Every session is built, then warmed up, then sent, each in its turn, however
/// many there are: a load that has not failed is at the phase of session `i` after
/// just so many phases, and the model is allocated for, given its ring and
/// published in between.
pub proof fn every_session_is_loaded(succeeded: Seq<bool>, n: int, i: int)
    requires
        0 < n <= usize::MAX,
        0 <= i < n,
        succeeded.len() <= 3 * n + 3,
        forall|j: int| 0 <= j < succeeded.len() ==> #[trigger] succeeded[j],
    ensures
        succeeded.len() == i ==> load_run(succeeded, n) == LoadPhase::Building(i as usize),
        succeeded.len() == n ==> load_run(succeeded, n) == LoadPhase::Allocating,
        succeeded.len() == n + 1 ==> load_run(succeeded, n) == LoadPhase::MakingRing,
        succeeded.len() == n + 2 + i ==> load_run(succeeded, n) == LoadPhase::Warming(i as usize),
        succeeded.len() == n + 2 + n ==> load_run(succeeded, n) == LoadPhase::Publishing,
        succeeded.len() == n + 2 + n + 1 + i ==> load_run(succeeded, n) == LoadPhase::Sending(i as usize),
        succeeded.len() == n + 2 + n + 1 + n ==> load_run(succeeded, n) == LoadPhase::Loaded,
{
    loads_go_in_order(succeeded, n);
}

/// What is done in a phase is what the phase is for, for the session of the phase,
/// and a failure is reported with its reason.
pub proof fn phases_do_what_they_are_for(i: usize, action: LoadAction, event: Result<(), LoadError>, e: LoadError)
    ensures
        is_load_action(action, LoadPhase::Building(i), event) <==> action == (LoadAction::BuildSession { session: i }),
        is_load_action(action, LoadPhase::Allocating, event) <==> action == LoadAction::CreateAllocator,
        is_load_action(action, LoadPhase::MakingRing, event) <==> action == LoadAction::MakeRing,
        is_load_action(action, LoadPhase::Warming(i), event) <==> action == (LoadAction::WarmUp { session: i }),
        is_load_action(action, LoadPhase::Publishing, event) <==> action == LoadAction::Publish,
        is_load_action(action, LoadPhase::Sending(i), event) <==> action == (LoadAction::Send { session: i }),
        is_load_action(action, LoadPhase::Loaded, event) <==> action == LoadAction::Done,
        is_load_action(action, LoadPhase::Failed, Err(e)) <==> action == LoadAction::Fail(e),
{
}

/// A load that has ended stays ended, and any other fails where its phase does.
pub proof fn ended_loads_stay_ended(phase: LoadPhase, n: int, succeeded: bool)
    ensures
        next_load_phase(LoadPhase::Loaded, n, succeeded) == LoadPhase::Loaded,
        next_load_phase(LoadPhase::Failed, n, succeeded) == LoadPhase::Failed,
        phase != LoadPhase::Loaded ==> next_load_phase(phase, n, false) == LoadPhase::Failed,
        phase != LoadPhase::Failed ==> next_load_phase(phase, n, true) != LoadPhase::Failed,
{
}

/// A gauge shows a count as it is, as far as a gauge goes, and its largest value
/// beyond.
pub proof fn gauges_show_counts(value: usize)
    ensures
        value <= i64::MAX ==> gauge_value(value) == value,
        value > i64::MAX ==> gauge_value(value) == i64::MAX,
{
}

/// Sessions go to the executor cores in turn: one session goes to the core behind the
/// one before it, or to the first behind the last, and is named after its model and
/// its number.
pub proof fn next_session_goes_to_the_next_core(
    turn: &mut RoundRobin,
    model_name: &str,
    session: usize,
    starters: usize,
    r: Assignment,
    next_turn: &mut RoundRobin,
    next_name: &str,
    next_session: usize,
    next: Assignment,
)
    requires
        starters > 0,
        old(turn).count < usize::MAX,
        call_ensures(RoundRobin::assign, (turn, model_name, session, starters), r),
        call_ensures(RoundRobin::assign, (next_turn, next_name, next_session, starters), next),
        old(next_turn).count == final(turn).count,
    ensures
        r.starter < starters,
        old(turn).count < starters ==> r.starter == old(turn).count,
        next.starter == (if r.starter + 1 == starters {
            0
        } else {
            r.starter + 1
        }),
        r.executor_id@ == model_name@ + "-executor-"@ + text::decimal(session as nat),
{
    let n = old(turn).count as int;
    lemma_small_mod(n as nat, ring::wrap_size() as nat);
    lemma_small_mod((n + 1) as nat, ring::wrap_size() as nat);
    lemma_mod_bound(n, starters as int);
    if n < starters {
        lemma_small_mod(n as nat, starters as nat);
    }
    lemma_fundamental_div_mod(n, starters as int);
    let q = n / starters as int;
    let rest = n % starters as int;
    if rest + 1 < starters {
        lemma_fundamental_div_mod_converse(n + 1, starters as int, q, rest + 1);
    } else {
        assert((q + 1) * starters == starters * q + starters) by (nonlinear_arith);
        lemma_fundamental_div_mod_converse(n + 1, starters as int, q + 1, 0);
    }
}

/// A load that goes well does one thing behind the other, for every session: it
/// builds them all, makes the memory and the ring, warms them all up, publishes the
/// model and sends them all. One that fails says why and does nothing more.
pub proof fn loads_do_one_thing_behind_the_other(
    phase: LoadPhase,
    n: usize,
    event: Result<(), LoadError>,
    r: (LoadPhase, LoadAction),
    i: usize,
)
    requires
        n > 0,
        i < n,
        call_ensures(load_step, (phase, n, event), r),
    ensures
        event is Ok ==> {
            &&& phase == LoadPhase::Building(i) && i + 1 < n ==> r.0 == LoadPhase::Building((i + 1) as usize) && r.1 == (
            LoadAction::BuildSession { session: (i + 1) as usize })
            &&& phase == LoadPhase::Building((n - 1) as usize) ==> r.0 == LoadPhase::Allocating && r.1
                == LoadAction::CreateAllocator
            &&& phase == LoadPhase::Allocating ==> r.0 == LoadPhase::MakingRing && r.1 == LoadAction::MakeRing
            &&& phase == LoadPhase::MakingRing ==> r.0 == LoadPhase::Warming(0) && r.1 == (LoadAction::WarmUp {
                session: 0,
            })
            &&& phase == LoadPhase::Warming(i) && i + 1 < n ==> r.0 == LoadPhase::Warming((i + 1) as usize) && r.1 == (
            LoadAction::WarmUp { session: (i + 1) as usize })
            &&& phase == LoadPhase::Warming((n - 1) as usize) ==> r.0 == LoadPhase::Publishing && r.1
                == LoadAction::Publish
            &&& phase == LoadPhase::Publishing ==> r.0 == LoadPhase::Sending(0) && r.1 == (LoadAction::Send {
                session: 0,
            })
            &&& phase == LoadPhase::Sending(i) && i + 1 < n ==> r.0 == LoadPhase::Sending((i + 1) as usize) && r.1 == (
            LoadAction::Send { session: (i + 1) as usize })
            &&& phase == LoadPhase::Sending((n - 1) as usize) ==> r.0 == LoadPhase::Loaded && r.1 == LoadAction::Done
            &&& phase == LoadPhase::Failed ==> r.0 == LoadPhase::Failed && r.1 == LoadAction::Idle
        },
        event matches Err(e) ==> phase != LoadPhase::Loaded ==> r.0 == LoadPhase::Failed && r.1 == LoadAction::Fail(e),
        phase == LoadPhase::Loaded ==> r.0 == LoadPhase::Loaded && r.1 == LoadAction::Done,
{
}

/// Each gauge of a ring shows the counter that it is for.
pub proof fn ring_gauges_show_their_counters(snapshot: &SuperTensorMetricsSnapshot, r: RingGauges)
    requires
        call_ensures(ring_gauges, (snapshot,), r),
    ensures
        snapshot.executors_in_use <= i64::MAX ==> r.executors_in_use == snapshot.executors_in_use,
        snapshot.tail_index <= i64::MAX ==> r.ring_tail_index == snapshot.tail_index,
        snapshot.in_use_index <= i64::MAX ==> r.ring_in_use_index == snapshot.in_use_index,
        snapshot.head_index <= i64::MAX ==> r.ring_head_index == snapshot.head_index,
        r.executors_in_use >= 0,
        r.ring_tail_index >= 0,
        r.ring_in_use_index >= 0,
        r.ring_head_index >= 0,
{
}

/// A profile is ended behind the batch that the configuration names, and behind no
/// other.
pub proof fn profiles_end_where_configured(config: &ModelRepositoryConfig, stop: Option<u64>, batches: u64, r: bool)
    requires
        call_ensures(stop_profiling_after, (config,), stop),
        call_ensures(ends_profiling, (batches, stop), r),
    ensures
        r <==> (config.profiling matches Some(profiling) && profiling.stop_after_batches == Some(batches)),
{
}

/// The core for the next session is the one whose turn it is, and the turn goes on.
pub proof fn turns_go_on(turn: &mut RoundRobin, starters: usize, r: usize, k: int, round: int)
    requires
        call_ensures(RoundRobin::next_starter, (turn, starters), r),
        0 <= k < starters,
        old(turn).count == round * starters + k,
        old(turn).count < usize::MAX,
    ensures
        r == k,
        final(turn).count == old(turn).count + 1,
{
    lemma_small_mod(old(turn).count as nat, ring::wrap_size() as nat);
    lemma_small_mod((old(turn).count + 1) as nat, ring::wrap_size() as nat);
    lemma_fundamental_div_mod_converse(old(turn).count as int, starters as int, round, k);
}

}
