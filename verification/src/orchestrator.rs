//! The orchestrator: the decisions of a run.
//!
//! A run validates every backend, each by its own validation call, then
//! executes the entities of the stack in plan order.  The engine holds the
//! state of the run and decides; its caller makes the calls, each within
//! the timeout of the run.  `run_stack` takes the outcome of the call that
//! it asked for last and answers with the next call to make, or with the
//! outcome of the run.

use crate::adapters::{BackendCommand, CommandView};
use crate::compiler::{CompiledBackend, CompiledBackendView};
use crate::text::{copy_string, copy_strings, views};
use vstd::prelude::*;

verus! {

/// How a call of a backend ended.
#[derive(Debug, Clone, Copy, PartialEq, Eq, Structural)]
pub enum CallOutcome {
    Succeeded,
    Failed,
    TimedOut,
}

/// Where the validation of a backend stands.
#[derive(Debug, Clone, Copy, PartialEq, Eq, Structural)]
pub enum Validation {
    Waiting,
    Passed,
    Failed,
}

/// Where a backend stands in a run.
#[derive(Debug, Clone, Copy, PartialEq, Eq, Structural)]
pub enum BackendState {
    Compiled,
    Validated,
    Executed,
    Failed,
}

/// Where an entity stands in a run.
#[derive(Debug, Clone, Copy, PartialEq, Eq, Structural)]
pub enum EntityStatus {
    /// Not decided yet.
    Pending,
    /// Its execution succeeded.
    Succeeded,
    /// Its execution failed, and no attempt is left.
    Failed,
    /// Never executed: an entity that it depends on failed or was skipped.
    Skipped,
}

/// The call that the engine asked for and whose outcome it awaits.
#[derive(Debug, Clone, Copy, PartialEq, Eq, Structural)]
pub enum InFlight {
    Nothing,
    /// The validation of the backend at this position.
    Validation(usize),
    /// The execution of the entity at this position.
    Execution(usize),
}

/// How a run ended.
#[derive(Debug, Clone, Copy, PartialEq, Eq, Structural)]
pub enum RunOutcome {
    /// Every entity was executed with success.
    Completed,
    /// The backend at this position rejected its configuration; nothing
    /// was executed.
    ValidationFailed { backend: usize },
    /// The entity at this position is the first whose execution failed;
    /// `attempts` calls were made for it.
    ExecutionFailed { entity: usize, attempts: u64 },
}

/// What the caller is to do next.
#[derive(Debug, Clone)]
pub enum Action {
    /// Run the validation call of the backend at position `backend`.
    Validate { backend: usize, command: BackendCommand },
    /// Run the execution call for the entity at position `entity`; this is
    /// attempt number `attempt`, counted from one.
    Execute { entity: usize, attempt: u64, command: BackendCommand },
    /// The run is over.
    Finish { outcome: RunOutcome },
}

/// An action, as contracts speak of it.
pub enum ActionView {
    Validate { backend: usize, command: CommandView },
    Execute { entity: usize, attempt: u64, command: CommandView },
    Finish { outcome: RunOutcome },
}

impl View for Action {
    type V = ActionView;

    open spec fn view(&self) -> ActionView {
        match self {
            Action::Validate { backend, command } => ActionView::Validate {
                backend: *backend,
                command: command@,
            },
            Action::Execute { entity, attempt, command } => ActionView::Execute {
                entity: *entity,
                attempt: *attempt,
                command: command@,
            },
            Action::Finish { outcome } => ActionView::Finish { outcome: *outcome },
        }
    }
}

/// An entity of the plan: a transformation or a serving target, the
/// backend that executes it, and the entities that it waits for, by their
/// positions in the plan.
#[derive(Debug, Clone)]
pub struct PlannedEntity {
    pub name: String,
    pub backend: usize,
    pub depends_on: Vec<usize>,
}

/// A plan entry, as contracts speak of it.
pub struct PlannedEntityView {
    pub name: Seq<char>,
    pub backend: usize,
    pub depends_on: Seq<usize>,
}

impl View for PlannedEntity {
    type V = PlannedEntityView;

    open spec fn view(&self) -> PlannedEntityView {
        PlannedEntityView { name: self.name@, backend: self.backend, depends_on: self.depends_on@ }
    }
}

/// The state of a run.
#[derive(Debug, Clone)]
pub struct DeclarativeEngine {
    /// The backends, in the order in which they are validated.
    pub backends: Vec<CompiledBackend>,
    /// For each backend, where its validation stands.
    pub validations: Vec<Validation>,
    /// The entities in plan order: each after those that it depends on.
    pub entities: Vec<PlannedEntity>,
    /// For each entity, where it stands.
    pub statuses: Vec<EntityStatus>,
    /// For each entity, the execution calls made for it so far.
    pub attempts: Vec<u64>,
    /// How often a failed execution call is made again.
    pub retries: u32,
    /// The limit of each call in seconds.
    pub timeout: u64,
    /// The number of backends that have passed validation.
    pub validated: usize,
    /// The number of entities that are decided.
    pub cursor: usize,
    /// The call whose outcome is awaited.
    pub in_flight: InFlight,
    /// Whether a validation has failed.
    pub aborted: bool,
}

/// The state of a run, as contracts speak of it.
pub struct EngineView {
    pub backends: Seq<CompiledBackendView>,
    pub validations: Seq<Validation>,
    pub entities: Seq<PlannedEntityView>,
    pub statuses: Seq<EntityStatus>,
    pub attempts: Seq<u64>,
    pub retries: u32,
    pub timeout: u64,
    pub validated: int,
    pub cursor: int,
    pub in_flight: InFlight,
    pub aborted: bool,
}

impl View for DeclarativeEngine {
    type V = EngineView;

    open spec fn view(&self) -> EngineView {
        EngineView {
            backends: views(self.backends@),
            validations: self.validations@,
            entities: views(self.entities@),
            statuses: self.statuses@,
            attempts: self.attempts@,
            retries: self.retries,
            timeout: self.timeout,
            validated: self.validated as int,
            cursor: self.cursor as int,
            in_flight: self.in_flight,
            aborted: self.aborted,
        }
    }
}

/// Every entity that entity `e` waits for has succeeded.
pub open spec fn dependencies_succeeded(s: EngineView, e: int) -> bool {
    forall|k: int|
        0 <= k < s.entities[e].depends_on.len() ==> s.statuses[(
        #[trigger] s.entities[e].depends_on[k]) as int] == EntityStatus::Succeeded
}

/// Every backend has passed validation.
pub open spec fn all_validated(s: EngineView) -> bool {
    forall|b: int| 0 <= b < s.validations.len() ==> #[trigger] s.validations[b] == Validation::Passed
}

/// The plan is sound: the lists have one entry for each backend and for
/// each entity, every entity names a backend, and waits only for entities
/// that stand before it.
pub open spec fn plan_wf(s: EngineView) -> bool {
    &&& s.backends.len() <= usize::MAX
    &&& s.entities.len() <= usize::MAX
    &&& s.validations.len() == s.backends.len()
    &&& s.statuses.len() == s.entities.len()
    &&& s.attempts.len() == s.entities.len()
    &&& forall|e: int| 0 <= e < s.entities.len() ==> (#[trigger] s.entities[e]).backend < s.backends.len()
    &&& forall|e: int, k: int|
        0 <= e < s.entities.len() && 0 <= k < s.entities[e].depends_on.len() ==> (
        #[trigger] s.entities[e].depends_on[k]) < e
}

/// The state is one that a run can be in.
///
/// Backends are validated in order and entities are decided in order; no
/// entity is executed before every backend has passed validation, nor
/// before all that it waits for have succeeded; no more calls are made for
/// an entity than the retries allow.
pub open spec fn engine_wf(s: EngineView) -> bool {
    &&& plan_wf(s)
    &&& 0 <= s.validated <= s.backends.len()
    &&& 0 <= s.cursor <= s.entities.len()
    &&& forall|b: int|
        0 <= b < s.validations.len() ==> #[trigger] s.validations[b] == (if b < s.validated {
            Validation::Passed
        } else if b == s.validated && s.aborted {
            Validation::Failed
        } else {
            Validation::Waiting
        })
    &&& s.aborted ==> s.validated < s.backends.len()
    &&& s.validated < s.backends.len() ==> s.cursor == 0 && (s.entities.len() > 0 ==> s.attempts[0] == 0)
    &&& forall|e: int|
        0 <= e < s.statuses.len() ==> ((#[trigger] s.statuses[e]) == EntityStatus::Pending <==> e
            >= s.cursor)
    &&& forall|e: int| s.cursor < e < s.attempts.len() ==> #[trigger] s.attempts[e] == 0
    &&& forall|e: int|
        0 <= e < s.attempts.len() ==> (match #[trigger] s.statuses[e] {
            EntityStatus::Pending => s.attempts[e] <= s.retries,
            EntityStatus::Succeeded => 1 <= s.attempts[e] <= s.retries + 1 && dependencies_succeeded(
                s,
                e,
            ),
            EntityStatus::Failed => s.attempts[e] == s.retries + 1 && dependencies_succeeded(s, e),
            EntityStatus::Skipped => s.attempts[e] == 0 && !dependencies_succeeded(s, e),
        })
    &&& s.cursor < s.entities.len() && s.attempts[s.cursor] > 0 ==> dependencies_succeeded(s, s.cursor)
    &&& match s.in_flight {
        InFlight::Nothing => true,
        InFlight::Validation(b) => b == s.validated && b < s.backends.len() && !s.aborted,
        InFlight::Execution(e) => e == s.cursor && e < s.entities.len() && s.validated
            == s.backends.len() && dependencies_succeeded(s, e as int),
    }
}

/// The state after the outcome `last` of the awaited call has been taken
/// in.  A validation that succeeded lets its backend pass; one that failed
/// or timed out aborts the run.  An execution that succeeded decides its
/// entity; one that failed or timed out is tried again while retries are
/// left, and else fails its entity.  Without an outcome, or without an
/// awaited call, nothing changes.
pub open spec fn settle(s: EngineView, last: Option<CallOutcome>) -> EngineView {
    match (s.in_flight, last) {
        (InFlight::Validation(b), Some(CallOutcome::Succeeded)) => EngineView {
            validations: s.validations.update(b as int, Validation::Passed),
            validated: s.validated + 1,
            in_flight: InFlight::Nothing,
            ..s
        },
        (InFlight::Validation(b), Some(_)) => EngineView {
            validations: s.validations.update(b as int, Validation::Failed),
            aborted: true,
            in_flight: InFlight::Nothing,
            ..s
        },
        (InFlight::Execution(e), Some(CallOutcome::Succeeded)) => EngineView {
            statuses: s.statuses.update(e as int, EntityStatus::Succeeded),
            attempts: s.attempts.update(e as int, (s.attempts[e as int] + 1) as u64),
            cursor: s.cursor + 1,
            in_flight: InFlight::Nothing,
            ..s
        },
        (InFlight::Execution(e), Some(_)) => if s.attempts[e as int] < s.retries {
            EngineView {
                attempts: s.attempts.update(e as int, (s.attempts[e as int] + 1) as u64),
                in_flight: InFlight::Nothing,
                ..s
            }
        } else {
            EngineView {
                statuses: s.statuses.update(e as int, EntityStatus::Failed),
                attempts: s.attempts.update(e as int, (s.attempts[e as int] + 1) as u64),
                cursor: s.cursor + 1,
                in_flight: InFlight::Nothing,
                ..s
            }
        },
        _ => EngineView { in_flight: InFlight::Nothing, ..s },
    }
}

/// Position `e` holds the first entity that failed.
pub open spec fn is_first_failed(s: EngineView, e: int) -> bool {
    &&& 0 <= e < s.statuses.len()
    &&& s.statuses[e] == EntityStatus::Failed
    &&& forall|j: int| 0 <= j < e ==> #[trigger] s.statuses[j] != EntityStatus::Failed
}

/// How a run in which every entity is decided has ended.
pub open spec fn run_outcome(s: EngineView) -> RunOutcome {
    if exists|e: int| is_first_failed(s, e) {
        let e = choose|e: int| is_first_failed(s, e);
        RunOutcome::ExecutionFailed { entity: e as usize, attempts: s.attempts[e] }
    } else {
        RunOutcome::Completed
    }
}

/// The validation phase, where no call is awaited: the next state, and
/// what to do next unless every backend has passed.
///
/// After a failed validation the run is over.  Else the first backend that
/// waits for validation is validated: every backend has a validation call,
/// and none passes without it.
pub open spec fn decide_validation(s: EngineView) -> (EngineView, Option<ActionView>) {
    if s.aborted {
        (
            EngineView { in_flight: InFlight::Nothing, ..s },
            Some(
                ActionView::Finish {
                    outcome: RunOutcome::ValidationFailed { backend: s.validated as usize },
                },
            ),
        )
    } else if 0 <= s.validated < s.backends.len() {
        (
            EngineView { in_flight: InFlight::Validation(s.validated as usize), ..s },
            Some(
                ActionView::Validate {
                    backend: s.validated as usize,
                    command: s.backends[s.validated].validate,
                },
            ),
        )
    } else {
        (s, None)
    }
}

/// The execution phase, where no call is awaited: the next state and what
/// to do next.
///
/// The first undecided entity is executed, unless an entity that it waits
/// for has not succeeded: then it is skipped, and the next one is looked
/// at.  When every entity is decided the run is over.
pub open spec fn decide_execution(s: EngineView) -> (EngineView, ActionView)
    decreases s.entities.len() - s.cursor,
{
    if 0 <= s.cursor < s.entities.len() {
        if dependencies_succeeded(s, s.cursor) {
            (
                EngineView { in_flight: InFlight::Execution(s.cursor as usize), ..s },
                ActionView::Execute {
                    entity: s.cursor as usize,
                    attempt: (s.attempts[s.cursor] + 1) as u64,
                    command: s.backends[s.entities[s.cursor].backend as int].execute,
                },
            )
        } else {
            decide_execution(
                EngineView {
                    statuses: s.statuses.update(s.cursor, EntityStatus::Skipped),
                    cursor: s.cursor + 1,
                    ..s
                },
            )
        }
    } else {
        (EngineView { in_flight: InFlight::Nothing, ..s }, ActionView::Finish { outcome: run_outcome(s) })
    }
}

/// The next state and what to do next, where no call is awaited: what the
/// validation phase asks for, and after it what the execution phase asks
/// for.
pub open spec fn decide(s: EngineView) -> (EngineView, ActionView) {
    let (t, action) = decide_validation(s);
    match action {
        Some(action) => (t, action),
        None => decide_execution(t),
    }
}

/// Every backend has passed validation.
pub open spec fn validation_done(s: EngineView) -> bool {
    s.validated == s.backends.len() && !s.aborted
}

/// What `r` stands for in contracts.
pub open spec fn action_of(r: Option<Action>) -> Option<ActionView> {
    match r {
        Some(a) => Some(a@),
        None => None,
    }
}

/// One step of a run: the outcome of the awaited call is taken in, and the
/// next thing to do is decided.
pub open spec fn step(s: EngineView, last: Option<CallOutcome>) -> (EngineView, ActionView) {
    decide(settle(s, last))
}

/// Where the backend at position `b` stands: `Failed` once its validation
/// or the execution of one of its entities has failed; else `Compiled`
/// until it has passed validation; then `Validated`, and `Executed` once
/// all of its entities have succeeded.
pub open spec fn backend_state_of(s: EngineView, b: int) -> BackendState {
    if s.validations[b] == Validation::Failed || exists|e: int|
        0 <= e < s.entities.len() && (#[trigger] s.entities[e]).backend == b && s.statuses[e]
            == EntityStatus::Failed {
        BackendState::Failed
    } else if s.validations[b] == Validation::Waiting {
        BackendState::Compiled
    } else if forall|e: int|
        0 <= e < s.entities.len() && (#[trigger] s.entities[e]).backend == b ==> s.statuses[e]
            == EntityStatus::Succeeded {
        BackendState::Executed
    } else {
        BackendState::Validated
    }
}

/// How a call ended that left with the exit code `exit_code`, or with none
/// where it could not be started or was killed: with success when the code
/// is zero; with a timeout when it ran into its limit, whatever the code.
pub open spec fn outcome_of_call(exit_code: Option<i32>, timed_out: bool) -> CallOutcome {
    if timed_out {
        CallOutcome::TimedOut
    } else if exit_code == Some(0i32) {
        CallOutcome::Succeeded
    } else {
        CallOutcome::Failed
    }
}

/// How a call of a backend ended.  Any exit code but zero is a failure:
/// none is passed over.
pub fn call_outcome(exit_code: Option<i32>, timed_out: bool) -> (r: CallOutcome)
    ensures
        r == outcome_of_call(exit_code, timed_out),
{
    if timed_out {
        CallOutcome::TimedOut
    } else {
        match exit_code {
            Some(code) => if code == 0 {
                CallOutcome::Succeeded
            } else {
                CallOutcome::Failed
            },
            None => CallOutcome::Failed,
        }
    }
}

/// A copy of a command.
pub fn copy_command(c: &BackendCommand) -> (r: BackendCommand)
    ensures
        r@ == c@,
{
    BackendCommand { program: copy_string(&c.program), args: copy_strings(&c.args) }
}

/// Taking in an outcome changes the status of the awaited entity only,
/// which no decided entity waits for.
proof fn lemma_earlier_entities_unchanged(s: EngineView, t: EngineView, e: int)
    requires
        plan_wf(s),
        t.entities == s.entities,
        t.statuses.len() == s.statuses.len(),
        0 <= e < s.statuses.len(),
        forall|j: int| 0 <= j < s.statuses.len() && j != e ==> t.statuses[j] == s.statuses[j],
    ensures
        forall|x: int| 0 <= x <= e ==> dependencies_succeeded(t, x) == dependencies_succeeded(s, x),
{
    assert forall|x: int| 0 <= x <= e implies dependencies_succeeded(t, x) == dependencies_succeeded(
        s,
        x,
    ) by {
        assert forall|k: int| 0 <= k < s.entities[x].depends_on.len() implies t.statuses[(
        #[trigger] s.entities[x].depends_on[k]) as int] == s.statuses[s.entities[x].depends_on[k] as int] by {
            assert(s.entities[x].depends_on[k] < x);
        }
    }
}

impl DeclarativeEngine {
    /// The state is one that a run can be in.
    pub open spec fn wf(&self) -> bool {
        engine_wf(self@)
    }

    /// Whether the plan is sound.
    fn plan_is_sound(&self) -> (r: bool)
        ensures
            r == plan_wf(self@),
    {
        let n = self.entities.len();
        let m = self.backends.len();
        if self.validations.len() != m || self.statuses.len() != n || self.attempts.len() != n {
            return false;
        }
        let mut e: usize = 0;
        while e < n
            invariant
                n == self.entities@.len(),
                m == self.backends@.len(),
                e <= n,
                forall|x: int| 0 <= x < e ==> (#[trigger] self@.entities[x]).backend < m,
                forall|x: int, k: int|
                    0 <= x < e && 0 <= k < self@.entities[x].depends_on.len() ==> (
                    #[trigger] self@.entities[x].depends_on[k]) < x,
            decreases n - e,
        {
            let entity = &self.entities[e];
            assert(self@.entities[e as int] == self.entities@[e as int]@);
            if entity.backend >= m {
                return false;
            }
            let mut k: usize = 0;
            while k < entity.depends_on.len()
                invariant
                    e < self.entities@.len(),
                    entity == &self.entities@[e as int],
                    self@.entities[e as int] == entity@,
                    k <= entity.depends_on@.len(),
                    forall|j: int| 0 <= j < k ==> (#[trigger] entity.depends_on@[j]) < e,
                decreases entity.depends_on@.len() - k,
            {
                if entity.depends_on[k] >= e {
                    assert(!(self@.entities[e as int].depends_on[k as int] < e));
                    return false;
                }
                k += 1;
            }
            e += 1;
        }
        true
    }

    /// Whether the state is one that a run can be in.
    pub fn is_well_formed(&self) -> (r: bool)
        ensures
            r == self.wf(),
    {
        if !self.plan_is_sound() {
            return false;
        }
        let ghost s = self@;
        let n = self.entities.len();
        let m = self.backends.len();
        if self.validated > m || self.cursor > n {
            return false;
        }
        if self.aborted && self.validated >= m {
            return false;
        }
        if self.validated < m && (self.cursor != 0 || (n > 0 && self.attempts[0] != 0)) {
            return false;
        }
        let mut b: usize = 0;
        while b < m
            invariant
                s == self@,
                m == s.validations.len(),
                b <= m,
                forall|x: int|
                    0 <= x < b ==> #[trigger] s.validations[x] == (if x < s.validated {
                        Validation::Passed
                    } else if x == s.validated && s.aborted {
                        Validation::Failed
                    } else {
                        Validation::Waiting
                    }),
            decreases m - b,
        {
            let expected = if b < self.validated {
                Validation::Passed
            } else if b == self.validated && self.aborted {
                Validation::Failed
            } else {
                Validation::Waiting
            };
            if self.validations[b] != expected {
                return false;
            }
            b += 1;
        }
        let limit = self.retries as u64;
        let mut e: usize = 0;
        while e < n
            invariant
                s == self@,
                plan_wf(s),
                n == s.entities.len(),
                limit == s.retries,
                e <= n,
                forall|x: int|
                    0 <= x < e ==> ((#[trigger] s.statuses[x]) == EntityStatus::Pending <==> x >= s.cursor),
                forall|x: int| s.cursor < x < e ==> #[trigger] s.attempts[x] == 0,
                forall|x: int|
                    0 <= x < e ==> (match #[trigger] s.statuses[x] {
                        EntityStatus::Pending => s.attempts[x] <= s.retries,
                        EntityStatus::Succeeded => 1 <= s.attempts[x] <= s.retries + 1
                            && dependencies_succeeded(s, x),
                        EntityStatus::Failed => s.attempts[x] == s.retries + 1 && dependencies_succeeded(
                            s,
                            x,
                        ),
                        EntityStatus::Skipped => s.attempts[x] == 0 && !dependencies_succeeded(s, x),
                    }),
            decreases n - e,
        {
            let made = self.attempts[e];
            let ready = self.ready(e);
            let sound = match self.statuses[e] {
                EntityStatus::Pending => e >= self.cursor && made <= limit,
                EntityStatus::Succeeded => e < self.cursor && 1 <= made && made <= limit + 1 && ready,
                EntityStatus::Failed => e < self.cursor && made == limit + 1 && ready,
                EntityStatus::Skipped => e < self.cursor && made == 0 && !ready,
            };
            if !sound || (e > self.cursor && made != 0) {
                assert(s.attempts[e as int] == made && s.statuses[e as int] == self.statuses@[e as int]);
                return false;
            }
            e += 1;
        }
        if self.cursor < n && self.attempts[self.cursor] > 0 && !self.ready(self.cursor) {
            return false;
        }
        match self.in_flight {
            InFlight::Nothing => true,
            InFlight::Validation(b) => b == self.validated && b < m && !self.aborted,
            InFlight::Execution(e) => e == self.cursor && e < n && self.validated == m && self.ready(e),
        }
    }

    /// Where the backend at position `b` stands.
    pub fn backend_state(&self, b: usize) -> (r: BackendState)
        requires
            self.wf(),
            b < self.backends@.len(),
        ensures
            r == backend_state_of(self@, b as int),
    {
        match self.validations[b] {
            Validation::Failed => {
                return BackendState::Failed;
            },
            _ => {},
        }
        let mut all_succeeded = true;
        let mut e: usize = 0;
        while e < self.entities.len()
            invariant
                self.wf(),
                e <= self.entities@.len(),
                forall|j: int|
                    0 <= j < e && (#[trigger] self@.entities[j]).backend == b ==> self@.statuses[j]
                        != EntityStatus::Failed,
                all_succeeded <==> forall|j: int|
                    0 <= j < e && (#[trigger] self@.entities[j]).backend == b ==> self@.statuses[j]
                        == EntityStatus::Succeeded,
            decreases self.entities@.len() - e,
        {
            assert(self@.entities[e as int] == self.entities@[e as int]@);
            if self.entities[e].backend == b {
                match self.statuses[e] {
                    EntityStatus::Failed => {
                        return BackendState::Failed;
                    },
                    EntityStatus::Succeeded => {},
                    _ => {
                        all_succeeded = false;
                    },
                }
            }
            e += 1;
        }
        match self.validations[b] {
            Validation::Waiting => BackendState::Compiled,
            _ => if all_succeeded {
                BackendState::Executed
            } else {
                BackendState::Validated
            },
        }
    }

    /// Takes in the outcome of the awaited call.
    fn take_in(&mut self, last: Option<CallOutcome>)
        requires
            old(self).wf(),
        ensures
            final(self)@ == settle(old(self)@, last),
            final(self).wf(),
            final(self).in_flight == InFlight::Nothing,
    {
        let ghost before = self@;
        match (self.in_flight, last) {
            (InFlight::Validation(b), Some(CallOutcome::Succeeded)) => {
                self.validations.set(b, Validation::Passed);
                self.validated = self.validated + 1;
            },
            (InFlight::Validation(b), Some(_)) => {
                self.validations.set(b, Validation::Failed);
                self.aborted = true;
            },
            (InFlight::Execution(e), Some(CallOutcome::Succeeded)) => {
                assert(before.statuses[e as int] == EntityStatus::Pending);
                let made = self.attempts[e];
                self.statuses.set(e, EntityStatus::Succeeded);
                self.attempts.set(e, made + 1);
                self.cursor = self.cursor + 1;
                proof {
                    lemma_earlier_entities_unchanged(before, self@, e as int);
                }
            },
            (InFlight::Execution(e), Some(_)) => {
                assert(before.statuses[e as int] == EntityStatus::Pending);
                let made = self.attempts[e];
                if made < self.retries as u64 {
                    self.attempts.set(e, made + 1);
                    proof {
                        lemma_earlier_entities_unchanged(before, self@, e as int);
                    }
                } else {
                    self.statuses.set(e, EntityStatus::Failed);
                    self.attempts.set(e, made + 1);
                    self.cursor = self.cursor + 1;
                    proof {
                        lemma_earlier_entities_unchanged(before, self@, e as int);
                    }
                }
            },
            _ => {},
        }
        self.in_flight = InFlight::Nothing;
        assert(self@ =~= settle(before, last));
    }

    /// Whether every entity that entity `e` waits for has succeeded.
    fn ready(&self, e: usize) -> (r: bool)
        requires
            plan_wf(self@),
            e < self.entities@.len(),
        ensures
            r == dependencies_succeeded(self@, e as int),
    {
        let deps = &self.entities[e].depends_on;
        let mut k: usize = 0;
        while k < deps.len()
            invariant
                plan_wf(self@),
                e < self.entities@.len(),
                deps@ == self@.entities[e as int].depends_on,
                k <= deps@.len(),
                forall|j: int|
                    0 <= j < k ==> self@.statuses[(#[trigger] deps@[j]) as int] == EntityStatus::Succeeded,
            decreases deps@.len() - k,
        {
            assert(self@.entities[e as int].depends_on[k as int] < e);
            match self.statuses[deps[k]] {
                EntityStatus::Succeeded => {},
                _ => {
                    return false;
                },
            }
            k += 1;
        }
        true
    }

    /// How the run has ended, once every entity is decided.
    fn outcome(&self) -> (r: RunOutcome)
        requires
            plan_wf(self@),
        ensures
            r == run_outcome(self@),
    {
        let mut e: usize = 0;
        while e < self.statuses.len()
            invariant
                plan_wf(self@),
                e <= self.statuses@.len(),
                forall|j: int| 0 <= j < e ==> #[trigger] self@.statuses[j] != EntityStatus::Failed,
            decreases self.statuses@.len() - e,
        {
            match self.statuses[e] {
                EntityStatus::Failed => {
                    proof {
                        assert(is_first_failed(self@, e as int));
                        let c = choose|c: int| is_first_failed(self@, c);
                        if c < e {
                            assert(self@.statuses[c] != EntityStatus::Failed);
                        }
                        if e < c {
                            assert(self@.statuses[e as int] != EntityStatus::Failed);
                        }
                    }
                    return RunOutcome::ExecutionFailed { entity: e, attempts: self.attempts[e] };
                },
                _ => {},
            }
            e += 1;
        }
        RunOutcome::Completed
    }

    /// The validation phase of a step, where no call is awaited.  Answers
    /// with the validation call of the first backend that has not passed
    /// yet, or with the end of the run after a failed validation; with
    /// `None` when every backend has passed, so that execution may begin.
    pub fn validate(&mut self) -> (r: Option<Action>)
        requires
            old(self).wf(),
            old(self).in_flight == InFlight::Nothing,
        ensures
            final(self).wf(),
            (final(self)@, action_of(r)) == decide_validation(old(self)@),
            r is None ==> validation_done(final(self)@) && final(self).in_flight == InFlight::Nothing,
            r matches Some(a) ==> !(a is Execute),
    {
        let ghost start = self@;
        if self.aborted {
            return Some(
                Action::Finish { outcome: RunOutcome::ValidationFailed { backend: self.validated } },
            );
        }
        if self.validated < self.backends.len() {
            let b = self.validated;
            assert(start.backends[b as int] == self.backends@[b as int]@);
            let command = copy_command(&self.backends[b].validate);
            self.in_flight = InFlight::Validation(b);
            assert(self@ =~= (EngineView { in_flight: InFlight::Validation(b), ..start }));
            return Some(Action::Validate { backend: b, command });
        }
        None
    }

    /// The execution phase of a step, where no call is awaited and every
    /// backend has passed validation.  Answers with the execution call to
    /// make next: that of the first undecided entity for which all that it
    /// waits for have succeeded.  Entities before it that wait for a
    /// failed or skipped entity are skipped.  When no entity is left, the
    /// answer is the end of the run.
    pub fn execute(&mut self) -> (action: Action)
        requires
            old(self).wf(),
            old(self).in_flight == InFlight::Nothing,
            validation_done(old(self)@),
        ensures
            final(self).wf(),
            (final(self)@, action@) == decide_execution(old(self)@),
            validation_done(final(self)@),
            !(action is Validate),
            action matches Action::Execute { entity, .. } ==> final(self).in_flight
                == InFlight::Execution(entity),
    {
        let ghost start = self@;
        while self.cursor < self.entities.len()
            invariant
                self.wf(),
                self.in_flight == InFlight::Nothing,
                validation_done(self@),
                start == old(self)@,
                decide_execution(self@) == decide_execution(start),
            decreases self.entities@.len() - self.cursor,
        {
            let ghost here = self@;
            let e = self.cursor;
            if self.ready(e) {
                let entity = &self.entities[e];
                assert(here.entities[e as int] == self.entities@[e as int]@);
                assert(here.backends[entity.backend as int] == self.backends@[entity.backend as int]@);
                let command = copy_command(&self.backends[entity.backend].execute);
                assert(here.statuses[e as int] == EntityStatus::Pending);
                let attempt = self.attempts[e] + 1;
                self.in_flight = InFlight::Execution(e);
                proof {
                    assert(self@ =~= (EngineView { in_flight: InFlight::Execution(e), ..here }));
                    assert(decide_execution(here) == (
                        self@,
                        ActionView::Execute { entity: e, attempt, command: command@ },
                    ));
                }
                return Action::Execute { entity: e, attempt, command };
            }
            self.statuses.set(e, EntityStatus::Skipped);
            self.cursor = e + 1;
            proof {
                assert(self@ =~= (EngineView {
                    statuses: here.statuses.update(e as int, EntityStatus::Skipped),
                    cursor: e + 1,
                    ..here
                }));
                lemma_earlier_entities_unchanged(here, self@, e as int);
            }
        }
        let outcome = self.outcome();
        assert(self@ =~= (EngineView { in_flight: InFlight::Nothing, ..self@ }));
        Action::Finish { outcome }
    }

    /// One step of a run.  `last` is the outcome of the call that the
    /// action before asked for; the answer is the next call to make, or how
    /// the run ended.  First every backend is validated, in order; a
    /// validation that fails ends the run before anything is executed.
    /// Then the entities are executed in plan order, each only when all
    /// that it waits for have succeeded; a failed execution is tried again
    /// as often as the retries allow.
    pub fn run_stack(&mut self, last: Option<CallOutcome>) -> (action: Action)
        requires
            old(self).wf(),
        ensures
            final(self).wf(),
            (final(self)@, action@) == step(old(self)@, last),
            action matches Action::Execute { entity, .. } ==> all_validated(final(self)@)
                && dependencies_succeeded(final(self)@, entity as int),
    {
        self.take_in(last);
        match self.validate() {
            Some(action) => action,
            None => {
                let action = self.execute();
                proof {
                    let s = self@;
                    assert forall|b: int| 0 <= b < s.validations.len() implies #[trigger] s.validations[b]
                        == Validation::Passed by {}
                }
                action
            },
        }
    }
}

/// Taking in an outcome leads from a state of a run to a state of a run
/// in which no call is awaited.
pub proof fn lemma_settle_keeps_wf(s: EngineView, last: Option<CallOutcome>)
    requires
        engine_wf(s),
    ensures
        engine_wf(settle(s, last)),
        settle(s, last).in_flight == InFlight::Nothing,
{
    let t = settle(s, last);
    match (s.in_flight, last) {
        (InFlight::Execution(e), Some(_)) => {
            assert(s.statuses[e as int] == EntityStatus::Pending);
            lemma_earlier_entities_unchanged(s, t, e as int);
        },
        _ => {},
    }
}

/// The validation phase leads from a state of a run to a state of a run.
pub proof fn lemma_validation_keeps_wf(s: EngineView)
    requires
        engine_wf(s),
        s.in_flight == InFlight::Nothing,
    ensures
        engine_wf(decide_validation(s).0),
        decide_validation(s).1 is None ==> validation_done(decide_validation(s).0)
            && decide_validation(s).0.in_flight == InFlight::Nothing,
{
}

/// The execution phase leads from a state of a run to a state of a run.
pub proof fn lemma_execution_keeps_wf(s: EngineView)
    requires
        engine_wf(s),
        s.in_flight == InFlight::Nothing,
        validation_done(s),
    ensures
        engine_wf(decide_execution(s).0),
    decreases s.entities.len() - s.cursor,
{
    if s.cursor < s.entities.len() {
        if !dependencies_succeeded(s, s.cursor) {
            let t = EngineView {
                statuses: s.statuses.update(s.cursor, EntityStatus::Skipped),
                cursor: s.cursor + 1,
                ..s
            };
            assert(s.statuses[s.cursor] == EntityStatus::Pending);
            lemma_earlier_entities_unchanged(s, t, s.cursor);
            lemma_execution_keeps_wf(t);
        }
    }
}

/// Every step leads from a state of a run to a state of a run: what
/// `engine_wf` states holds throughout a run.
pub proof fn lemma_step_keeps_wf(s: EngineView, last: Option<CallOutcome>)
    requires
        engine_wf(s),
    ensures
        engine_wf(step(s, last).0),
{
    lemma_settle_keeps_wf(s, last);
    let t = settle(s, last);
    lemma_validation_keeps_wf(t);
    if decide_validation(t).1 is None {
        lemma_execution_keeps_wf(decide_validation(t).0);
    }
}

/// No backend passes without its validation call: while a backend waits
/// for validation, the next thing that a run asks for is the validation
/// call of the first such backend, whatever tool it belongs to.
pub proof fn lemma_waiting_backend_is_validated(s: EngineView)
    requires
        engine_wf(s),
        !s.aborted,
        s.validated < s.backends.len(),
    ensures
        decide(s).1 == (ActionView::Validate {
            backend: s.validated as usize,
            command: s.backends[s.validated].validate,
        }),
        decide(s).0.validations == s.validations,
{
}

/// A backend has passed validation only after its validation call has
/// succeeded: a step lets one pass only when it takes in the success of
/// the awaited validation call.
pub proof fn lemma_passing_needs_success(s: EngineView, last: Option<CallOutcome>, b: int)
    requires
        engine_wf(s),
        0 <= b < s.validations.len(),
        s.validations[b] != Validation::Passed,
        step(s, last).0.validations[b] == Validation::Passed,
    ensures
        s.in_flight == InFlight::Validation(b as usize),
        last == Some(CallOutcome::Succeeded),
{
    lemma_validation_leaves_entities(settle(s, last));
    lemma_execution_keeps_validations(decide_validation(settle(s, last)).0);
}

/// The execution phase changes nothing of the validations.
proof fn lemma_execution_keeps_validations(s: EngineView)
    ensures
        decide_execution(s).0.validations == s.validations,
    decreases s.entities.len() - s.cursor,
{
    if 0 <= s.cursor < s.entities.len() {
        if !dependencies_succeeded(s, s.cursor) {
            lemma_execution_keeps_validations(
                EngineView {
                    statuses: s.statuses.update(s.cursor, EntityStatus::Skipped),
                    cursor: s.cursor + 1,
                    ..s
                },
            );
        }
    }
}

/// A validation that fails ends the run at once, and nothing is executed
/// after it; one that times out has failed.
pub proof fn lemma_validation_failure_aborts(s: EngineView, b: usize)
    requires
        engine_wf(s),
        s.in_flight == InFlight::Validation(b),
    ensures
        step(s, Some(CallOutcome::Failed)).1 == (ActionView::Finish {
            outcome: RunOutcome::ValidationFailed { backend: b },
        }),
        step(s, Some(CallOutcome::TimedOut)) == step(s, Some(CallOutcome::Failed)),
        forall|last: Option<CallOutcome>|
            (#[trigger] step(step(s, Some(CallOutcome::Failed)).0, last)).1 == (ActionView::Finish {
                outcome: RunOutcome::ValidationFailed { backend: b },
            }),
{
}

/// An execution that times out is dealt with as one that failed.
pub proof fn lemma_timeout_is_failure(s: EngineView)
    ensures
        step(s, Some(CallOutcome::TimedOut)) == step(s, Some(CallOutcome::Failed)),
{
}

/// The validation phase decides no entity.
proof fn lemma_validation_leaves_entities(s: EngineView)
    ensures
        decide_validation(s).0.statuses == s.statuses,
        decide_validation(s).0.attempts == s.attempts,
        decide_validation(s).0.cursor == s.cursor,
        decide_validation(s).0.entities == s.entities,
        decide_validation(s).0.validations == s.validations,
        decide_validation(s).0.validated == s.validated,
{
}

/// The execution phase leaves the entities before the cursor as they are.
proof fn lemma_execution_leaves_decided(s: EngineView, e: int)
    requires
        0 <= e < s.cursor <= s.entities.len(),
        s.statuses.len() == s.entities.len(),
    ensures
        decide_execution(s).0.statuses[e] == s.statuses[e],
        decide_execution(s).0.attempts == s.attempts,
    decreases s.entities.len() - s.cursor,
{
    if s.cursor < s.entities.len() {
        if !dependencies_succeeded(s, s.cursor) {
            lemma_execution_leaves_decided(
                EngineView {
                    statuses: s.statuses.update(s.cursor, EntityStatus::Skipped),
                    cursor: s.cursor + 1,
                    ..s
                },
                e,
            );
        }
    }
}

/// What is decided stays decided: a step changes neither the status of an
/// entity that has succeeded, failed or been skipped, nor the number of
/// calls made for it.
pub proof fn lemma_decided_stays_decided(s: EngineView, last: Option<CallOutcome>, e: int)
    requires
        engine_wf(s),
        0 <= e < s.entities.len(),
        s.statuses[e] != EntityStatus::Pending,
    ensures
        step(s, last).0.statuses[e] == s.statuses[e],
        step(s, last).0.attempts[e] == s.attempts[e],
{
    lemma_settle_keeps_wf(s, last);
    let t = settle(s, last);
    assert(e < s.cursor);
    assert(t.statuses[e] == s.statuses[e] && t.attempts[e] == s.attempts[e]);
    lemma_validation_leaves_entities(t);
    let u = decide_validation(t).0;
    if decide_validation(t).1 is None {
        lemma_validation_keeps_wf(t);
        lemma_execution_leaves_decided(u, e);
    }
}

/// The state that a run reaches from `s` when its calls end with the
/// outcomes `outcomes`, one step for each.
pub open spec fn reached(s: EngineView, outcomes: Seq<Option<CallOutcome>>) -> EngineView
    decreases outcomes.len(),
{
    if outcomes.len() == 0 {
        s
    } else {
        step(reached(s, outcomes.drop_last()), outcomes.last()).0
    }
}

/// Whatever the outcomes of its calls, a run stays among the states that
/// `engine_wf` describes, its plan stays as it is, and what is decided
/// stays decided.
pub proof fn lemma_run_keeps_wf(s: EngineView, outcomes: Seq<Option<CallOutcome>>)
    requires
        engine_wf(s),
    ensures
        engine_wf(reached(s, outcomes)),
        forall|a: int|
            0 <= a < s.entities.len() && (#[trigger] s.statuses[a]) != EntityStatus::Pending ==> reached(
                s,
                outcomes,
            ).statuses[a] == s.statuses[a],
        reached(s, outcomes).entities == s.entities,
    decreases outcomes.len(),
{
    if outcomes.len() > 0 {
        let before = reached(s, outcomes.drop_last());
        lemma_run_keeps_wf(s, outcomes.drop_last());
        lemma_step_keeps_wf(before, outcomes.last());
        lemma_step_keeps_plan(before, outcomes.last());
        assert forall|a: int|
            0 <= a < s.entities.len() && (#[trigger] s.statuses[a]) != EntityStatus::Pending implies reached(
            s,
            outcomes,
        ).statuses[a] == s.statuses[a] by {
            lemma_decided_stays_decided(before, outcomes.last(), a);
        }
    }
}

/// Once an entity has failed or was skipped, no entity that waits for it
/// is ever executed: whatever the outcomes of the calls that follow, no
/// call is made for it and none is awaited.
pub proof fn lemma_dependents_of_failure_never_run(
    s: EngineView,
    outcomes: Seq<Option<CallOutcome>>,
    a: int,
    b: int,
)
    requires
        engine_wf(s),
        0 <= a < s.entities.len(),
        0 <= b < s.entities.len(),
        s.entities[b].depends_on.contains(a as usize),
        s.statuses[a] == EntityStatus::Failed || s.statuses[a] == EntityStatus::Skipped,
    ensures
        reached(s, outcomes).attempts[b] == 0,
        reached(s, outcomes).in_flight != InFlight::Execution(b as usize),
{
    lemma_run_keeps_wf(s, outcomes);
    lemma_failed_dependency_blocks(reached(s, outcomes), a, b);
}

/// A step changes nothing of the plan.
pub proof fn lemma_step_keeps_plan(s: EngineView, last: Option<CallOutcome>)
    ensures
        step(s, last).0.entities == s.entities,
        step(s, last).0.backends == s.backends,
        step(s, last).0.retries == s.retries,
{
    let t = settle(s, last);
    lemma_validation_leaves_entities(t);
    lemma_validation_keeps_backends(t);
    lemma_execution_keeps_plan(decide_validation(t).0);
}

/// The validation phase changes nothing of the backends.
proof fn lemma_validation_keeps_backends(s: EngineView)
    ensures
        decide_validation(s).0.backends == s.backends,
        decide_validation(s).0.retries == s.retries,
{
}

/// The execution phase changes nothing of the plan.
proof fn lemma_execution_keeps_plan(s: EngineView)
    ensures
        decide_execution(s).0.entities == s.entities,
        decide_execution(s).0.backends == s.backends,
        decide_execution(s).0.retries == s.retries,
    decreases s.entities.len() - s.cursor,
{
    if 0 <= s.cursor < s.entities.len() {
        if !dependencies_succeeded(s, s.cursor) {
            lemma_execution_keeps_plan(
                EngineView {
                    statuses: s.statuses.update(s.cursor, EntityStatus::Skipped),
                    cursor: s.cursor + 1,
                    ..s
                },
            );
        }
    }
}

/// No entity is executed before every backend has passed validation: in
/// every state of a run, an entity for which a call was made or is awaited
/// finds all backends validated, its own among them.
pub proof fn lemma_execution_follows_validation(s: EngineView, e: int)
    requires
        engine_wf(s),
        0 <= e < s.entities.len(),
        s.attempts[e] > 0 || s.in_flight == InFlight::Execution(e as usize),
    ensures
        all_validated(s),
        s.validations[s.entities[e].backend as int] == Validation::Passed,
{
    if s.attempts[e] > 0 {
        if s.validated < s.backends.len() {
            assert(s.cursor == 0);
            if e > 0 {
                assert(s.attempts[e] == 0);
            }
        }
    }
    assert(s.validated == s.backends.len());
}

/// An entity that waits for one which failed or was skipped is never
/// executed: in every state of a run, no call was made for it and none is
/// awaited.
pub proof fn lemma_failed_dependency_blocks(s: EngineView, a: int, b: int)
    requires
        engine_wf(s),
        0 <= b < s.entities.len(),
        0 <= a < s.entities.len(),
        s.entities[b].depends_on.contains(a as usize),
        s.statuses[a] == EntityStatus::Failed || s.statuses[a] == EntityStatus::Skipped,
    ensures
        s.attempts[b] == 0,
        s.in_flight != InFlight::Execution(b as usize),
        s.statuses[b] == EntityStatus::Pending || s.statuses[b] == EntityStatus::Skipped,
{
    let k = choose|k: int| 0 <= k < s.entities[b].depends_on.len() && s.entities[b].depends_on[k] == a as usize;
    assert(s.statuses[s.entities[b].depends_on[k] as int] != EntityStatus::Succeeded);
    assert(!dependencies_succeeded(s, b));
    if s.attempts[b] > 0 {
        if b > s.cursor {
            assert(s.attempts[b] == 0);
        }
    }
}

/// An entity whose turn has come is executed whatever became of the
/// entities that it does not wait for: when every backend has passed
/// validation and all that the first undecided entity waits for have
/// succeeded, the next call is its execution.
pub proof fn lemma_ready_entity_is_executed(s: EngineView)
    requires
        engine_wf(s),
        validation_done(s),
        s.cursor < s.entities.len(),
        dependencies_succeeded(s, s.cursor),
    ensures
        decide(s).1 == (ActionView::Execute {
            entity: s.cursor as usize,
            attempt: (s.attempts[s.cursor] + 1) as u64,
            command: s.backends[s.entities[s.cursor].backend as int].execute,
        }),
{
}

/// A run that completes has executed every entity with success.
pub proof fn lemma_completed_run_succeeded(s: EngineView)
    requires
        engine_wf(s),
        s.cursor == s.entities.len(),
        run_outcome(s) == RunOutcome::Completed,
    ensures
        forall|e: int| 0 <= e < s.statuses.len() ==> #[trigger] s.statuses[e] == EntityStatus::Succeeded,
{
    assert forall|e: int| 0 <= e < s.statuses.len() implies #[trigger] s.statuses[e]
        == EntityStatus::Succeeded by {
        lemma_no_failure_no_skip(s, e);
    }
}

/// Where no entity has failed, none of the first entities was skipped.
proof fn lemma_no_failure_no_skip(s: EngineView, e: int)
    requires
        engine_wf(s),
        s.cursor == s.entities.len(),
        run_outcome(s) == RunOutcome::Completed,
        0 <= e < s.statuses.len(),
    ensures
        s.statuses[e] == EntityStatus::Succeeded,
    decreases e,
{
    if s.statuses[e] == EntityStatus::Failed {
        lemma_first_failed_exists(s, e);
    }
    assert(s.statuses[e] != EntityStatus::Pending);
    if s.statuses[e] == EntityStatus::Skipped {
        assert(!dependencies_succeeded(s, e));
        let k = choose|k: int|
            0 <= k < s.entities[e].depends_on.len() && s.statuses[(
            #[trigger] s.entities[e].depends_on[k]) as int] != EntityStatus::Succeeded;
        assert(s.entities[e].depends_on[k] < e);
        lemma_no_failure_no_skip(s, s.entities[e].depends_on[k] as int);
    }
}

/// Where an entity has failed, one is the first to have failed.
proof fn lemma_first_failed_exists(s: EngineView, e: int)
    requires
        0 <= e < s.statuses.len(),
        s.statuses[e] == EntityStatus::Failed,
    ensures
        exists|f: int| is_first_failed(s, f),
    decreases e,
{
    if exists|j: int| 0 <= j < e && s.statuses[j] == EntityStatus::Failed {
        let j = choose|j: int| 0 <= j < e && s.statuses[j] == EntityStatus::Failed;
        lemma_first_failed_exists(s, j);
    } else {
        assert(is_first_failed(s, e));
    }
}

} // verus!
