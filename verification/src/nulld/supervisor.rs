//! Process supervisor for nulld.
//!
//! Starts services in dependency order, restarts them on exit according to
//! their policy with exponential backoff, and stops them in reverse order.
//! Launching and stopping a process is work the caller supplies as a
//! closure; times are monotonic clock readings in milliseconds.
use vstd::prelude::*;
use vstd::arithmetic::power2::{pow2, lemma2_to64, lemma_pow2_strictly_increases};
use crate::nulld::service::{
    ServiceDef, RestartPolicy, DepError, resolve_start_order, resolves_as,
    all_deps_known, has_start_order, is_start_order, dep_error_message, names_of, first_missing,
    is_missing, names_distinct,
};
use crate::nulld::signal::ExitReason;
use crate::text::views;

verus! {

/// Longest wait, in seconds, between two restarts of a service.
pub const MAX_BACKOFF_SECS: u64 = 30;

/// Wait, in seconds, before the first restart.
pub const INITIAL_BACKOFF_SECS: u64 = 1;

/// Milliseconds in a second.
pub const MILLIS_PER_SEC: u64 = 1000;

/// The backoff before restart number `restart_count + 1`, in seconds:
/// `1, 2, 4, 8, 16, 30, 30, ...`.
pub open spec fn backoff_secs(restart_count: nat) -> nat {
    let doubled = (INITIAL_BACKOFF_SECS as nat) * pow2(restart_count);
    if doubled < MAX_BACKOFF_SECS { doubled } else { MAX_BACKOFF_SECS as nat }
}

/// Each backoff doubles the one before until it reaches the cap, so the
/// backoff never shrinks and stays between 1 and `MAX_BACKOFF_SECS` seconds.
pub proof fn lemma_backoff_doubles_until_cap(n: nat)
    ensures
        backoff_secs(n + 1) == (if 2 * backoff_secs(n) < MAX_BACKOFF_SECS {
            2 * backoff_secs(n)
        } else {
            MAX_BACKOFF_SECS as nat
        }),
        backoff_secs(n) <= backoff_secs(n + 1),
        1 <= backoff_secs(n) <= MAX_BACKOFF_SECS,
        backoff_secs(0) == 1,
{
    vstd::arithmetic::power2::lemma2_to64();
    vstd::arithmetic::power2::lemma_pow2_unfold(n + 1);
    vstd::arithmetic::power2::lemma_pow2_pos(n);
}

/// Exponential backoff in whole seconds, capped at `MAX_BACKOFF_SECS`.
pub fn calculate_backoff(restart_count: u32) -> (secs: u64)
    ensures
        secs == backoff_secs(restart_count as nat),
        secs <= MAX_BACKOFF_SECS,
{
    let mut secs: u64 = INITIAL_BACKOFF_SECS;
    let mut i: u32 = 0;
    proof {
        lemma2_to64();
    }
    while i < restart_count && secs < MAX_BACKOFF_SECS
        invariant
            i <= restart_count,
            i <= 5,
            secs == pow2(i as nat),
            secs <= 32,
            pow2(5) == 32,
            pow2(4) == 16,
            i < 5 ==> secs < MAX_BACKOFF_SECS,
        decreases restart_count - i,
    {
        proof {
            vstd::arithmetic::power2::lemma_pow2_unfold((i + 1) as nat);
            if i + 1 < 4 {
                lemma_pow2_strictly_increases((i + 1) as nat, 4);
            }
        }
        secs = secs * 2;
        i = i + 1;
    }
    if i < restart_count {
        proof {
            lemma_pow2_strictly_increases(i as nat, restart_count as nat);
        }
    }
    if secs > MAX_BACKOFF_SECS {
        MAX_BACKOFF_SECS
    } else {
        secs
    }
}

/// Runtime state of a managed service.
#[derive(Debug, Clone, Copy, PartialEq, Eq, Structural)]
pub enum ServiceState {
    Stopped,
    Running,
    Failed,
    WaitingRestart,
}

/// A service together with what the supervisor knows of it.
#[derive(Debug)]
pub struct ManagedService {
    pub def: ServiceDef,
    pub pid: Option<u32>,
    pub state: ServiceState,
    pub restart_count: u32,
    pub last_start: Option<u64>,
    pub next_restart: Option<u64>,
}

/// Why the supervisor could not do what was asked.
#[derive(Debug)]
pub enum SupervisorError {
    DependencyError(String),
    UnknownService(String),
    SpawnFailed { service: String, source: String },
}

/// The text of a supervisor error.
pub open spec fn supervisor_error_message(e: SupervisorError) -> Seq<char> {
    match e {
        SupervisorError::DependencyError(m) => "dependency resolution failed: "@ + m@,
        SupervisorError::UnknownService(n) => "unknown service: "@ + n@,
        SupervisorError::SpawnFailed { service, source } => "failed to spawn '"@ + service@ + "': "@
            + source@,
    }
}

impl SupervisorError {
    /// The human-readable description of the error.
    pub fn to_string(&self) -> (s: String)
        ensures
            s@ == supervisor_error_message(*self),
    {
        match self {
            SupervisorError::DependencyError(m) => {
                let mut s = String::from_str("dependency resolution failed: ");
                s.append(m.as_str());
                s
            },
            SupervisorError::UnknownService(n) => {
                let mut s = String::from_str("unknown service: ");
                s.append(n.as_str());
                s
            },
            SupervisorError::SpawnFailed { service, source } => {
                let mut s = String::from_str("failed to spawn '");
                s.append(service.as_str());
                s.append("': ");
                s.append(source.as_str());
                s
            },
        }
    }
}

/// What happened when a supervised child exited.
#[derive(Debug)]
pub struct ChildExit {
    /// The service whose process exited.
    pub service: String,
    /// The restart policy that decided.
    pub policy: RestartPolicy,
    /// Whether a restart was scheduled.
    pub will_restart: bool,
    /// The scheduled delay in seconds (0 when no restart).
    pub backoff_secs: u64,
    /// The restart attempt number after this exit.
    pub attempt: u32,
}

// ---------------------------------------------------------------------------
// Model
// ---------------------------------------------------------------------------

/// The services by name.
pub open spec fn service_table(m: Seq<ManagedService>) -> Map<Seq<char>, ManagedService> {
    Map::new(
        |k: Seq<char>| exists|j: int| 0 <= j < m.len() && (#[trigger] m[j]).def.name@ == k,
        |k: Seq<char>| m[choose|j: int| 0 <= j < m.len() && (#[trigger] m[j]).def.name@ == k],
    )
}

/// No two managed services share a name.
pub open spec fn distinct_services(m: Seq<ManagedService>) -> bool {
    forall|a: int, b: int| 0 <= a < m.len() && 0 <= b < m.len() && a != b ==> (#[trigger] m[a]).def.name@
        != (#[trigger] m[b]).def.name@
}

/// The definitions of the managed services.
pub open spec fn defs_of(m: Seq<ManagedService>) -> Seq<ServiceDef> {
    m.map_values(|x: ManagedService| x.def)
}

/// A service as first registered: stopped, never started.
pub open spec fn fresh(d: ServiceDef) -> ManagedService {
    ManagedService {
        def: d,
        pid: None,
        state: ServiceState::Stopped,
        restart_count: 0,
        last_start: None,
        next_restart: None,
    }
}

/// Service definitions by name; a later definition of a name replaces an
/// earlier one.
pub open spec fn defs_by_name(defs: Seq<ServiceDef>) -> Map<Seq<char>, ServiceDef>
    decreases defs.len(),
{
    if defs.len() == 0 {
        Map::empty()
    } else {
        defs_by_name(defs.drop_last()).insert(defs.last().name@, defs.last())
    }
}

/// `new` is `old` after its process was launched with pid `pid` at `now`.
pub open spec fn started(old: ManagedService, new: ManagedService, pid: u32, now: u64) -> bool {
    new == ManagedService { pid: Some(pid), state: ServiceState::Running, last_start: Some(now), ..old }
}

/// `new` is `old` after launching its process failed.
pub open spec fn launch_failed(old: ManagedService, new: ManagedService) -> bool {
    new == ManagedService { state: ServiceState::Failed, ..old }
}

/// The launcher may report `outcome` for the service's binary and arguments.
pub open spec fn launch_may_give<F: Fn(&String, &Vec<String>) -> Result<u32, String>>(
    launch: F,
    svc: ManagedService,
    outcome: Result<u32, String>,
) -> bool {
    call_ensures(launch, (&svc.def.binary, &svc.def.args), outcome)
}

/// The launcher accepts the service's binary and arguments.
pub open spec fn may_launch<F: Fn(&String, &Vec<String>) -> Result<u32, String>>(launch: F, svc: ManagedService) -> bool {
    call_requires(launch, (&svc.def.binary, &svc.def.args))
}

/// `new` is `old` after one launch attempt at `now`, with an outcome the
/// launcher may give.
pub open spec fn launched<F: Fn(&String, &Vec<String>) -> Result<u32, String>>(
    launch: F,
    old: ManagedService,
    new: ManagedService,
    now: u64,
) -> bool {
    ||| (new.pid is Some && started(old, new, new.pid->0, now) && launch_may_give(
        launch,
        old,
        Ok(new.pid->0),
    ))
    ||| (launch_failed(old, new) && exists|e: String| launch_may_give(launch, old, Err(e)))
}

/// Whether a service restarts after exiting for `reason` under `policy`.
pub open spec fn restarts_after(policy: RestartPolicy, reason: ExitReason) -> bool {
    match policy {
        RestartPolicy::Always => true,
        RestartPolicy::OnFailure => match reason {
            ExitReason::Exited(code) => code != 0,
            ExitReason::Signaled(_) => true,
        },
        RestartPolicy::Never => false,
    }
}

/// The service record after its process exited for `reason` at `now`.
pub open spec fn after_exit(svc: ManagedService, reason: ExitReason, now: u64) -> ManagedService {
    if restarts_after(svc.def.restart, reason) {
        ManagedService {
            pid: None,
            state: ServiceState::WaitingRestart,
            next_restart: Some(
                (now + backoff_secs(svc.restart_count as nat) * MILLIS_PER_SEC) as u64,
            ),
            restart_count: (svc.restart_count + 1) as u32,
            ..svc
        }
    } else {
        ManagedService { pid: None, state: ServiceState::Failed, ..svc }
    }
}

/// The restart policies: `Always` restarts after every exit, `Never` after
/// none, and `OnFailure` after a kill by a signal or an exit with a non-zero
/// code, never after a clean exit (code 0).  A service that restarts waits
/// for it without a process; one that does not is `Failed`.
pub proof fn lemma_restart_policies(svc: ManagedService, reason: ExitReason, now: u64, code: i32, sig: i32)
    ensures
        restarts_after(RestartPolicy::Always, reason),
        !restarts_after(RestartPolicy::Never, reason),
        restarts_after(RestartPolicy::OnFailure, ExitReason::Exited(code)) <==> code != 0,
        restarts_after(RestartPolicy::OnFailure, ExitReason::Signaled(sig)),
        after_exit(svc, reason, now).pid is None,
        after_exit(svc, reason, now).def == svc.def,
        restarts_after(svc.def.restart, reason) ==> after_exit(svc, reason, now).state == ServiceState::WaitingRestart,
        !restarts_after(svc.def.restart, reason) ==> after_exit(svc, reason, now).state == ServiceState::Failed,
        restarts_after(svc.def.restart, reason) && svc.restart_count < u32::MAX && now + 30000 <= u64::MAX ==> {
            &&& after_exit(svc, reason, now).restart_count == svc.restart_count + 1
            &&& after_exit(svc, reason, now).next_restart == Some((now + 1000 * backoff_secs(svc.restart_count as nat)) as u64)
            &&& now + 1000 <= after_exit(svc, reason, now).next_restart->0 <= now + 30000
        },
        !restarts_after(svc.def.restart, reason) ==> after_exit(svc, reason, now).restart_count == svc.restart_count
            && after_exit(svc, reason, now).next_restart == svc.next_restart,
{
    lemma_backoff_doubles_until_cap(svc.restart_count as nat);
}

/// A restart is due exactly when the service waits for one whose time has
/// come: never before its time, and never for a service in another state.
pub proof fn lemma_restart_due(svc: ManagedService, now: u64)
    ensures
        restart_due(svc, now) <==> (svc.state == ServiceState::WaitingRestart && svc.next_restart is Some
            && svc.next_restart->0 <= now),
{
}

/// The service waits for a restart that is due at `now`.
pub open spec fn restart_due(svc: ManagedService, now: u64) -> bool {
    svc.state == ServiceState::WaitingRestart && svc.next_restart is Some && now
        >= svc.next_restart->0
}

/// The service record after it was stopped.
pub open spec fn stopped(svc: ManagedService) -> ManagedService {
    ManagedService { pid: None, state: ServiceState::Stopped, ..svc }
}

/// Runs services in dependency order and keeps them running.
pub struct Supervisor {
    services: Vec<ManagedService>,
    start_order: Vec<String>,
}

impl View for Supervisor {
    type V = Map<Seq<char>, ManagedService>;

    closed spec fn view(&self) -> Map<Seq<char>, ManagedService> {
        service_table(self.services@)
    }
}

proof fn lemma_table_lookup(m: Seq<ManagedService>, j: int)
    requires
        distinct_services(m),
        0 <= j < m.len(),
    ensures
        service_table(m).contains_key(m[j].def.name@),
        service_table(m)[m[j].def.name@] == m[j],
{
    let k = m[j].def.name@;
    assert(m[j].def.name@ == k);
    let c = choose|c: int| 0 <= c < m.len() && (#[trigger] m[c]).def.name@ == k;
    if c != j {
        assert(m[c].def.name@ != m[j].def.name@);
    }
}

proof fn lemma_table_reverse(m: Seq<ManagedService>)
    requires
        distinct_services(m),
    ensures
        distinct_services(m.reverse()),
        service_table(m.reverse()) == service_table(m),
{
    let r = m.reverse();
    let n = m.len();
    assert forall|a: int, b: int| 0 <= a < r.len() && 0 <= b < r.len() && a != b implies (#[trigger] r[a]).def.name@
        != (#[trigger] r[b]).def.name@ by {
        assert(r[a] == m[n - 1 - a]);
        assert(r[b] == m[n - 1 - b]);
    }
    assert forall|k: Seq<char>| #![auto] service_table(r).contains_key(k) <==> service_table(m).contains_key(k) by {
        if service_table(r).contains_key(k) {
            let c = choose|c: int| 0 <= c < r.len() && (#[trigger] r[c]).def.name@ == k;
            assert(m[n - 1 - c] == r[c]);
        }
        if service_table(m).contains_key(k) {
            let c = choose|c: int| 0 <= c < m.len() && (#[trigger] m[c]).def.name@ == k;
            assert(r[n - 1 - c] == m[c]);
        }
    }
    assert forall|k: Seq<char>| #![auto] service_table(r).contains_key(k) implies service_table(r)[k] == service_table(m)[k] by {
        let c = choose|c: int| 0 <= c < r.len() && (#[trigger] r[c]).def.name@ == k;
        lemma_table_lookup(r, c);
        assert(m[n - 1 - c] == r[c]);
        lemma_table_lookup(m, n - 1 - c);
    }
    assert(service_table(r) =~= service_table(m));
}

/// The definitions of distinct services, looked up by name, are the
/// services' table.
proof fn lemma_defs_by_name_of_table(m: Seq<ManagedService>)
    requires
        distinct_services(m),
    ensures
        defs_by_name(defs_of(m)) == service_table(m).map_values(|x: ManagedService| x.def),
    decreases m.len(),
{
    if m.len() == 0 {
        assert(service_table(m).map_values(|x: ManagedService| x.def) =~= Map::empty());
    } else {
        let init = m.drop_last();
        let last = m.last();
        assert(distinct_services(init));
        lemma_defs_by_name_of_table(init);
        assert(defs_of(m).drop_last() =~= defs_of(init));
        lemma_table_lookup(m, m.len() - 1);
        assert forall|k: Seq<char>| #![auto] service_table(m).contains_key(k) <==> service_table(init).insert(last.def.name@, last).contains_key(k) by {
            if service_table(m).contains_key(k) {
                let c = choose|c: int| 0 <= c < m.len() && (#[trigger] m[c]).def.name@ == k;
                if c < init.len() {
                    assert(init[c].def.name@ == k);
                }
            }
            if service_table(init).contains_key(k) {
                let c = choose|c: int| 0 <= c < init.len() && (#[trigger] init[c]).def.name@ == k;
                assert(m[c].def.name@ == k);
            }
        }
        assert forall|k: Seq<char>| #![auto] service_table(m).contains_key(k) implies service_table(m)[k] == service_table(init).insert(last.def.name@, last)[k] by {
            let c = choose|c: int| 0 <= c < m.len() && (#[trigger] m[c]).def.name@ == k;
            lemma_table_lookup(m, c);
            if c < init.len() {
                assert(init[c] == m[c]);
                lemma_table_lookup(init, c);
                assert(m[c].def.name@ != last.def.name@);
            }
        }
        assert(service_table(m) =~= service_table(init).insert(last.def.name@, last));
        assert(service_table(m).map_values(|x: ManagedService| x.def) =~= service_table(init).map_values(
            |x: ManagedService| x.def,
        ).insert(last.def.name@, last.def));
    }
}

proof fn lemma_table_update(m: Seq<ManagedService>, j: int, x: ManagedService)
    requires
        distinct_services(m),
        0 <= j < m.len(),
        x.def.name@ == m[j].def.name@,
    ensures
        distinct_services(m.update(j, x)),
        service_table(m.update(j, x)) == service_table(m).insert(x.def.name@, x),
{
    let m2 = m.update(j, x);
    assert forall|a: int, b: int| 0 <= a < m2.len() && 0 <= b < m2.len() && a != b implies (#[trigger] m2[a]).def.name@
        != (#[trigger] m2[b]).def.name@ by {
        assert(m[a].def.name@ != m[b].def.name@);
    }
    lemma_table_lookup(m2, j);
    assert forall|k: Seq<char>| #![auto] service_table(m2).contains_key(k) <==> service_table(m).insert(
        x.def.name@,
        x,
    ).contains_key(k) by {
        if service_table(m2).contains_key(k) {
            let c = choose|c: int| 0 <= c < m2.len() && (#[trigger] m2[c]).def.name@ == k;
            assert(m[c].def.name@ == k);
        }
        if service_table(m).contains_key(k) {
            let c = choose|c: int| 0 <= c < m.len() && (#[trigger] m[c]).def.name@ == k;
            assert(m2[c].def.name@ == k);
        }
    }
    assert forall|k: Seq<char>| #![auto] service_table(m2).contains_key(k) implies service_table(m2)[k]
        == service_table(m).insert(x.def.name@, x)[k] by {
        let c = choose|c: int| 0 <= c < m2.len() && (#[trigger] m2[c]).def.name@ == k;
        lemma_table_lookup(m2, c);
        if c != j {
            lemma_table_lookup(m, c);
        }
    }
    assert(service_table(m2) =~= service_table(m).insert(x.def.name@, x));
}

impl Supervisor {
    /// The managed services in their internal order.
    pub closed spec fn managed(&self) -> Seq<ManagedService> {
        self.services@
    }

    /// The order in which services were last started.
    pub closed spec fn order(&self) -> Seq<Seq<char>> {
        views(self.start_order@)
    }

    /// Names are distinct and the start order names managed services once each.
    pub closed spec fn wf(&self) -> bool {
        &&& distinct_services(self.services@)
        &&& self.order().no_duplicates()
        &&& forall|t: int| 0 <= t < self.order().len() ==> self@.contains_key(#[trigger] self.order()[t])
    }

    /// The definitions the supervisor manages.
    pub closed spec fn defs(&self) -> Seq<ServiceDef> {
        defs_of(self.services@)
    }

    /// The index of the service named `name`.
    fn find_name(&self, name: &String) -> (r: Option<usize>)
        requires
            self.wf(),
        ensures
            match r {
                Some(j) => j < self.services@.len() && self.services@[j as int].def.name@ == name@,
                None => !self@.contains_key(name@),
            },
    {
        let mut j: usize = 0;
        while j < self.services.len()
            invariant
                j <= self.services@.len(),
                forall|j2: int| 0 <= j2 < j ==> (#[trigger] self.services@[j2]).def.name@ != name@,
            decreases self.services@.len() - j,
        {
            if self.services[j].def.name == *name {
                return Some(j);
            }
            j = j + 1;
        }
        None
    }

    /// The index of a service whose process has `pid`.
    fn find_pid(&self, pid: u32) -> (r: Option<usize>)
        ensures
            match r {
                Some(j) => j < self.services@.len() && self.services@[j as int].pid == Some(pid),
                None => forall|j: int| 0 <= j < self.services@.len() ==> (#[trigger] self.services@[j]).pid
                    != Some(pid),
            },
    {
        let mut j: usize = 0;
        while j < self.services.len()
            invariant
                j <= self.services@.len(),
                forall|j2: int| 0 <= j2 < j ==> (#[trigger] self.services@[j2]).pid != Some(pid),
            decreases self.services@.len() - j,
        {
            if self.services[j].pid == Some(pid) {
                return Some(j);
            }
            j = j + 1;
        }
        None
    }

    /// A supervisor for the given definitions, all stopped.  When two
    /// definitions share a name the later one is kept.
    pub fn new(defs: Vec<ServiceDef>) -> (sup: Self)
        ensures
            sup.wf(),
            sup.order().len() == 0,
            sup@.dom() == defs_by_name(defs@).dom(),
            forall|k: Seq<char>| #[trigger] sup@.contains_key(k) ==> sup@[k] == fresh(defs_by_name(defs@)[k]),
            names_distinct(sup.defs()),
            defs_by_name(sup.defs()) == defs_by_name(defs@),
            names_distinct(defs@) ==> sup.defs() == defs@,
    {
        let ghost all = defs@;
        let mut rest = defs;
        let mut services: Vec<ManagedService> = Vec::new();
        while rest.len() > 0
            invariant
                rest@ == all.take(rest@.len() as int),
                rest@.len() <= all.len(),
                distinct_services(services@),
                forall|k: Seq<char>| #![auto] service_table(services@).contains_key(k) ==> service_table(services@)[k]
                    == fresh(service_table(services@)[k].def),
                defs_by_name(all) =~= defs_by_name(rest@).union_prefer_right(
                    service_table(services@).map_values(|x: ManagedService| x.def),
                ),
                names_distinct(all) ==> defs_of(services@) == all.skip(rest@.len() as int).reverse(),
            decreases rest@.len(),
        {
            let ghost before = rest@;
            let d = rest.pop().unwrap();
            proof {
                assert(rest@ =~= before.drop_last());
                assert(rest@ =~= all.take(rest@.len() as int));
            }
            let ghost old_services = services@;
            let existing = find_in(&services, &d.name);
            proof {
                if names_distinct(all) {
                    let r = rest@.len() as int;
                    assert(d == all[r]);
                    if let Some(j) = existing {
                        assert(defs_of(old_services)[j as int] == all.skip(r + 1).reverse()[j as int]);
                        let q = all.len() - 1 - j;
                        assert(all.skip(r + 1)[q - r - 1] == all[q]);
                        assert(all[q].name@ == all[r].name@);
                        assert(false);
                    }
                }
            }
            if existing.is_none() {
                services.push(fresh_exec(d));
                proof {
                    let m2 = services@;
                    assert forall|a: int, b: int| 0 <= a < m2.len() && 0 <= b < m2.len() && a != b implies (#[trigger] m2[a]).def.name@
                        != (#[trigger] m2[b]).def.name@ by {
                        if a < old_services.len() && b < old_services.len() {
                            assert(old_services[a].def.name@ != old_services[b].def.name@);
                        }
                    }
                    assert forall|k: Seq<char>| #![auto] service_table(m2).contains_key(k) implies service_table(m2)[k] == fresh(service_table(m2)[k].def) by {
                        let c = choose|c: int| 0 <= c < m2.len() && (#[trigger] m2[c]).def.name@ == k;
                        lemma_table_lookup(m2, c);
                        if c < old_services.len() {
                            lemma_table_lookup(old_services, c);
                        }
                    }
                    assert forall|k: Seq<char>| #![auto] service_table(m2).contains_key(k) <==> service_table(old_services).insert(d.name@, m2[m2.len() - 1]).contains_key(k) by {
                        if service_table(m2).contains_key(k) {
                            let c = choose|c: int| 0 <= c < m2.len() && (#[trigger] m2[c]).def.name@ == k;
                            if c < old_services.len() {
                                assert(old_services[c].def.name@ == k);
                            }
                        }
                        if service_table(old_services).contains_key(k) {
                            let c = choose|c: int| 0 <= c < old_services.len() && (#[trigger] old_services[c]).def.name@ == k;
                            assert(m2[c].def.name@ == k);
                        }
                        if k == d.name@ {
                            assert(m2[m2.len() - 1].def.name@ == k);
                        }
                    }
                    assert forall|k: Seq<char>| #![auto] service_table(m2).contains_key(k) implies service_table(m2)[k] == service_table(old_services).insert(d.name@, m2[m2.len() - 1])[k] by {
                        let c = choose|c: int| 0 <= c < m2.len() && (#[trigger] m2[c]).def.name@ == k;
                        lemma_table_lookup(m2, c);
                        if c < old_services.len() {
                            lemma_table_lookup(old_services, c);
                        }
                    }
                    assert(service_table(m2) =~= service_table(old_services).insert(d.name@, m2[m2.len() - 1]));
                }
            }
            proof {
                if names_distinct(all) {
                    let r = rest@.len() as int;
                    assert(all.skip(r).reverse() =~= all.skip(r + 1).reverse().push(all[r]));
                    assert(defs_of(services@) =~= defs_of(old_services).push(d));
                }
                let t0 = service_table(old_services).map_values(|x: ManagedService| x.def);
                let t1 = service_table(services@).map_values(|x: ManagedService| x.def);
                let last = before.last();
                assert(defs_by_name(before) == defs_by_name(rest@).insert(last.name@, last));
                if existing.is_none() {
                    assert(t1 =~= t0.insert(last.name@, last));
                    assert(defs_by_name(rest@).insert(last.name@, last).union_prefer_right(t0)
                        =~= defs_by_name(rest@).union_prefer_right(t1));
                } else {
                    let j = existing->0 as int;
                    lemma_table_lookup(old_services, j);
                    assert(t0.contains_key(last.name@));
                    assert(defs_by_name(rest@).insert(last.name@, last).union_prefer_right(t0)
                        =~= defs_by_name(rest@).union_prefer_right(t0));
                }
            }
        }
        proof {
            assert(rest@.len() == 0);
            assert(defs_by_name(rest@) =~= Map::empty());
            let t = service_table(services@).map_values(|x: ManagedService| x.def);
            assert(defs_by_name(all) =~= t);
        }
        // The definitions were taken from the back; put them back in order.
        let ghost backwards = services@;
        let mut ordered: Vec<ManagedService> = Vec::new();
        while services.len() > 0
            invariant
                services@ == backwards.take(services@.len() as int),
                services@.len() <= backwards.len(),
                ordered@ == backwards.reverse().take(backwards.len() - services@.len()),
            decreases services@.len(),
        {
            let ghost before = services@;
            let ghost done = ordered@;
            let m = services.pop().unwrap();
            ordered.push(m);
            proof {
                assert(services@ =~= backwards.take(services@.len() as int));
                assert(ordered@ =~= backwards.reverse().take(backwards.len() - services@.len()));
            }
        }
        proof {
            assert(ordered@ =~= backwards.reverse());
            lemma_table_reverse(backwards);
            assert(defs_of(ordered@) =~= defs_of(backwards).reverse());
            lemma_defs_by_name_of_table(ordered@);
            if names_distinct(all) {
                assert(all.skip(0) =~= all);
                assert(all.reverse().reverse() =~= all);
            }
            assert forall|a: int, b: int| 0 <= a < defs_of(ordered@).len() && 0 <= b < defs_of(ordered@).len() && a != b
                implies #[trigger] defs_of(ordered@)[a].name@ != #[trigger] defs_of(ordered@)[b].name@ by {
                assert(ordered@[a].def.name@ != ordered@[b].def.name@);
            }
        }
        let services = ordered;
        let sup = Supervisor { services, start_order: Vec::new() };
        proof {
            assert(sup.order() =~= Seq::<Seq<char>>::empty());
        }
        sup
    }

    /// Whether every managed service can count one more restart.
    pub fn restart_counts_below_max(&self) -> (r: bool)
        requires
            self.wf(),
        ensures
            r == forall|k: Seq<char>| #[trigger] self@.contains_key(k) ==> self@[k].restart_count < u32::MAX,
    {
        let mut j: usize = 0;
        while j < self.services.len()
            invariant
                self.wf(),
                j <= self.services@.len(),
                forall|i: int| 0 <= i < j ==> (#[trigger] self.services@[i]).restart_count < u32::MAX,
            decreases self.services@.len() - j,
        {
            if self.services[j].restart_count == u32::MAX {
                proof {
                    lemma_table_lookup(self.services@, j as int);
                }
                return false;
            }
            j = j + 1;
        }
        proof {
            assert forall|k: Seq<char>| #[trigger] self@.contains_key(k) implies self@[k].restart_count < u32::MAX by {
                let i = choose|i: int| 0 <= i < self.services@.len() && (#[trigger] self.services@[i]).def.name@ == k;
                lemma_table_lookup(self.services@, i);
            }
        }
        true
    }

    /// Whether a service of this name is managed.
    pub fn contains_service(&self, name: &str) -> (r: bool)
        requires
            self.wf(),
        ensures
            r == self@.contains_key(name@),
    {
        let n = String::from_str(name);
        self.find_name(&n).is_some()
    }

    /// The state of the named service, if it is managed.
    pub fn service_state(&self, name: &str) -> (r: Option<ServiceState>)
        requires
            self.wf(),
        ensures
            match r {
                Some(st) => self@.contains_key(name@) && self@[name@].state == st,
                None => !self@.contains_key(name@),
            },
    {
        let n = String::from_str(name);
        match self.find_name(&n) {
            Some(j) => {
                proof {
                    lemma_table_lookup(self.services@, j as int);
                }
                Some(self.services[j].state)
            },
            None => None,
        }
    }

    /// The definitions in the internal order.
    fn clone_defs(&self) -> (r: Vec<ServiceDef>)
        ensures
            r@.len() == self.services@.len(),
            forall|i: int| 0 <= i < r@.len() ==> {
                &&& (#[trigger] r@[i]).name@ == self.services@[i].def.name@
                &&& r@[i].depends_on@ == self.services@[i].def.depends_on@
            },
    {
        let mut r: Vec<ServiceDef> = Vec::new();
        let mut i: usize = 0;
        while i < self.services.len()
            invariant
                i <= self.services@.len(),
                r@.len() == i,
                forall|i2: int| 0 <= i2 < i ==> {
                    &&& (#[trigger] r@[i2]).name@ == self.services@[i2].def.name@
                    &&& r@[i2].depends_on@ == self.services@[i2].def.depends_on@
                },
            decreases self.services@.len() - i,
        {
            r.push(self.services[i].def.clone());
            i = i + 1;
        }
        r
    }

    /// One launch attempt for the service at index `j`.
    fn launch_at<F: Fn(&String, &Vec<String>) -> Result<u32, String>>(
        &mut self,
        j: usize,
        launch: &F,
        now: u64,
    ) -> (r: Result<(), String>)
        requires
            old(self).wf(),
            j < old(self).services@.len(),
            may_launch(*launch, old(self).services@[j as int]),
        ensures
            final(self).wf(),
            final(self).start_order == old(self).start_order,
            final(self).services@ == old(self).services@.update(j as int, final(self).services@[j as int]),
            final(self)@ == old(self)@.insert(old(self).services@[j as int].def.name@, final(self).services@[j as int]),
            old(self)@.contains_key(old(self).services@[j as int].def.name@),
            old(self)@[old(self).services@[j as int].def.name@] == old(self).services@[j as int],
            final(self).services@[j as int].def == old(self).services@[j as int].def,
            launched(*launch, old(self).services@[j as int], final(self).services@[j as int], now),
            match r {
                Ok(()) => final(self).services@[j as int].state == ServiceState::Running,
                Err(e) => launch_failed(old(self).services@[j as int], final(self).services@[j as int])
                    && launch_may_give(*launch, old(self).services@[j as int], Err(e)),
            },
    {
        proof {
            lemma_table_lookup(self.services@, j as int);
        }
        let ghost before = self.services@;
        let outcome = launch(&self.services[j].def.binary, &self.services[j].def.args);
        let r = match outcome {
            Ok(pid) => {
                self.services[j].pid = Some(pid);
                self.services[j].state = ServiceState::Running;
                self.services[j].last_start = Some(now);
                proof {
                    assert(launch_may_give(*launch, before[j as int], Ok(pid)));
                }
                Ok(())
            },
            Err(e) => {
                self.services[j].state = ServiceState::Failed;
                proof {
                    assert(launch_may_give(*launch, before[j as int], Err(e)));
                }
                Err(e)
            },
        };
        proof {
            lemma_table_update(before, j as int, self.services@[j as int]);
            assert(self.services@ =~= before.update(j as int, self.services@[j as int]));
        }
        r
    }

    /// Start all services in dependency order.
    ///
    /// Resolves the start order (failing with `DependencyError` when the
    /// definitions have none), then launches each service in that order with
    /// `launch(binary, args)` until one launch fails, which ends the run with
    /// `SpawnFailed`.  A launched service is `Running` with the returned pid
    /// and `last_start == now`; the one whose launch failed is `Failed`;
    /// services after it are left as they were.  The launcher is called only
    /// with the binary and arguments of managed services.
    #[verifier::rlimit(40)]
    pub fn start_all<F: Fn(&String, &Vec<String>) -> Result<u32, String>>(
        &mut self,
        launch: &F,
        now: u64,
    ) -> (r: Result<(), SupervisorError>)
        requires
            old(self).wf(),
            forall|k: Seq<char>| #[trigger] old(self)@.contains_key(k) ==> may_launch(*launch, old(self)@[k]),
        ensures
            final(self).wf(),
            final(self)@.dom() == old(self)@.dom(),
            match r {
                Err(SupervisorError::DependencyError(msg)) => {
                    &&& final(self)@ == old(self)@
                    &&& final(self).order() == old(self).order()
                    &&& !(all_deps_known(old(self).defs()) && has_start_order(old(self).defs()))
                    &&& exists|e: DepError| resolves_as(old(self).defs(), Err(e), false) && msg@
                        == dep_error_message(e)
                },
                Ok(()) => {
                    &&& is_start_order(old(self).defs(), final(self).order())
                    &&& forall|k: Seq<char>| #[trigger] final(self)@.contains_key(k) ==> launched(
                        *launch,
                        old(self)@[k],
                        final(self)@[k],
                        now,
                    ) && final(self)@[k].state == ServiceState::Running
                },
                Err(SupervisorError::SpawnFailed { service, source }) => {
                    &&& is_start_order(old(self).defs(), final(self).order())
                    &&& exists|t: int| {
                        &&& 0 <= t < final(self).order().len()
                        &&& #[trigger] final(self).order()[t] == service@
                        &&& launch_failed(old(self)@[service@], final(self)@[service@])
                        &&& launch_may_give(*launch, old(self)@[service@], Err(source))
                        &&& forall|u: int| 0 <= u < t ==> launched(
                            *launch,
                            old(self)@[#[trigger] final(self).order()[u]],
                            final(self)@[final(self).order()[u]],
                            now,
                        ) && final(self)@[final(self).order()[u]].state == ServiceState::Running
                        &&& forall|u: int| t < u < final(self).order().len() ==> final(self)@[
                            #[trigger] final(self).order()[u]]
                            == old(self)@[final(self).order()[u]]
                    }
                },
                Err(SupervisorError::UnknownService(_)) => false,
            },
    {
        let defs = self.clone_defs();
        proof {
            assert forall|i: int| 0 <= i < defs@.len() implies (#[trigger] defs@[i]).name@ == self.defs()[i].name@ && defs@[i].depends_on@
                == self.defs()[i].depends_on@ by {}
            assert(same_shape(defs@, self.defs()));
        }
        let order = match resolve_start_order(defs.as_slice()) {
            Ok(o) => o,
            Err(e) => {
                let msg = e.to_string();
                proof {
                    lemma_same_shape(defs@, self.defs());
                    assert(resolves_as(defs@, Err(e), false));
                }
                return Err(SupervisorError::DependencyError(msg));
            },
        };
        proof {
            lemma_same_shape(defs@, self.defs());
        }
        let ghost old_table = self@;
        let ghost old_services = self.services@;
        self.start_order = order;
        let ghost o = self.order();
        proof {
            assert forall|t: int| 0 <= t < o.len() implies self@.contains_key(#[trigger] o[t]) by {
                assert(names_of(self.defs()).contains(o[t]));
                let j = choose|j: int| 0 <= j < names_of(self.defs()).len() && names_of(self.defs())[j] == o[t];
                lemma_table_lookup(self.services@, j);
            }
        }
        let n = self.start_order.len();
        let mut t: usize = 0;
        while t < n
            invariant
                n == self.start_order@.len(),
                o == self.order(),
                t <= n,
                self.wf(),
                self@.dom() == old_table.dom(),
                is_start_order(defs_of(old_services), o),
                self.services@.len() == old_services.len(),
                forall|i: int| 0 <= i < old_services.len() ==> (#[trigger] self.services@[i]).def.name@ == old_services[i].def.name@,
                old_table == service_table(old_services),
                old_table == old(self)@,
                old_services == old(self).managed(),
                distinct_services(old_services),
                forall|u: int| 0 <= u < t ==> launched(*launch, old_table[#[trigger] o[u]], self@[o[u]], now)
                    && self@[o[u]].state == ServiceState::Running,
                forall|u: int| t <= u < n ==> self@[#[trigger] o[u]] == old_table[o[u]],
                forall|k: Seq<char>| #[trigger] old_table.contains_key(k) ==> may_launch(*launch, old_table[k]),
            decreases n - t,
        {
            let j = match self.find_name(&self.start_order[t]) {
                Some(j) => j,
                None => {
                    proof {
                        assert(self@.contains_key(o[t as int]));
                    }
                    return Err(SupervisorError::UnknownService(self.start_order[t].clone()));
                },
            };
            proof {
                lemma_table_lookup(self.services@, j as int);
                assert(self@[o[t as int]] == old_table[o[t as int]]);
                assert(old_table.contains_key(o[t as int]));
            }
            let ghost before = self.services@;
            let ghost table_before = self@;
            match self.launch_at(j, launch, now) {
                Ok(()) => {},
                Err(e) => {
                    let service = self.start_order[t].clone();
                    proof {
                        assert(service@ == o[t as int]);
                        assert(self@.dom() =~= old_table.dom());
                        assert forall|u: int| t < u < n implies self@[#[trigger] o[u]] == old_table[o[u]] by {
                            assert(o[u] != o[t as int]);
                        }
                        assert forall|u: int| 0 <= u < t implies launched(*launch, old_table[#[trigger] o[u]], self@[o[u]], now)
                            && self@[o[u]].state == ServiceState::Running by {
                            assert(o[u] != o[t as int]);
                        }
                    }
                    return Err(SupervisorError::SpawnFailed { service, source: e });
                },
            }
            proof {
                assert(self@.dom() =~= old_table.dom());
                assert forall|u: int| t < u < n implies self@[#[trigger] o[u]] == old_table[o[u]] by {
                    assert(o[u] != o[t as int]);
                }
                assert forall|u: int| 0 <= u <= t implies launched(*launch, old_table[#[trigger] o[u]], self@[o[u]], now)
                    && self@[o[u]].state == ServiceState::Running by {
                    if u < t {
                        assert(o[u] != o[t as int]);
                    }
                }
            }
            t = t + 1;
        }
        proof {
            assert forall|k: Seq<char>| #[trigger] self@.contains_key(k) implies launched(*launch, old_table[k], self@[k], now)
                && self@[k].state == ServiceState::Running by {
                let j = choose|j: int| 0 <= j < self.services@.len() && (#[trigger] self.services@[j]).def.name@ == k;
                assert(defs_of(old_services)[j].name@ == k);
                assert(o.contains(defs_of(old_services)[j].name@));
                let u = choose|u: int| 0 <= u < o.len() && o[u] == k;
                assert(launched(*launch, old_table[o[u]], self@[o[u]], now));
            }
        }
        Ok(())
    }

    /// Record that the child with `pid` exited for `reason` at time `now`.
    ///
    /// The service owning the pid loses it; if its policy asks for a
    /// restart it waits `calculate_backoff(restart_count)` seconds and its
    /// restart count grows by one, otherwise it is `Failed`.  Returns what
    /// was decided, or `None` when no service has that pid.
    pub fn handle_child_exit(&mut self, pid: u32, reason: &ExitReason, now: u64) -> (r: Option<ChildExit>)
        requires
            old(self).wf(),
            now <= u64::MAX - MAX_BACKOFF_SECS * MILLIS_PER_SEC,
            forall|k: Seq<char>| #[trigger] old(self)@.contains_key(k) ==> old(self)@[k].restart_count < u32::MAX,
        ensures
            final(self).wf(),
            final(self).order() == old(self).order(),
            match r {
                None => {
                    &&& final(self)@ == old(self)@
                    &&& forall|k: Seq<char>| #[trigger] old(self)@.contains_key(k) ==> old(self)@[k].pid != Some(pid)
                },
                Some(ex) => {
                    let svc = old(self)@[ex.service@];
                    &&& old(self)@.contains_key(ex.service@)
                    &&& svc.pid == Some(pid)
                    &&& final(self)@ == old(self)@.insert(ex.service@, after_exit(svc, *reason, now))
                    &&& ex.policy == svc.def.restart
                    &&& ex.will_restart == restarts_after(svc.def.restart, *reason)
                    &&& ex.will_restart <==> (svc.def.restart == RestartPolicy::Always || (svc.def.restart
                        == RestartPolicy::OnFailure && *reason != ExitReason::Exited(0i32)))
                    &&& final(self)@[ex.service@].pid is None
                    &&& final(self)@[ex.service@].state == if ex.will_restart {
                        ServiceState::WaitingRestart
                    } else {
                        ServiceState::Failed
                    }
                    &&& ex.will_restart ==> ex.backoff_secs == backoff_secs(svc.restart_count as nat)
                        && ex.attempt == svc.restart_count + 1
                    &&& !ex.will_restart ==> ex.backoff_secs == 0 && ex.attempt == svc.restart_count
                },
            },
    {
        let j = match self.find_pid(pid) {
            Some(j) => j,
            None => {
                proof {
                    assert forall|k: Seq<char>| #[trigger] self@.contains_key(k) implies self@[k].pid != Some(pid) by {
                        let c = choose|c: int| 0 <= c < self.services@.len() && (#[trigger] self.services@[c]).def.name@ == k;
                        lemma_table_lookup(self.services@, c);
                    }
                }
                return None;
            },
        };
        proof {
            lemma_table_lookup(self.services@, j as int);
        }
        let ghost before = self.services@;
        let policy = self.services[j].def.restart;
        let should_restart = match policy {
            RestartPolicy::Always => true,
            RestartPolicy::OnFailure => match reason {
                ExitReason::Exited(code) => *code != 0,
                ExitReason::Signaled(_) => true,
            },
            RestartPolicy::Never => false,
        };
        self.services[j].pid = None;
        let count = self.services[j].restart_count;
        let mut backoff: u64 = 0;
        let mut attempt: u32 = count;
        if should_restart {
            backoff = calculate_backoff(count);
            self.services[j].state = ServiceState::WaitingRestart;
            self.services[j].next_restart = Some(now + backoff * MILLIS_PER_SEC);
            attempt = count + 1;
            self.services[j].restart_count = attempt;
        } else {
            self.services[j].state = ServiceState::Failed;
        }
        proof {
            lemma_table_update(before, j as int, self.services@[j as int]);
            assert(self.services@ =~= before.update(j as int, self.services@[j as int]));
            assert(self.services@[j as int] == after_exit(before[j as int], *reason, now));
        }
        let service = self.services[j].def.name.clone();
        Some(ChildExit { service, policy, will_restart: should_restart, backoff_secs: backoff, attempt })
    }

    /// Launch every service whose restart is due at `now`.
    ///
    /// Each due service gets one launch attempt (as in `start_all`); every
    /// other service is left as it was.  Returns one `SpawnFailed` error per
    /// failed launch, naming the service.  The launcher is called only with
    /// the binary and arguments of due services: its precondition need hold
    /// for no others.
    pub fn process_restarts<F: Fn(&String, &Vec<String>) -> Result<u32, String>>(
        &mut self,
        now: u64,
        launch: &F,
    ) -> (failures: Vec<SupervisorError>)
        requires
            old(self).wf(),
            forall|k: Seq<char>| #[trigger] old(self)@.contains_key(k) && restart_due(old(self)@[k], now)
                ==> may_launch(*launch, old(self)@[k]),
        ensures
            final(self).wf(),
            final(self).order() == old(self).order(),
            final(self)@.dom() == old(self)@.dom(),
            forall|k: Seq<char>| #[trigger] old(self)@.contains_key(k) ==> if restart_due(old(self)@[k], now) {
                launched(*launch, old(self)@[k], final(self)@[k], now)
            } else {
                final(self)@[k] == old(self)@[k]
            },
            forall|i: int| 0 <= i < failures@.len() ==> match #[trigger] failures@[i] {
                SupervisorError::SpawnFailed { service, source } => {
                    &&& old(self)@.contains_key(service@)
                    &&& restart_due(old(self)@[service@], now)
                    &&& launch_failed(old(self)@[service@], final(self)@[service@])
                    &&& launch_may_give(*launch, old(self)@[service@], Err(source))
                },
                _ => false,
            },
    {
        let ghost old_table = self@;
        let ghost old_services = self.services@;
        proof {
            assert forall|i: int| 0 <= i < old_services.len() && restart_due(old_services[i], now) implies #[trigger] may_launch(*launch, old_services[i]) by {
                lemma_table_lookup(old_services, i);
            }
        }
        let mut failures: Vec<SupervisorError> = Vec::new();
        let n = self.services.len();
        let mut j: usize = 0;
        while j < n
            invariant
                n == self.services@.len(),
                n == old_services.len(),
                j <= n,
                self.wf(),
                self.order() == old(self).order(),
                distinct_services(old_services),
                old_table == service_table(old_services),
                forall|i: int| 0 <= i < n ==> (#[trigger] self.services@[i]).def.name@ == old_services[i].def.name@,
                forall|i: int| 0 <= i < j ==> if restart_due(old_services[i], now) {
                    launched(*launch, old_services[i], #[trigger] self.services@[i], now)
                } else {
                    self.services@[i] == old_services[i]
                },
                forall|i: int| j <= i < n ==> #[trigger] self.services@[i] == old_services[i],
                forall|i: int| 0 <= i < failures@.len() ==> match #[trigger] failures@[i] {
                    SupervisorError::SpawnFailed { service, source } => exists|c: int|
                        0 <= c < j && old_services[c].def.name@ == service@ && restart_due(old_services[c], now)
                            && launch_failed(old_services[c], #[trigger] self.services@[c])
                            && launch_may_give(*launch, old_services[c], Err(source)),
                    _ => false,
                },
                forall|i: int| 0 <= i < n && restart_due(old_services[i], now) ==> #[trigger] may_launch(*launch, old_services[i]),
            decreases n - j,
        {
            let ghost iter_before = self.services@;
            let ghost fails_at_start = failures@;
            let due = self.services[j].state == ServiceState::WaitingRestart && match self.services[j].next_restart {
                Some(at) => now >= at,
                None => false,
            };
            if due {
                match self.launch_at(j, launch, now) {
                    Ok(()) => {},
                    Err(e) => {
                        let service = self.services[j].def.name.clone();
                        failures.push(SupervisorError::SpawnFailed { service, source: e });
                    },
                }
            }
            proof {
                if !due {
                    assert(self.services@ == iter_before);
                }
                assert forall|c: int| 0 <= c < j implies #[trigger] self.services@[c] == iter_before[c] by {}
                assert forall|i: int| 0 <= i < failures@.len() implies match #[trigger] failures@[i] {
                    SupervisorError::SpawnFailed { service, source } => exists|c: int|
                        0 <= c < j + 1 && old_services[c].def.name@ == service@ && restart_due(old_services[c], now)
                            && launch_failed(old_services[c], #[trigger] self.services@[c])
                            && launch_may_give(*launch, old_services[c], Err(source)),
                    _ => false,
                } by {
                    if i < fails_at_start.len() {
                        assert(failures@[i] == fails_at_start[i]);
                        match failures@[i] {
                            SupervisorError::SpawnFailed { service, source } => {
                                let c = choose|c: int|
                                    0 <= c < j && old_services[c].def.name@ == service@ && restart_due(old_services[c], now)
                                        && launch_failed(old_services[c], #[trigger] iter_before[c])
                                        && launch_may_give(*launch, old_services[c], Err(source));
                                assert(self.services@[c] == iter_before[c]);
                            },
                            _ => {},
                        }
                    } else {
                        match failures@[i] {
                            SupervisorError::SpawnFailed { service, source } => {
                                assert(launch_may_give(*launch, old_services[j as int], Err(source)));
                                assert(launch_failed(old_services[j as int], self.services@[j as int]));
                            },
                            _ => {},
                        }
                    }
                }
            }
            j = j + 1;
        }
        proof {
            assert forall|k: Seq<char>| #[trigger] old_table.contains_key(k) implies if restart_due(old_table[k], now) {
                launched(*launch, old_table[k], self@[k], now)
            } else {
                self@[k] == old_table[k]
            } by {
                let c = choose|c: int| 0 <= c < n && (#[trigger] old_services[c]).def.name@ == k;
                lemma_table_lookup(old_services, c);
                lemma_table_lookup(self.services@, c);
            }
            assert forall|k: Seq<char>| #![auto] self@.contains_key(k) <==> old_table.contains_key(k) by {
                if self@.contains_key(k) {
                    let c = choose|c: int| 0 <= c < n && (#[trigger] self.services@[c]).def.name@ == k;
                    assert(old_services[c].def.name@ == k);
                }
                if old_table.contains_key(k) {
                    let c = choose|c: int| 0 <= c < n && (#[trigger] old_services[c]).def.name@ == k;
                    assert(self.services@[c].def.name@ == k);
                }
            }
            assert(self@.dom() =~= old_table.dom());
            assert forall|i: int| 0 <= i < failures@.len() implies match #[trigger] failures@[i] {
                SupervisorError::SpawnFailed { service, source } => {
                    &&& old_table.contains_key(service@)
                    &&& restart_due(old_table[service@], now)
                    &&& launch_failed(old_table[service@], self@[service@])
                    &&& launch_may_give(*launch, old_table[service@], Err(source))
                },
                _ => false,
            } by {
                match failures@[i] {
                    SupervisorError::SpawnFailed { service, source } => {
                        let c = choose|c: int|
                            0 <= c < n && old_services[c].def.name@ == service@ && restart_due(old_services[c], now)
                                && launch_failed(old_services[c], #[trigger] self.services@[c])
                                && launch_may_give(*launch, old_services[c], Err(source));
                        lemma_table_lookup(old_services, c);
                        lemma_table_lookup(self.services@, c);
                    },
                    _ => {},
                }
            }
        }
        failures
    }

    /// Stop all started services, in reverse start order.
    ///
    /// Returns the services to signal, each with its process id, in the
    /// order to signal them: the reverse of the start order, leaving out the
    /// services without a process.  Each of them is recorded as `Stopped`
    /// without a pid; every other service is left as it was.
    pub fn stop_all(&mut self) -> (to_stop: Vec<(String, u32)>)
        requires
            old(self).wf(),
        ensures
            named_pids(to_stop@) == stop_plan(old(self)@, old(self).order()),
            final(self).wf(),
            final(self).order() == old(self).order(),
            final(self)@.dom() == old(self)@.dom(),
            forall|k: Seq<char>| #[trigger] old(self)@.contains_key(k) ==> if old(self).order().contains(k)
                && old(self)@[k].pid is Some {
                final(self)@[k] == stopped(old(self)@[k])
            } else {
                final(self)@[k] == old(self)@[k]
            },
    {
        let ghost old_table = self@;
        let ghost o = self.order();
        let mut to_stop: Vec<(String, u32)> = Vec::new();
        let mut t: usize = self.start_order.len();
        proof {
            assert(o.skip(o.len() as int) =~= Seq::<Seq<char>>::empty());
        }
        while t > 0
            invariant
                t <= self.start_order@.len(),
                o == self.order(),
                named_pids(to_stop@) == stop_plan(old_table, o.skip(t as int)),
                self.wf(),
                self@.dom() == old_table.dom(),
                forall|u: int| t <= u < o.len() ==> if old_table[#[trigger] o[u]].pid is Some {
                    self@[o[u]] == stopped(old_table[o[u]])
                } else {
                    self@[o[u]] == old_table[o[u]]
                },
                forall|k: Seq<char>| #[trigger] old_table.contains_key(k) && !o.skip(t as int).contains(k)
                    ==> self@[k] == old_table[k],
            decreases t,
        {
            t = t - 1;
            let name = &self.start_order[t];
            let ghost plan_before = named_pids(to_stop@);
            proof {
                assert(o[t as int] == name@);
                assert(o.skip(t as int).drop_first() =~= o.skip(t as int + 1));
                assert(o.skip(t as int)[0] == o[t as int]);
            }
            match self.find_name(name) {
                Some(j) => {
                    proof {
                        lemma_table_lookup(self.services@, j as int);
                        assert(!o.skip(t as int + 1).contains(o[t as int])) by {
                            if o.skip(t as int + 1).contains(o[t as int]) {
                                let u = choose|u: int| 0 <= u < o.skip(t as int + 1).len() && #[trigger] o.skip(t as int + 1)[u] == o[t as int];
                                assert(o[t as int + 1 + u] == o[t as int]);
                            }
                        }
                        assert(self@[o[t as int]] == old_table[o[t as int]]);
                    }
                    match self.services[j].pid {
                        Some(pid) => {
                            let ghost before = self.services@;
                            to_stop.push((name.clone(), pid));
                            proof {
                                assert(named_pids(to_stop@) =~= plan_before.push((name@, pid)));
                                assert(stop_entry(old_table, o[t as int]) =~= seq![(name@, pid)]);
                            }
                            self.services[j].pid = None;
                            self.services[j].state = ServiceState::Stopped;
                            proof {
                                lemma_table_update(before, j as int, self.services@[j as int]);
                                assert(self.services@ =~= before.update(j as int, self.services@[j as int]));
                            }
                        },
                        None => {
                            proof {
                                assert(stop_entry(old_table, o[t as int]) =~= Seq::<(Seq<char>, u32)>::empty());
                            }
                        },
                    }
                },
                None => {
                    proof {
                        assert(self@.contains_key(o[t as int]));
                    }
                },
            }
            proof {
                assert forall|k: Seq<char>| #[trigger] old_table.contains_key(k) && !o.skip(t as int).contains(k)
                    implies self@[k] == old_table[k] by {
                    assert(o.skip(t as int)[0] == o[t as int]);
                    assert forall|u: int| 0 <= u < o.skip(t as int + 1).len() implies o.skip(t as int)[u + 1] == #[trigger] o.skip(t as int + 1)[u] by {}
                    if o.skip(t as int + 1).contains(k) {
                        let u = choose|u: int| 0 <= u < o.skip(t as int + 1).len() && #[trigger] o.skip(t as int + 1)[u] == k;
                        assert(o.skip(t as int)[u + 1] == k);
                    }
                }
                assert forall|u: int| t <= u < o.len() implies if old_table[#[trigger] o[u]].pid is Some {
                    self@[o[u]] == stopped(old_table[o[u]])
                } else {
                    self@[o[u]] == old_table[o[u]]
                } by {
                    if u > t {
                        assert(o[u] != o[t as int]);
                    }
                }
            }
        }
        proof {
            assert forall|k: Seq<char>| #[trigger] old_table.contains_key(k) implies if o.contains(k)
                && old_table[k].pid is Some {
                self@[k] == stopped(old_table[k])
            } else {
                self@[k] == old_table[k]
            } by {
                assert(o.skip(0) =~= o);
                if o.contains(k) {
                    let u = choose|u: int| 0 <= u < o.len() && o[u] == k;
                }
            }
            assert(o.skip(0) =~= o);
        }
        to_stop
    }
}

/// Names with process ids, by their views.
pub open spec fn named_pids(v: Seq<(String, u32)>) -> Seq<(Seq<char>, u32)> {
    v.map_values(|e: (String, u32)| (e.0@, e.1))
}

/// The service `k` with its process id, if it has one.
pub open spec fn stop_entry(m: Map<Seq<char>, ManagedService>, k: Seq<char>) -> Seq<(Seq<char>, u32)> {
    match m[k].pid {
        Some(p) => seq![(k, p)],
        None => Seq::empty(),
    }
}

/// The services of `o` that have a process, with their pids, in the
/// reverse of `o`.
pub open spec fn stop_plan(m: Map<Seq<char>, ManagedService>, o: Seq<Seq<char>>) -> Seq<(Seq<char>, u32)>
    decreases o.len(),
{
    if o.len() == 0 {
        Seq::empty()
    } else {
        stop_plan(m, o.drop_first()) + stop_entry(m, o[0])
    }
}

proof fn lemma_drop_first_distinct(o: Seq<Seq<char>>)
    requires
        o.len() > 0,
        o.no_duplicates(),
    ensures
        o.drop_first().no_duplicates(),
{
    let rest = o.drop_first();
    assert forall|a: int, b: int| 0 <= a < rest.len() && 0 <= b < rest.len() && a != b implies rest[a] != rest[b] by {
        assert(rest[a] == o[a + 1]);
        assert(rest[b] == o[b + 1]);
    }
}

/// Each entry of the stop plan is a service of `o` with its pid.
pub proof fn lemma_stop_plan_entries(m: Map<Seq<char>, ManagedService>, o: Seq<Seq<char>>, i: int) -> (t: int)
    requires
        0 <= i < stop_plan(m, o).len(),
    ensures
        0 <= t < o.len(),
        o[t] == stop_plan(m, o)[i].0,
        m[o[t]].pid == Some(stop_plan(m, o)[i].1),
    decreases o.len(),
{
    let rest = o.drop_first();
    let p = stop_plan(m, rest);
    let q = stop_plan(m, o);
    assert(q == p + stop_entry(m, o[0]));
    if i < p.len() {
        assert(q[i] == p[i]);
        let u = lemma_stop_plan_entries(m, rest, i);
        assert(o[u + 1] == rest[u]);
        u + 1
    } else {
        assert(q[i] == stop_entry(m, o[0])[i - p.len()]);
        0
    }
}

/// The stop plan takes the services of `o` in reverse: of two entries, the
/// later one stands earlier in `o`.
pub proof fn lemma_stop_plan_reverses(m: Map<Seq<char>, ManagedService>, o: Seq<Seq<char>>, i: int, j: int, ti: int, tj: int)
    requires
        o.no_duplicates(),
        0 <= i < j < stop_plan(m, o).len(),
        0 <= ti < o.len(),
        0 <= tj < o.len(),
        o[ti] == stop_plan(m, o)[i].0,
        o[tj] == stop_plan(m, o)[j].0,
    ensures
        tj < ti,
    decreases o.len(),
{
    let rest = o.drop_first();
    let p = stop_plan(m, rest);
    let q = stop_plan(m, o);
    assert(q == p + stop_entry(m, o[0]));
    lemma_drop_first_distinct(o);
    assert(i < p.len());
    assert(q[i] == p[i]);
    let ui = lemma_stop_plan_entries(m, rest, i);
    assert(o[ui + 1] == o[ti]);
    assert(ti == ui + 1);
    if j < p.len() {
        assert(q[j] == p[j]);
        let uj = lemma_stop_plan_entries(m, rest, j);
        assert(o[uj + 1] == o[tj]);
        assert(tj == uj + 1);
        lemma_stop_plan_reverses(m, rest, i, j, ui, uj);
    } else {
        assert(q[j] == stop_entry(m, o[0])[j - p.len()]);
        assert(o[tj] == o[0]);
        assert(tj == 0);
    }
}

/// Every service of `o` that has a process is in the stop plan, with its pid.
pub proof fn lemma_stop_plan_complete(m: Map<Seq<char>, ManagedService>, o: Seq<Seq<char>>, t: int) -> (i: int)
    requires
        0 <= t < o.len(),
        m[o[t]].pid is Some,
    ensures
        0 <= i < stop_plan(m, o).len(),
        stop_plan(m, o)[i] == (o[t], m[o[t]].pid->0),
    decreases o.len(),
{
    let rest = o.drop_first();
    let p = stop_plan(m, rest);
    let q = stop_plan(m, o);
    assert(q == p + stop_entry(m, o[0]));
    if t == 0 {
        assert(q[p.len() as int] == stop_entry(m, o[0])[0]);
        p.len() as int
    } else {
        assert(rest[t - 1] == o[t]);
        let i = lemma_stop_plan_complete(m, rest, t - 1);
        assert(q[i] == p[i]);
        i
    }
}

/// Two definition lists that agree on names and dependencies.
pub open spec fn same_shape(a: Seq<ServiceDef>, b: Seq<ServiceDef>) -> bool {
    &&& a.len() == b.len()
    &&& forall|i: int| 0 <= i < a.len() ==> (#[trigger] a[i]).name@ == b[i].name@ && a[i].depends_on@
        == b[i].depends_on@
}

proof fn lemma_start_order_transfer(a: Seq<ServiceDef>, b: Seq<ServiceDef>, o: Seq<Seq<char>>)
    requires
        same_shape(a, b),
        is_start_order(a, o),
    ensures
        is_start_order(b, o),
{
    assert(names_of(a) =~= names_of(b));
    assert forall|i: int| 0 <= i < b.len() implies o.contains(#[trigger] b[i].name@) by {
        assert(o.contains(a[i].name@));
    }
    assert forall|t: int, i: int, k: int|
        0 <= t < o.len() && 0 <= i < b.len() && #[trigger] b[i].name@ == #[trigger] o[t]
            && 0 <= k < b[i].depends_on@.len()
        implies o.take(t).contains(#[trigger] b[i].depends_on@[k]@) by {
        assert(a[i].name@ == o[t]);
        assert(a[i].depends_on@[k] == b[i].depends_on@[k]);
        assert(o.take(t).contains(a[i].depends_on@[k]@));
    }
}

proof fn lemma_missing_transfer(a: Seq<ServiceDef>, b: Seq<ServiceDef>)
    requires
        same_shape(a, b),
    ensures
        forall|i: int, k: int| #![trigger is_missing(a, i, k)] #![trigger is_missing(b, i, k)] is_missing(a, i, k) == is_missing(b, i, k),
{
    assert(names_of(a) =~= names_of(b));
    assert forall|i: int, k: int| #![trigger is_missing(a, i, k)] #![trigger is_missing(b, i, k)] is_missing(a, i, k) == is_missing(b, i, k) by {
        if 0 <= i < a.len() {
            assert(a[i].depends_on@ == b[i].depends_on@);
        }
    }
}

/// Ordering facts depend on names and dependency lists only.
proof fn lemma_same_shape(a: Seq<ServiceDef>, b: Seq<ServiceDef>)
    requires
        same_shape(a, b),
    ensures
        names_of(a) == names_of(b),
        all_deps_known(a) == all_deps_known(b),
        has_start_order(a) == has_start_order(b),
        forall|o: Seq<Seq<char>>| is_start_order(a, o) ==> is_start_order(b, o),
        forall|e: DepError| resolves_as(a, Err(e), false) ==> resolves_as(b, Err(e), false),
{
    assert(names_of(a) =~= names_of(b));
    lemma_missing_transfer(a, b);
    assert forall|o: Seq<Seq<char>>| is_start_order(a, o) implies is_start_order(b, o) by {
        lemma_start_order_transfer(a, b, o);
    }
    if has_start_order(a) {
        let o = choose|o: Seq<Seq<char>>| is_start_order(a, o);
        lemma_start_order_transfer(a, b, o);
    }
    if has_start_order(b) {
        let o = choose|o: Seq<Seq<char>>| is_start_order(b, o);
        assert forall|i: int| 0 <= i < b.len() implies (#[trigger] b[i]).name@ == a[i].name@ && b[i].depends_on@
            == a[i].depends_on@ by {
            assert(a[i].name@ == b[i].name@);
        }
        lemma_start_order_transfer(b, a, o);
    }
    assert forall|e: DepError| resolves_as(a, Err(e), false) implies resolves_as(b, Err(e), false) by {
        match e {
            DepError::MissingDependency { service, dependency } => {
                let (i, k) = choose|i: int, k: int|
                    #[trigger] first_missing(a, i, k) && service@ == a[i].name@ && dependency@
                        == a[i].depends_on@[k]@;
                assert(is_missing(b, i, k));
                assert forall|i2: int, k2: int| #[trigger] is_missing(b, i2, k2) implies (i < i2 || (i == i2 && k <= k2)) by {
                    assert(is_missing(a, i2, k2));
                }
                assert(first_missing(b, i, k));
                assert(a[i].depends_on@ == b[i].depends_on@);
            },
            DepError::CycleDetected => {},
        }
    }
}

/// The index of the first managed service named `name` in `v`.
fn find_in(v: &Vec<ManagedService>, name: &String) -> (r: Option<usize>)
    requires
        distinct_services(v@),
    ensures
        match r {
            Some(j) => j < v@.len() && v@[j as int].def.name@ == name@,
            None => !service_table(v@).contains_key(name@),
        },
{
    let mut j: usize = 0;
    while j < v.len()
        invariant
            j <= v@.len(),
            forall|j2: int| 0 <= j2 < j ==> (#[trigger] v@[j2]).def.name@ != name@,
        decreases v@.len() - j,
    {
        if v[j].def.name == *name {
            return Some(j);
        }
        j = j + 1;
    }
    None
}

fn fresh_exec(d: ServiceDef) -> (m: ManagedService)
    ensures
        m == fresh(d),
{
    ManagedService {
        def: d,
        pid: None,
        state: ServiceState::Stopped,
        restart_count: 0,
        last_start: None,
        next_restart: None,
    }
}

} // verus!
