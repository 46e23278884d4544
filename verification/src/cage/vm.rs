//! VM lifecycle bookkeeping for cage.
//!
//! Each agent runs in its own microVM, in a child process.  The manager
//! builds the VM configuration from the agent's manifest, hands it to a
//! launcher supplied by the caller (which prepares the host directories,
//! checks the root filesystem and spawns the child), and tracks the
//! running VMs by agent name.
use vstd::prelude::*;
use crate::cage::krun::{VmConfig, VirtiofsMount, virtiofs_tag, mount_view, mounts_view, path_to_virtiofs_tag};
use crate::cage::manifest::{AgentManifest, FilesystemCaps};
use crate::nulld::signal::ExitReason;
use crate::text::{digits_value, lemma_decimal_spells, views, decimal, push_decimal};

verus! {

/// Returned when a VM child process exits.
#[derive(Debug)]
pub struct VmExit {
    pub agent_name: String,
    pub exit_status: i32,
}

/// State of a running agent VM.
#[derive(Debug)]
pub struct RunningVm {
    pub agent_name: String,
    pub pid: u32,
    pub vcpus: u8,
    pub ram_mib: u32,
}

/// Why a VM operation failed.
#[derive(Debug)]
pub enum VmError {
    AlreadyRunning(String),
    NotRunning(String),
    SpawnFailed(String),
    RootfsInvalid(String),
    Internal(String),
}

/// The text of a VM error.
pub open spec fn vm_error_message(e: VmError) -> Seq<char> {
    match e {
        VmError::AlreadyRunning(n) => "agent '"@ + n@ + "' is already running"@,
        VmError::NotRunning(n) => "agent '"@ + n@ + "' is not running"@,
        VmError::SpawnFailed(m) => "failed to spawn VM process: "@ + m@,
        VmError::RootfsInvalid(m) => "rootfs invalid: "@ + m@,
        VmError::Internal(m) => "internal error: "@ + m@,
    }
}

impl VmError {
    /// The human-readable description of the error.
    pub fn to_string(&self) -> (s: String)
        ensures
            s@ == vm_error_message(*self),
    {
        match self {
            VmError::AlreadyRunning(n) => {
                let mut s = String::from_str("agent '");
                s.append(n.as_str());
                s.append("' is already running");
                s
            },
            VmError::NotRunning(n) => {
                let mut s = String::from_str("agent '");
                s.append(n.as_str());
                s.append("' is not running");
                s
            },
            VmError::SpawnFailed(m) => {
                let mut s = String::from_str("failed to spawn VM process: ");
                s.append(m.as_str());
                s
            },
            VmError::RootfsInvalid(m) => {
                let mut s = String::from_str("rootfs invalid: ");
                s.append(m.as_str());
                s
            },
            VmError::Internal(m) => {
                let mut s = String::from_str("internal error: ");
                s.append(m.as_str());
                s
            },
        }
    }
}

// ---------------------------------------------------------------------------
// VM configuration from a manifest
// ---------------------------------------------------------------------------

/// vCPUs for a CPU share: 25% per vCPU, rounded up, between 1 and 8
/// (a share above 100% counts as 100%).
pub open spec fn vcpus_for(cpu_percent: u32) -> u8 {
    let c: int = if cpu_percent < 100 { cpu_percent as int } else { 100 };
    let v: int = (c + 24) / 25;
    (if v < 1 { 1 } else if v > 8 { 8 } else { v }) as u8
}

/// Guest RAM in MiB: the declared memory, at least 64.
pub open spec fn ram_for(max_memory_mb: u32) -> u32 {
    if max_memory_mb > 64 { max_memory_mb } else { 64 }
}

/// An agent's resource limits are two: its address space, as
/// `RLIMIT_AS=<t>:<t>` where the decimal text `t` spells the declared memory
/// in bytes (MiB times 1048576), and `RLIMIT_NPROC=64:64`.
pub proof fn lemma_agent_rlimits(max_memory_mb: u32) -> (t: Seq<char>)
    ensures
        rlimits_for(max_memory_mb).len() == 2,
        rlimits_for(max_memory_mb)[0] == "RLIMIT_AS="@ + t + ":"@ + t,
        rlimits_for(max_memory_mb)[1] == "RLIMIT_NPROC=64:64"@,
        forall|i: int| 0 <= i < t.len() ==> '0' <= #[trigger] t[i] <= '9',
        digits_value(t) == max_memory_mb * 1048576,
{
    let t = decimal((max_memory_mb as nat) * 1024 * 1024);
    lemma_decimal_spells((max_memory_mb as nat) * 1024 * 1024);
    t
}

/// How a VM is sized: its RAM is the declared memory, raised to 64 MiB
/// when less is declared; its vCPUs are one per started 25% of CPU share
/// (shares above 100% count as 100%), at least one.
pub proof fn lemma_vm_sizing(cpu_percent: u32, max_memory_mb: u32)
    ensures
        ram_for(max_memory_mb) >= max_memory_mb,
        ram_for(max_memory_mb) >= 64,
        ram_for(max_memory_mb) == max_memory_mb || ram_for(max_memory_mb) == 64,
        1 <= vcpus_for(cpu_percent) <= 4,
        1 <= cpu_percent <= 100 ==> 25 * (vcpus_for(cpu_percent) - 1) < cpu_percent <= 25 * vcpus_for(cpu_percent),
        cpu_percent >= 100 ==> vcpus_for(cpu_percent) == 4,
        cpu_percent == 0 ==> vcpus_for(cpu_percent) == 1,
{
}

/// The resource limits for an agent with `max_memory_mb` of memory: its
/// address space in bytes, and 64 processes.
pub open spec fn rlimits_for(max_memory_mb: u32) -> Seq<Seq<char>> {
    let bytes = decimal((max_memory_mb as nat) * 1024 * 1024);
    seq!["RLIMIT_AS="@ + bytes + ":"@ + bytes, "RLIMIT_NPROC=64:64"@]
}

/// The host directory backing guest path `p` of `agent`.
pub open spec fn host_path_for(agent: Seq<char>, p: Seq<char>) -> Seq<char> {
    "/var/lib/cage/"@ + agent + p
}

/// The virtiofs mounts for an agent: read paths tagged `_ro`, then write
/// paths tagged `_rw`.
pub open spec fn virtiofs_for(agent: Seq<char>, fs: FilesystemCaps) -> Seq<(Seq<char>, Seq<char>)> {
    views(fs.read@).map_values(|p: Seq<char>| (virtiofs_tag(p) + "_ro"@, host_path_for(agent, p)))
        + views(fs.write@).map_values(|p: Seq<char>| (virtiofs_tag(p) + "_rw"@, host_path_for(agent, p)))
}

/// The environment of an agent VM: its name, the ctxgraph port, then one
/// `KEY=value` per secret.
pub open spec fn env_for(name: Seq<char>, secrets: Seq<(String, String)>) -> Seq<Seq<char>> {
    seq!["AGENT_NAME="@ + name, "CTXGRAPH_PORT=9100"@] + secrets.map_values(
        |kv: (String, String)| kv.0@ + "="@ + kv.1@,
    )
}

/// An agent's environment holds, in order, `AGENT_NAME=<name>`,
/// `CTXGRAPH_PORT=9100`, and then `KEY=value` for each secret, nothing else.
pub proof fn lemma_agent_environment(name: Seq<char>, secrets: Seq<(String, String)>)
    ensures
        env_for(name, secrets).len() == 2 + secrets.len(),
        env_for(name, secrets)[0] == "AGENT_NAME="@ + name,
        env_for(name, secrets)[1] == "CTXGRAPH_PORT=9100"@,
        forall|i: int| 0 <= i < secrets.len() ==> #[trigger] env_for(name, secrets)[2 + i] == secrets[i].0@ + "="@
            + secrets[i].1@,
{
}

/// An agent gets one mount per declared path, read paths first: each path
/// `p` is served from `/var/lib/cage/<agent><p>`, under the tag made from
/// `p` with `_ro` appended for a read path and `_rw` for a write path.
pub proof fn lemma_agent_mounts(agent: Seq<char>, fs: FilesystemCaps)
    ensures
        virtiofs_for(agent, fs).len() == fs.read@.len() + fs.write@.len(),
        forall|i: int| 0 <= i < fs.read@.len() ==> #[trigger] virtiofs_for(agent, fs)[i] == (
            virtiofs_tag(fs.read@[i]@) + "_ro"@,
            "/var/lib/cage/"@ + agent + fs.read@[i]@,
        ),
        forall|i: int| 0 <= i < fs.write@.len() ==> #[trigger] virtiofs_for(agent, fs)[fs.read@.len() + i] == (
            virtiofs_tag(fs.write@[i]@) + "_rw"@,
            "/var/lib/cage/"@ + agent + fs.write@[i]@,
        ),
{
    let r = views(fs.read@).map_values(|p: Seq<char>| (virtiofs_tag(p) + "_ro"@, host_path_for(agent, p)));
    let w = views(fs.write@).map_values(|p: Seq<char>| (virtiofs_tag(p) + "_rw"@, host_path_for(agent, p)));
    assert forall|i: int| 0 <= i < fs.write@.len() implies #[trigger] virtiofs_for(agent, fs)[fs.read@.len() + i] == (
        virtiofs_tag(fs.write@[i]@) + "_rw"@,
        "/var/lib/cage/"@ + agent + fs.write@[i]@,
    ) by {
        assert((r + w)[r.len() + i] == w[i]);
    }
}

/// `c` is the VM configuration for the agent of `m`.
pub open spec fn is_vm_config_for(
    c: VmConfig,
    rootfs_base: Seq<char>,
    m: AgentManifest,
    exec_path: Seq<char>,
    secrets: Seq<(String, String)>,
) -> bool {
    let name = m.agent.name@;
    &&& c.name@ == name
    &&& c.vcpus == vcpus_for(m.capabilities.max_cpu_percent)
    &&& c.ram_mib == ram_for(m.capabilities.max_memory_mb)
    &&& c.root_path@ == rootfs_base + "/"@ + name
    &&& c.exec_path@ == exec_path
    &&& c.args@.len() == 0
    &&& views(c.env@) == env_for(name, secrets)
    &&& c.port_map@.len() == 0
    &&& c.workdir@ == "/"@
    &&& mounts_view(c.virtiofs_mounts@) == virtiofs_for(name, m.capabilities.filesystem)
    &&& views(c.rlimits@) == rlimits_for(m.capabilities.max_memory_mb)
    &&& c.console_output matches Some(log) && log@ == "/var/log/cage/"@ + name + ".log"@
}

fn mounts_for_paths(agent_name: &str, paths: &Vec<String>, suffix: &str, out: &mut Vec<VirtiofsMount>)
    ensures
        mounts_view(final(out)@) == mounts_view(old(out)@) + views(paths@).map_values(
            |p: Seq<char>| (virtiofs_tag(p) + suffix@, host_path_for(agent_name@, p)),
        ),
{
    let ghost start = mounts_view(out@);
    let ghost f = |p: Seq<char>| (virtiofs_tag(p) + suffix@, host_path_for(agent_name@, p));
    let mut i: usize = 0;
    while i < paths.len()
        invariant
            i <= paths@.len(),
            start == mounts_view(old(out)@),
            f == |p: Seq<char>| (virtiofs_tag(p) + suffix@, host_path_for(agent_name@, p)),
            mounts_view(out@) == start + views(paths@).take(i as int).map_values(f),
        decreases paths@.len() - i,
    {
        let mut tag = path_to_virtiofs_tag(paths[i].as_str());
        tag.append(suffix);
        let mut host_path = String::from_str("/var/lib/cage/");
        host_path.append(agent_name);
        host_path.append(paths[i].as_str());
        let ghost before = out@;
        let m = VirtiofsMount { tag, host_path };
        proof {
            assert(mount_view(m) == f(paths@[i as int]@));
        }
        out.push(m);
        proof {
            assert(mounts_view(out@) =~= mounts_view(before).push(mount_view(m)));
            assert(views(paths@).take(i + 1) =~= views(paths@).take(i as int).push(paths@[i as int]@));
            assert(mounts_view(out@) =~= start + views(paths@).take(i + 1).map_values(f));
        }
        i = i + 1;
    }
    proof {
        assert(views(paths@).take(paths@.len() as int) =~= views(paths@));
    }
}

/// The virtiofs mounts for an agent's declared filesystem paths.  Each
/// declared path gets a host directory under `/var/lib/cage/<agent>/` and
/// a tag derived from the path, `_ro` for read paths and `_rw` for write
/// paths.
pub fn build_virtiofs_mounts(agent_name: &str, fs: &FilesystemCaps) -> (mounts: Vec<VirtiofsMount>)
    ensures
        mounts_view(mounts@) == virtiofs_for(agent_name@, *fs),
{
    let mut mounts: Vec<VirtiofsMount> = Vec::new();
    mounts_for_paths(agent_name, &fs.read, "_ro", &mut mounts);
    mounts_for_paths(agent_name, &fs.write, "_rw", &mut mounts);
    proof {
        assert(mounts_view(Seq::<VirtiofsMount>::empty()) =~= Seq::empty());
        assert(mounts_view(mounts@) =~= virtiofs_for(agent_name@, *fs));
    }
    mounts
}

/// The resource limits for a manifest: `RLIMIT_AS` set to the declared
/// memory in bytes (soft and hard), and `RLIMIT_NPROC=64:64`.
pub fn build_rlimits(manifest: &AgentManifest) -> (rlimits: Vec<String>)
    ensures
        views(rlimits@) == rlimits_for(manifest.capabilities.max_memory_mb),
{
    let mem_bytes: u64 = (manifest.capabilities.max_memory_mb as u64) * 1024 * 1024;
    let mut limit = String::from_str("RLIMIT_AS=");
    push_decimal(&mut limit, mem_bytes);
    limit.append(":");
    push_decimal(&mut limit, mem_bytes);
    let mut rlimits: Vec<String> = Vec::new();
    rlimits.push(limit);
    rlimits.push(String::from_str("RLIMIT_NPROC=64:64"));
    proof {
        assert(views(rlimits@) =~= rlimits_for(manifest.capabilities.max_memory_mb));
    }
    rlimits
}

fn build_env(name: &str, secrets: &Vec<(String, String)>) -> (env: Vec<String>)
    ensures
        views(env@) == env_for(name@, secrets@),
{
    let mut env: Vec<String> = Vec::new();
    let mut first = String::from_str("AGENT_NAME=");
    first.append(name);
    env.push(first);
    env.push(String::from_str("CTXGRAPH_PORT=9100"));
    let ghost f = |kv: (String, String)| kv.0@ + "="@ + kv.1@;
    let mut i: usize = 0;
    while i < secrets.len()
        invariant
            i <= secrets@.len(),
            f == |kv: (String, String)| kv.0@ + "="@ + kv.1@,
            views(env@) == seq!["AGENT_NAME="@ + name@, "CTXGRAPH_PORT=9100"@] + secrets@.take(i as int).map_values(f),
        decreases secrets@.len() - i,
    {
        let mut entry = secrets[i].0.clone();
        entry.append("=");
        entry.append(secrets[i].1.as_str());
        let ghost before = env@;
        proof {
            assert(entry@ == f(secrets@[i as int]));
        }
        env.push(entry);
        proof {
            assert(views(env@) =~= views(before).push(entry@));
            assert(secrets@.take(i + 1) =~= secrets@.take(i as int).push(secrets@[i as int]));
            assert(views(env@) =~= seq!["AGENT_NAME="@ + name@, "CTXGRAPH_PORT=9100"@] + secrets@.take(i + 1).map_values(f));
        }
        i = i + 1;
    }
    proof {
        assert(secrets@.take(secrets@.len() as int) =~= secrets@);
        assert(views(env@) =~= env_for(name@, secrets@));
    }
    env
}

/// Whether a VM exit status means the agent crashed and should be
/// restarted: non-zero is a crash, zero a clean exit.
pub fn should_restart(exit_status: i32) -> (r: bool)
    ensures
        r == (exit_status != 0),
{
    exit_status != 0
}

/// Whether an agent whose VM ended should be restarted: after an exit with
/// a non-zero status, yes; after a kill by a signal, never (the signal was
/// sent on purpose, by the operator or by shutdown).
pub fn restart_after(reason: ExitReason) -> (r: bool)
    ensures
        r == (reason matches ExitReason::Exited(status) && status != 0),
{
    match reason {
        ExitReason::Exited(status) => should_restart(status),
        ExitReason::Signaled(_) => false,
    }
}

// ---------------------------------------------------------------------------
// The manager
// ---------------------------------------------------------------------------

/// Running VMs by agent name.
pub open spec fn vm_table(v: Seq<RunningVm>) -> Map<Seq<char>, RunningVm> {
    Map::new(
        |k: Seq<char>| exists|j: int| 0 <= j < v.len() && (#[trigger] v[j]).agent_name@ == k,
        |k: Seq<char>| v[choose|j: int| 0 <= j < v.len() && (#[trigger] v[j]).agent_name@ == k],
    )
}

/// No two running VMs share an agent name.
pub open spec fn distinct_vms(v: Seq<RunningVm>) -> bool {
    forall|a: int, b: int| 0 <= a < v.len() && 0 <= b < v.len() && a != b ==> (#[trigger] v[a]).agent_name@
        != (#[trigger] v[b]).agent_name@
}

proof fn lemma_vm_lookup(v: Seq<RunningVm>, j: int)
    requires
        distinct_vms(v),
        0 <= j < v.len(),
    ensures
        vm_table(v).contains_key(v[j].agent_name@),
        vm_table(v)[v[j].agent_name@] == v[j],
{
    let k = v[j].agent_name@;
    assert(v[j].agent_name@ == k);
    let c = choose|c: int| 0 <= c < v.len() && (#[trigger] v[c]).agent_name@ == k;
    if c != j {
        assert(v[c].agent_name@ != v[j].agent_name@);
    }
}

proof fn lemma_vm_push(v: Seq<RunningVm>, x: RunningVm)
    requires
        distinct_vms(v),
        !vm_table(v).contains_key(x.agent_name@),
    ensures
        distinct_vms(v.push(x)),
        vm_table(v.push(x)) == vm_table(v).insert(x.agent_name@, x),
{
    let v2 = v.push(x);
    assert forall|a: int, b: int| 0 <= a < v2.len() && 0 <= b < v2.len() && a != b implies (#[trigger] v2[a]).agent_name@
        != (#[trigger] v2[b]).agent_name@ by {
        if a < v.len() && b < v.len() {
            assert(v[a].agent_name@ != v[b].agent_name@);
        } else if a < v.len() {
            assert(v[a].agent_name@ == v2[a].agent_name@);
        } else if b < v.len() {
            assert(v[b].agent_name@ == v2[b].agent_name@);
        }
    }
    assert forall|k: Seq<char>| #![auto] vm_table(v2).contains_key(k) <==> vm_table(v).insert(x.agent_name@, x).contains_key(k) by {
        if vm_table(v2).contains_key(k) {
            let c = choose|c: int| 0 <= c < v2.len() && (#[trigger] v2[c]).agent_name@ == k;
            if c < v.len() {
                assert(v[c].agent_name@ == k);
            }
        }
        if vm_table(v).contains_key(k) {
            let c = choose|c: int| 0 <= c < v.len() && (#[trigger] v[c]).agent_name@ == k;
            assert(v2[c].agent_name@ == k);
        }
        if k == x.agent_name@ {
            assert(v2[v.len() as int].agent_name@ == k);
        }
    }
    assert forall|k: Seq<char>| #![auto] vm_table(v2).contains_key(k) implies vm_table(v2)[k] == vm_table(v).insert(x.agent_name@, x)[k] by {
        let c = choose|c: int| 0 <= c < v2.len() && (#[trigger] v2[c]).agent_name@ == k;
        lemma_vm_lookup(v2, c);
        if c < v.len() {
            lemma_vm_lookup(v, c);
        }
    }
    assert(vm_table(v2) =~= vm_table(v).insert(x.agent_name@, x));
}

proof fn lemma_vm_remove(v: Seq<RunningVm>, j: int)
    requires
        distinct_vms(v),
        0 <= j < v.len(),
    ensures
        distinct_vms(v.remove(j)),
        vm_table(v.remove(j)) == vm_table(v).remove(v[j].agent_name@),
{
    let v2 = v.remove(j);
    let name = v[j].agent_name@;
    assert forall|a: int| 0 <= a < v2.len() implies #[trigger] v2[a] == v[if a < j { a } else { a + 1 }] by {}
    assert forall|a: int, b: int| 0 <= a < v2.len() && 0 <= b < v2.len() && a != b implies (#[trigger] v2[a]).agent_name@
        != (#[trigger] v2[b]).agent_name@ by {
        let qa = if a < j { a } else { a + 1 };
        let qb = if b < j { b } else { b + 1 };
        assert(v[qa].agent_name@ != v[qb].agent_name@);
    }
    assert forall|k: Seq<char>| #![auto] vm_table(v2).contains_key(k) <==> vm_table(v).remove(name).contains_key(k) by {
        if vm_table(v2).contains_key(k) {
            let c = choose|c: int| 0 <= c < v2.len() && (#[trigger] v2[c]).agent_name@ == k;
            let qc = if c < j { c } else { c + 1 };
            assert(v[qc].agent_name@ == k);
            assert(v[qc].agent_name@ != v[j].agent_name@);
        }
        if vm_table(v).contains_key(k) && k != name {
            let c = choose|c: int| 0 <= c < v.len() && (#[trigger] v[c]).agent_name@ == k;
            assert(c != j);
            let c2 = if c < j { c } else { c - 1 };
            assert(v2[c2].agent_name@ == k);
        }
    }
    assert forall|k: Seq<char>| #![auto] vm_table(v2).contains_key(k) implies vm_table(v2)[k] == vm_table(v).remove(name)[k] by {
        let c = choose|c: int| 0 <= c < v2.len() && (#[trigger] v2[c]).agent_name@ == k;
        let qc = if c < j { c } else { c + 1 };
        lemma_vm_lookup(v2, c);
        lemma_vm_lookup(v, qc);
    }
    assert(vm_table(v2) =~= vm_table(v).remove(name));
}

/// Manages all running agent VMs.
pub struct VmManager {
    vms: Vec<RunningVm>,
    agent_rootfs_base: String,
}

impl View for VmManager {
    type V = Map<Seq<char>, RunningVm>;

    closed spec fn view(&self) -> Map<Seq<char>, RunningVm> {
        vm_table(self.vms@)
    }
}

impl VmManager {
    /// No two tracked VMs share an agent name.
    pub closed spec fn wf(&self) -> bool {
        distinct_vms(self.vms@)
    }

    /// The directory under which each agent's root filesystem lives.
    pub closed spec fn rootfs_base(&self) -> Seq<char> {
        self.agent_rootfs_base@
    }

    /// A manager with no running VMs.
    pub fn new(agent_rootfs_base: &str) -> (m: Self)
        ensures
            m.wf(),
            m@ == Map::<Seq<char>, RunningVm>::empty(),
            m.rootfs_base() == agent_rootfs_base@,
    {
        let m = VmManager { vms: Vec::new(), agent_rootfs_base: String::from_str(agent_rootfs_base) };
        proof {
            assert(m@ =~= Map::<Seq<char>, RunningVm>::empty());
        }
        m
    }

    fn find_name(&self, name: &str) -> (r: Option<usize>)
        requires
            self.wf(),
        ensures
            match r {
                Some(j) => j < self.vms@.len() && self.vms@[j as int].agent_name@ == name@,
                None => !self@.contains_key(name@),
            },
    {
        let mut j: usize = 0;
        while j < self.vms.len()
            invariant
                j <= self.vms@.len(),
                forall|j2: int| 0 <= j2 < j ==> (#[trigger] self.vms@[j2]).agent_name@ != name@,
            decreases self.vms@.len() - j,
        {
            if crate::text::str_eq(self.vms[j].agent_name.as_str(), name) {
                return Some(j);
            }
            j = j + 1;
        }
        None
    }

    /// The first step of starting an agent in a new microVM: the VM
    /// configuration to launch.
    ///
    /// Fails with `AlreadyRunning` when a VM of that agent is tracked, and
    /// then gives no configuration, so nothing is launched.  Otherwise builds
    /// the configuration from the manifest (vCPUs from the CPU share, RAM of
    /// at least 64 MiB, root filesystem under the manager's base, the
    /// environment with the secrets, virtiofs mounts, resource limits, and
    /// console output to `/var/log/cage/<agent>.log`).  The caller launches
    /// it and hands the process id to `agent_started`.
    pub fn start_agent(&self, manifest: &AgentManifest, exec_path: &str, secrets: &Vec<(String, String)>) -> (r: Result<
        VmConfig,
        VmError,
    >)
        requires
            self.wf(),
        ensures
            self@.contains_key(manifest.agent.name@) ==> (r matches Err(VmError::AlreadyRunning(n)) && n@
                == manifest.agent.name@),
            !self@.contains_key(manifest.agent.name@) ==> (r matches Ok(c) && is_vm_config_for(
                c,
                self.rootfs_base(),
                *manifest,
                exec_path@,
                secrets@,
            )),
            r matches Ok(c) ==> {
                &&& c.ram_mib >= manifest.capabilities.max_memory_mb
                &&& c.ram_mib >= 64
                &&& (c.ram_mib == manifest.capabilities.max_memory_mb || c.ram_mib == 64)
                &&& 1 <= c.vcpus <= 4
                &&& 1 <= manifest.capabilities.max_cpu_percent <= 100 ==> 25 * (c.vcpus - 1)
                    < manifest.capabilities.max_cpu_percent <= 25 * c.vcpus
                &&& manifest.capabilities.max_cpu_percent >= 100 ==> c.vcpus == 4
                &&& c.name@ == manifest.agent.name@
                &&& c.root_path@ == self.rootfs_base() + "/"@ + manifest.agent.name@
                &&& c.exec_path@ == exec_path@
                &&& c.workdir@ == "/"@
                &&& c.console_output matches Some(log) && log@ == "/var/log/cage/"@ + manifest.agent.name@ + ".log"@
                &&& c.env@.len() == 2 + secrets@.len()
                &&& c.env@[0]@ == "AGENT_NAME="@ + manifest.agent.name@
                &&& c.env@[1]@ == "CTXGRAPH_PORT=9100"@
                &&& forall|i: int| 0 <= i < secrets@.len() ==> (#[trigger] c.env@[2 + i])@ == secrets@[i].0@ + "="@
                    + secrets@[i].1@
                &&& c.virtiofs_mounts@.len() == manifest.capabilities.filesystem.read@.len()
                    + manifest.capabilities.filesystem.write@.len()
                &&& forall|i: int| 0 <= i < manifest.capabilities.filesystem.read@.len() ==> (
                    #[trigger] c.virtiofs_mounts@[i]).host_path@ == "/var/lib/cage/"@ + manifest.agent.name@
                    + manifest.capabilities.filesystem.read@[i]@ && c.virtiofs_mounts@[i].tag@ == virtiofs_tag(
                    manifest.capabilities.filesystem.read@[i]@,
                ) + "_ro"@
                &&& forall|i: int| 0 <= i < manifest.capabilities.filesystem.write@.len() ==> (
                    #[trigger] c.virtiofs_mounts@[manifest.capabilities.filesystem.read@.len() + i]).host_path@
                    == "/var/lib/cage/"@ + manifest.agent.name@ + manifest.capabilities.filesystem.write@[i]@
                    && c.virtiofs_mounts@[manifest.capabilities.filesystem.read@.len() + i].tag@ == virtiofs_tag(
                    manifest.capabilities.filesystem.write@[i]@,
                ) + "_rw"@
            },
    {
        proof {
            lemma_vm_sizing(manifest.capabilities.max_cpu_percent, manifest.capabilities.max_memory_mb);
            lemma_agent_environment(manifest.agent.name@, secrets@);
            lemma_agent_mounts(manifest.agent.name@, manifest.capabilities.filesystem);
        }
        let name = &manifest.agent.name;
        if let Some(_) = self.find_name(name.as_str()) {
            return Err(VmError::AlreadyRunning(name.clone()));
        }
        let caps = &manifest.capabilities;
        let cpu: u32 = if caps.max_cpu_percent < 100 { caps.max_cpu_percent } else { 100 };
        let per: u32 = (cpu + 24) / 25;
        let vcpus: u8 = if per < 1 { 1 } else if per > 8 { 8 } else { per as u8 };
        let ram_mib: u32 = if caps.max_memory_mb > 64 { caps.max_memory_mb } else { 64 };
        let mut console_log = String::from_str("/var/log/cage/");
        console_log.append(name.as_str());
        console_log.append(".log");
        let mut root_path = self.agent_rootfs_base.clone();
        root_path.append("/");
        root_path.append(name.as_str());
        let config = VmConfig {
            name: name.clone(),
            vcpus,
            ram_mib,
            root_path,
            exec_path: String::from_str(exec_path),
            args: Vec::new(),
            env: build_env(name.as_str(), secrets),
            port_map: Vec::new(),
            workdir: String::from_str("/"),
            virtiofs_mounts: build_virtiofs_mounts(name.as_str(), &caps.filesystem),
            rlimits: build_rlimits(manifest),
            console_output: Some(console_log),
        };
        proof {
            assert(is_vm_config_for(config, self.rootfs_base(), *manifest, exec_path@, secrets@));
            let ev = views(config.env@);
            assert(ev[0] == config.env@[0]@);
            assert(ev[1] == config.env@[1]@);
            assert forall|i: int| 0 <= i < secrets@.len() implies (#[trigger] config.env@[2 + i])@ == secrets@[i].0@
                + "="@ + secrets@[i].1@ by {
                assert(ev[2 + i] == config.env@[2 + i]@);
            }
            let mv = mounts_view(config.virtiofs_mounts@);
            assert(mv.len() == config.virtiofs_mounts@.len());
            assert forall|i: int| 0 <= i < config.virtiofs_mounts@.len() implies #[trigger] mv[i] == (
                config.virtiofs_mounts@[i].tag@,
                config.virtiofs_mounts@[i].host_path@,
            ) by {}
            let fs = manifest.capabilities.filesystem;
            let vf = virtiofs_for(name@, fs);
            assert(mv == vf);
            assert forall|i: int| 0 <= i < fs.read@.len() implies (#[trigger] config.virtiofs_mounts@[i]).host_path@
                == "/var/lib/cage/"@ + name@ + fs.read@[i]@ && config.virtiofs_mounts@[i].tag@ == virtiofs_tag(
                fs.read@[i]@,
            ) + "_ro"@ by {
                assert(vf[i] == mv[i]);
            }
            assert forall|i: int| 0 <= i < fs.write@.len() implies (#[trigger] config.virtiofs_mounts@[fs.read@.len()
                + i]).host_path@ == "/var/lib/cage/"@ + name@ + fs.write@[i]@ && config.virtiofs_mounts@[fs.read@.len()
                + i].tag@ == virtiofs_tag(fs.write@[i]@) + "_rw"@ by {
                assert(vf[fs.read@.len() + i] == mv[fs.read@.len() + i]);
            }
        }
        Ok(config)
    }

    /// The second step of starting an agent: the VM launched from `config`
    /// runs as process `pid`, and is tracked under the agent's name from now
    /// on.  Refuses, changing nothing, when a VM of that agent is already
    /// tracked.
    pub fn agent_started(&mut self, config: &VmConfig, pid: u32) -> (r: Result<(), VmError>)
        requires
            old(self).wf(),
        ensures
            final(self).wf(),
            final(self).rootfs_base() == old(self).rootfs_base(),
            old(self)@.contains_key(config.name@) ==> (r matches Err(VmError::AlreadyRunning(n)) && n@
                == config.name@ && final(self)@ == old(self)@),
            !old(self)@.contains_key(config.name@) ==> (r is Ok && final(self)@ == old(self)@.insert(
                config.name@,
                RunningVm { agent_name: config.name, pid, vcpus: config.vcpus, ram_mib: config.ram_mib },
            )),
    {
        if let Some(_) = self.find_name(config.name.as_str()) {
            return Err(VmError::AlreadyRunning(config.name.clone()));
        }
        let ghost before = self.vms@;
        let vm = RunningVm { agent_name: config.name.clone(), pid, vcpus: config.vcpus, ram_mib: config.ram_mib };
        self.vms.push(vm);
        proof {
            lemma_vm_push(before, vm);
        }
        Ok(())
    }

    /// Stop an agent's VM: it is no longer tracked, and the process id to
    /// terminate is returned.  Fails with `NotRunning` when no VM of that
    /// agent is tracked.
    pub fn stop_agent(&mut self, name: &str) -> (r: Result<u32, VmError>)
        requires
            old(self).wf(),
        ensures
            final(self).wf(),
            final(self).rootfs_base() == old(self).rootfs_base(),
            match r {
                Ok(pid) => old(self)@.contains_key(name@) && pid == old(self)@[name@].pid
                    && final(self)@ == old(self)@.remove(name@),
                Err(VmError::NotRunning(n)) => !old(self)@.contains_key(name@) && n@ == name@ && final(self)@
                    == old(self)@,
                Err(_) => false,
            },
    {
        match self.find_name(name) {
            Some(j) => {
                let ghost before = self.vms@;
                proof {
                    lemma_vm_lookup(before, j as int);
                    lemma_vm_remove(before, j as int);
                }
                let vm = self.vms.remove(j);
                Ok(vm.pid)
            },
            None => Err(VmError::NotRunning(String::from_str(name))),
        }
    }

    /// Handle a child process exit: the VM with that pid is no longer
    /// tracked, and its agent name is returned with the exit status.
    /// Returns `None` when no tracked VM has that pid.
    pub fn handle_exit(&mut self, pid: u32, exit_status: i32) -> (r: Option<VmExit>)
        requires
            old(self).wf(),
        ensures
            final(self).wf(),
            final(self).rootfs_base() == old(self).rootfs_base(),
            match r {
                Some(ex) => {
                    &&& old(self)@.contains_key(ex.agent_name@)
                    &&& old(self)@[ex.agent_name@].pid == pid
                    &&& ex.exit_status == exit_status
                    &&& final(self)@ == old(self)@.remove(ex.agent_name@)
                },
                None => {
                    &&& forall|k: Seq<char>| #[trigger] old(self)@.contains_key(k) ==> old(self)@[k].pid != pid
                    &&& final(self)@ == old(self)@
                },
            },
    {
        let mut j: usize = 0;
        while j < self.vms.len()
            invariant
                self.wf(),
                self.vms@ == old(self).vms@,
                self.agent_rootfs_base == old(self).agent_rootfs_base,
                j <= self.vms@.len(),
                forall|j2: int| 0 <= j2 < j ==> (#[trigger] self.vms@[j2]).pid != pid,
            decreases self.vms@.len() - j,
        {
            if self.vms[j].pid == pid {
                let ghost before = self.vms@;
                proof {
                    lemma_vm_lookup(before, j as int);
                    lemma_vm_remove(before, j as int);
                }
                let vm = self.vms.remove(j);
                return Some(VmExit { agent_name: vm.agent_name, exit_status });
            }
            j = j + 1;
        }
        proof {
            assert forall|k: Seq<char>| #[trigger] self@.contains_key(k) implies self@[k].pid != pid by {
                let c = choose|c: int| 0 <= c < self.vms@.len() && (#[trigger] self.vms@[c]).agent_name@ == k;
                lemma_vm_lookup(self.vms@, c);
            }
        }
        None
    }

    /// All running VMs, each once.
    pub fn list(&self) -> (r: Vec<&RunningVm>)
        requires
            self.wf(),
        ensures
            forall|i: int| 0 <= i < r@.len() ==> self@.contains_key((#[trigger] r@[i]).agent_name@)
                && self@[r@[i].agent_name@] == *r@[i],
            forall|k: Seq<char>| #[trigger] self@.contains_key(k) ==> exists|i: int|
                0 <= i < r@.len() && r@[i].agent_name@ == k,
            forall|a: int, b: int| 0 <= a < r@.len() && 0 <= b < r@.len() && a != b ==> (#[trigger] r@[a]).agent_name@
                != (#[trigger] r@[b]).agent_name@,
    {
        let mut r: Vec<&RunningVm> = Vec::new();
        let mut i: usize = 0;
        while i < self.vms.len()
            invariant
                i <= self.vms@.len(),
                r@.len() == i,
                forall|j: int| 0 <= j < i ==> *(#[trigger] r@[j]) == self.vms@[j],
            decreases self.vms@.len() - i,
        {
            r.push(&self.vms[i]);
            i = i + 1;
        }
        proof {
            assert forall|i: int| 0 <= i < r@.len() implies self@.contains_key((#[trigger] r@[i]).agent_name@)
                && self@[r@[i].agent_name@] == *r@[i] by {
                lemma_vm_lookup(self.vms@, i);
            }
            assert forall|k: Seq<char>| #[trigger] self@.contains_key(k) implies exists|i: int|
                0 <= i < r@.len() && r@[i].agent_name@ == k by {
                let c = choose|c: int| 0 <= c < self.vms@.len() && (#[trigger] self.vms@[c]).agent_name@ == k;
                assert(r@[c].agent_name@ == k);
            }
        }
        r
    }

    /// Whether a VM of this agent is running.
    pub fn is_running(&self, name: &str) -> (r: bool)
        requires
            self.wf(),
        ensures
            r == self@.contains_key(name@),
    {
        self.find_name(name).is_some()
    }
}

} // verus!
