//! MicroVM configuration handed to libkrun, the order in which a VM context
//! is configured, the errors of each step, and virtiofs tag naming.
//!
//! The calls themselves go through libkrun's C interface at the program's
//! edge; this module decides which calls are made, in what order, and what
//! a failure of each one means.
use vstd::prelude::*;
use crate::text::{push_signed_decimal, signed_decimal};

verus! {

/// A host directory shared into the guest via virtio-fs.
#[derive(Debug)]
pub struct VirtiofsMount {
    pub tag: String,
    pub host_path: String,
}

/// Configuration for a single agent microVM.
#[derive(Debug)]
pub struct VmConfig {
    pub name: String,
    pub vcpus: u8,
    pub ram_mib: u32,
    pub root_path: String,
    pub exec_path: String,
    pub args: Vec<String>,
    pub env: Vec<String>,
    pub port_map: Vec<String>,
    pub workdir: String,
    pub virtiofs_mounts: Vec<VirtiofsMount>,
    pub rlimits: Vec<String>,
    pub console_output: Option<String>,
}

/// A mount as (tag, host path).
pub open spec fn mount_view(m: VirtiofsMount) -> (Seq<char>, Seq<char>) {
    (m.tag@, m.host_path@)
}

/// The mounts as (tag, host path) pairs.
pub open spec fn mounts_view(v: Seq<VirtiofsMount>) -> Seq<(Seq<char>, Seq<char>)> {
    v.map_values(|m: VirtiofsMount| mount_view(m))
}

/// `s` without its leading `/` characters.
pub open spec fn strip_leading_slashes(s: Seq<char>) -> Seq<char>
    decreases s.len(),
{
    if s.len() > 0 && s[0] == '/' {
        strip_leading_slashes(s.drop_first())
    } else {
        s
    }
}

/// `/`, `-` and `.` become `_`; other characters stay.
pub open spec fn tag_char(c: char) -> char {
    if c == '/' || c == '-' || c == '.' { '_' } else { c }
}

/// The virtiofs tag for a path.
pub open spec fn virtiofs_tag(path: Seq<char>) -> Seq<char> {
    strip_leading_slashes(path).map_values(|c: char| tag_char(c))
}

/// The tag of a path drops the path's leading `/` characters (`k` of them)
/// and keeps every other character in place, with `/`, `-` and `.` each
/// replaced by `_`; so a tag never holds `/`, `-` or `.`.
pub proof fn lemma_virtiofs_tag_shape(path: Seq<char>) -> (k: int)
    ensures
        0 <= k <= path.len(),
        forall|i: int| 0 <= i < k ==> path[i] == '/',
        k < path.len() ==> path[k] != '/',
        virtiofs_tag(path).len() == path.len() - k,
        forall|i: int| 0 <= i < virtiofs_tag(path).len() ==> #[trigger] virtiofs_tag(path)[i] == (if path[k + i] == '/'
            || path[k + i] == '-' || path[k + i] == '.' {
            '_'
        } else {
            path[k + i]
        }),
        forall|i: int| 0 <= i < virtiofs_tag(path).len() ==> #[trigger] virtiofs_tag(path)[i] != '/'
            && virtiofs_tag(path)[i] != '-' && virtiofs_tag(path)[i] != '.',
    decreases path.len(),
{
    if path.len() > 0 && path[0] == '/' {
        let rest = path.drop_first();
        let k0 = lemma_virtiofs_tag_shape(rest);
        assert(strip_leading_slashes(path) == strip_leading_slashes(rest));
        assert forall|i: int| 0 <= i < k0 + 1 implies path[i] == '/' by {
            if i > 0 {
                assert(path[i] == rest[i - 1]);
            }
        }
        assert forall|i: int| 0 <= i < virtiofs_tag(path).len() implies #[trigger] virtiofs_tag(path)[i] == (if path[k0 + 1 + i] == '/'
            || path[k0 + 1 + i] == '-' || path[k0 + 1 + i] == '.' {
            '_'
        } else {
            path[k0 + 1 + i]
        }) by {
            assert(virtiofs_tag(path)[i] == virtiofs_tag(rest)[i]);
            assert(rest[k0 + i] == path[k0 + 1 + i]);
        }
        if k0 + 1 < path.len() {
            assert(rest[k0] == path[k0 + 1]);
        }
        k0 + 1
    } else {
        assert(strip_leading_slashes(path) == path);
        0
    }
}

/// Sanitize a filesystem path into a virtiofs tag: leading `/` are
/// dropped and every `/`, `-` or `.` becomes `_`.
///
/// `/data/research` gives `data_research`; `/var/lib/my-data` gives
/// `var_lib_my_data`.
pub fn path_to_virtiofs_tag(path: &str) -> (tag: String)
    ensures
        tag@ == virtiofs_tag(path@),
{
    let n = path.unicode_len();
    let mut start: usize = 0;
    proof {
        assert(path@.skip(0) =~= path@);
    }
    while start < n && path.get_char(start) == '/'
        invariant
            n == path@.len(),
            start <= n,
            strip_leading_slashes(path@) == strip_leading_slashes(path@.skip(start as int)),
        decreases n - start,
    {
        proof {
            assert(path@.skip(start as int).drop_first() =~= path@.skip(start as int + 1));
        }
        start = start + 1;
    }
    proof {
        if start < n {
            assert(path@.skip(start as int)[0] == path@[start as int]);
        }
        assert(strip_leading_slashes(path@) == path@.skip(start as int));
    }
    let ghost rest = path@.skip(start as int);
    let mut tag = String::new();
    let mut i: usize = start;
    while i < n
        invariant
            n == path@.len(),
            start <= i <= n,
            rest == path@.skip(start as int),
            tag@ == rest.take(i - start).map_values(|c: char| tag_char(c)),
        decreases n - i,
    {
        let c = path.get_char(i);
        let t = if c == '/' || c == '-' || c == '.' { '_' } else { c };
        tag.push(t);
        proof {
            assert(rest.take(i + 1 - start) =~= rest.take(i - start).push(c));
            assert(rest.take(i + 1 - start).map_values(|c: char| tag_char(c)) =~= rest.take(
                i - start,
            ).map_values(|c: char| tag_char(c)).push(tag_char(c)));
        }
        i = i + 1;
    }
    proof {
        assert(rest.take(n - start) =~= rest);
    }
    tag
}

/// One libkrun configuration call for a VM context.
#[derive(Debug, Clone, Copy, PartialEq, Eq, Structural)]
pub enum KrunStep {
    /// `krun_set_vm_config` with the vCPUs and RAM.
    SetVmConfig,
    /// `krun_set_root` with the root filesystem.
    SetRoot,
    /// `krun_set_workdir` with the working directory.
    SetWorkdir,
    /// `krun_set_port_map` with the port map.
    SetPortMap,
    /// `krun_add_virtiofs` with the mount at this position.
    AddVirtiofs(usize),
    /// `krun_set_rlimits` with the resource limits.
    SetRlimits,
    /// `krun_set_console_output` with the console log path.
    SetConsoleOutput,
    /// `krun_set_exec` with the executable, arguments and environment.
    SetExec,
    /// `krun_start_enter`, which does not return when the VM starts.
    StartEnter,
}

/// The calls that configure and start a VM, in order: CPU and memory, root
/// filesystem, working directory, the port map when there is one, each
/// virtiofs mount, the resource limits when there are any, the console
/// output when set, the executable, and finally entering the VM.
pub open spec fn krun_plan(c: VmConfig) -> Seq<KrunStep> {
    seq![KrunStep::SetVmConfig, KrunStep::SetRoot, KrunStep::SetWorkdir]
        + (if c.port_map@.len() > 0 { seq![KrunStep::SetPortMap] } else { Seq::empty() })
        + Seq::new(c.virtiofs_mounts@.len(), |i: int| KrunStep::AddVirtiofs(i as usize))
        + (if c.rlimits@.len() > 0 { seq![KrunStep::SetRlimits] } else { Seq::empty() })
        + (if c.console_output is Some { seq![KrunStep::SetConsoleOutput] } else { Seq::empty() })
        + seq![KrunStep::SetExec, KrunStep::StartEnter]
}

/// The libkrun calls for a VM: the CPU and memory first, then the root
/// filesystem and working directory; each mount added once, in order; the
/// port map, the resource limits and the console only when the
/// configuration has them; and the executable set right before the VM is
/// entered, which is the last call.
pub proof fn lemma_krun_plan_shape(c: VmConfig, i: usize)
    ensures
        krun_plan(c)[0] == KrunStep::SetVmConfig,
        krun_plan(c)[1] == KrunStep::SetRoot,
        krun_plan(c)[2] == KrunStep::SetWorkdir,
        krun_plan(c).last() == KrunStep::StartEnter,
        krun_plan(c)[krun_plan(c).len() - 2] == KrunStep::SetExec,
        krun_plan(c).len() == 5 + c.virtiofs_mounts@.len() + (if c.port_map@.len() > 0 { 1int } else { 0 })
            + (if c.rlimits@.len() > 0 { 1int } else { 0 }) + (if c.console_output is Some { 1int } else { 0 }),
        krun_plan(c).contains(KrunStep::SetConsoleOutput) <==> c.console_output is Some,
        krun_plan(c).contains(KrunStep::SetPortMap) <==> c.port_map@.len() > 0,
        krun_plan(c).contains(KrunStep::SetRlimits) <==> c.rlimits@.len() > 0,
        krun_plan(c).contains(KrunStep::AddVirtiofs(i)) <==> i < c.virtiofs_mounts@.len(),
{
    let p = krun_plan(c);
    let a = seq![KrunStep::SetVmConfig, KrunStep::SetRoot, KrunStep::SetWorkdir];
    let b = if c.port_map@.len() > 0 { seq![KrunStep::SetPortMap] } else { Seq::<KrunStep>::empty() };
    let m = Seq::new(c.virtiofs_mounts@.len(), |i: int| KrunStep::AddVirtiofs(i as usize));
    let r = if c.rlimits@.len() > 0 { seq![KrunStep::SetRlimits] } else { Seq::<KrunStep>::empty() };
    let o = if c.console_output is Some { seq![KrunStep::SetConsoleOutput] } else { Seq::<KrunStep>::empty() };
    let e = seq![KrunStep::SetExec, KrunStep::StartEnter];
    assert(p == a + b + m + r + o + e);
    let n1: int = (a.len() + b.len()) as int;
    let n2: int = n1 + m.len();
    let n3: int = n2 + r.len();
    let n4: int = n3 + o.len();
    assert forall|t: int| 0 <= t < p.len() implies #[trigger] p[t] == (if t < 3 {
        a[t]
    } else if t < n1 {
        b[t - 3]
    } else if t < n2 {
        m[t - n1]
    } else if t < n3 {
        r[t - n2]
    } else if t < n4 {
        o[t - n3]
    } else {
        e[t - n4]
    }) by {}
    if c.console_output is Some {
        assert(p[n3] == KrunStep::SetConsoleOutput);
    }
    if c.port_map@.len() > 0 {
        assert(p[3] == KrunStep::SetPortMap);
    }
    if c.rlimits@.len() > 0 {
        assert(p[n2] == KrunStep::SetRlimits);
    }
    if i < c.virtiofs_mounts@.len() {
        assert(p[n1 + i] == KrunStep::AddVirtiofs(i));
    }
}

/// The libkrun calls that configure and start the VM described by `config`.
pub fn krun_steps(config: &VmConfig) -> (steps: Vec<KrunStep>)
    ensures
        steps@ == krun_plan(*config),
{
    let mut steps: Vec<KrunStep> = vec![KrunStep::SetVmConfig, KrunStep::SetRoot, KrunStep::SetWorkdir];
    if config.port_map.len() > 0 {
        steps.push(KrunStep::SetPortMap);
    }
    let ghost head = steps@;
    let mut i: usize = 0;
    while i < config.virtiofs_mounts.len()
        invariant
            i <= config.virtiofs_mounts@.len(),
            steps@ == head + Seq::new(i as nat, |k: int| KrunStep::AddVirtiofs(k as usize)),
        decreases config.virtiofs_mounts@.len() - i,
    {
        steps.push(KrunStep::AddVirtiofs(i));
        proof {
            assert(Seq::new(i as nat, |k: int| KrunStep::AddVirtiofs(k as usize)).push(KrunStep::AddVirtiofs(i))
                =~= Seq::new((i + 1) as nat, |k: int| KrunStep::AddVirtiofs(k as usize)));
        }
        i = i + 1;
    }
    if config.rlimits.len() > 0 {
        steps.push(KrunStep::SetRlimits);
    }
    if config.console_output.is_some() {
        steps.push(KrunStep::SetConsoleOutput);
    }
    steps.push(KrunStep::SetExec);
    steps.push(KrunStep::StartEnter);
    assert(steps@ =~= krun_plan(*config));
    steps
}

/// Errors from libkrun operations.
#[derive(Debug)]
pub enum KrunError {
    CreateCtx(i32),
    SetVmConfig(i32),
    SetRoot(i32),
    SetExec(i32),
    StartEnter(i32),
    NulError(String),
    AddVirtiofs(i32),
    SetRlimits(i32),
    SetConsoleOutput(i32),
    Other(String),
}

/// `e` is the error for `step` failing with `code`: the step's own variant
/// with the code, except the working directory and port map, which are
/// reported as `Other` with the name of the failed call.
pub open spec fn is_step_error(step: KrunStep, code: i32, e: KrunError) -> bool {
    match step {
        KrunStep::SetVmConfig => e == KrunError::SetVmConfig(code),
        KrunStep::SetRoot => e == KrunError::SetRoot(code),
        KrunStep::SetWorkdir => e matches KrunError::Other(m) && m@ == "krun_set_workdir failed"@,
        KrunStep::SetPortMap => e matches KrunError::Other(m) && m@ == "krun_set_port_map failed"@,
        KrunStep::AddVirtiofs(_) => e == KrunError::AddVirtiofs(code),
        KrunStep::SetRlimits => e == KrunError::SetRlimits(code),
        KrunStep::SetConsoleOutput => e == KrunError::SetConsoleOutput(code),
        KrunStep::SetExec => e == KrunError::SetExec(code),
        KrunStep::StartEnter => e == KrunError::StartEnter(code),
    }
}

/// The error for a step that returned the failure code `code`.
pub fn step_error(step: KrunStep, code: i32) -> (e: KrunError)
    ensures
        is_step_error(step, code, e),
{
    match step {
        KrunStep::SetVmConfig => KrunError::SetVmConfig(code),
        KrunStep::SetRoot => KrunError::SetRoot(code),
        KrunStep::SetWorkdir => KrunError::Other(String::from_str("krun_set_workdir failed")),
        KrunStep::SetPortMap => KrunError::Other(String::from_str("krun_set_port_map failed")),
        KrunStep::AddVirtiofs(_) => KrunError::AddVirtiofs(code),
        KrunStep::SetRlimits => KrunError::SetRlimits(code),
        KrunStep::SetConsoleOutput => KrunError::SetConsoleOutput(code),
        KrunStep::SetExec => KrunError::SetExec(code),
        KrunStep::StartEnter => KrunError::StartEnter(code),
    }
}

/// What to do once a libkrun call has returned.
#[derive(Debug)]
pub enum StepOutcome {
    /// The call succeeded: go on with the next one.
    Continue,
    /// The call failed: free the context and report the error.
    FreeAndFail(KrunError),
    /// `krun_start_enter` returned, which it does only on failure: report
    /// the error (the context is gone with the attempt).
    Fail(KrunError),
}

/// The decision after `step` returned `code`: `krun_start_enter` returning
/// at all is a failure; another call fails when its code is negative, and
/// then the context is freed first.
pub fn step_outcome(step: KrunStep, code: i32) -> (o: StepOutcome)
    ensures
        step == KrunStep::StartEnter ==> (o matches StepOutcome::Fail(e) && is_step_error(step, code, e)),
        step != KrunStep::StartEnter && code < 0 ==> (o matches StepOutcome::FreeAndFail(e) && is_step_error(
            step,
            code,
            e,
        )),
        step != KrunStep::StartEnter && code >= 0 ==> o is Continue,
{
    if step == KrunStep::StartEnter {
        StepOutcome::Fail(step_error(step, code))
    } else if code < 0 {
        StepOutcome::FreeAndFail(step_error(step, code))
    } else {
        StepOutcome::Continue
    }
}

/// The text of a libkrun error.
pub open spec fn krun_error_message(e: KrunError) -> Seq<char> {
    match e {
        KrunError::CreateCtx(c) => "krun_create_ctx failed: "@ + signed_decimal(c as int),
        KrunError::SetVmConfig(c) => "krun_set_vm_config failed: "@ + signed_decimal(c as int),
        KrunError::SetRoot(c) => "krun_set_root failed: "@ + signed_decimal(c as int),
        KrunError::SetExec(c) => "krun_set_exec failed: "@ + signed_decimal(c as int),
        KrunError::StartEnter(c) => "krun_start_enter failed: "@ + signed_decimal(c as int),
        KrunError::NulError(m) => "nul byte in string: "@ + m@,
        KrunError::AddVirtiofs(c) => "krun_add_virtiofs failed: "@ + signed_decimal(c as int),
        KrunError::SetRlimits(c) => "krun_set_rlimits failed: "@ + signed_decimal(c as int),
        KrunError::SetConsoleOutput(c) => "krun_set_console_output failed: "@ + signed_decimal(c as int),
        KrunError::Other(m) => "libkrun call failed: "@ + m@,
    }
}

fn coded_message(prefix: &str, code: i32) -> (s: String)
    ensures
        s@ == prefix@ + signed_decimal(code as int),
{
    let mut s = String::from_str(prefix);
    push_signed_decimal(&mut s, code as i64);
    s
}

fn prefixed_message(prefix: &str, m: &String) -> (s: String)
    ensures
        s@ == prefix@ + m@,
{
    let mut s = String::from_str(prefix);
    s.append(m.as_str());
    s
}

impl KrunError {
    /// The human-readable description of the error.
    pub fn to_string(&self) -> (s: String)
        ensures
            s@ == krun_error_message(*self),
    {
        match self {
            KrunError::CreateCtx(c) => coded_message("krun_create_ctx failed: ", *c),
            KrunError::SetVmConfig(c) => coded_message("krun_set_vm_config failed: ", *c),
            KrunError::SetRoot(c) => coded_message("krun_set_root failed: ", *c),
            KrunError::SetExec(c) => coded_message("krun_set_exec failed: ", *c),
            KrunError::StartEnter(c) => coded_message("krun_start_enter failed: ", *c),
            KrunError::NulError(m) => prefixed_message("nul byte in string: ", m),
            KrunError::AddVirtiofs(c) => coded_message("krun_add_virtiofs failed: ", *c),
            KrunError::SetRlimits(c) => coded_message("krun_set_rlimits failed: ", *c),
            KrunError::SetConsoleOutput(c) => coded_message("krun_set_console_output failed: ", *c),
            KrunError::Other(m) => prefixed_message("libkrun call failed: ", m),
        }
    }
}

} // verus!
