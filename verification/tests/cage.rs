use nullbox::cage::krun::{
    krun_steps, path_to_virtiofs_tag, step_error, step_outcome, KrunError, KrunStep, StepOutcome, VirtiofsMount, VmConfig,
};
use nullbox::cage::manifest::{
    default_version, validate, AgentManifest, AgentMeta, Capabilities, FilesystemCaps, ManifestError,
};
use nullbox::cage::vm::{build_rlimits, build_virtiofs_mounts, restart_after, should_restart, VmError, VmManager};
use nullbox::nulld::signal::ExitReason;

fn manifest(name: &str) -> AgentManifest {
    AgentManifest {
        agent: AgentMeta { name: name.to_string(), version: default_version() },
        capabilities: Capabilities::default(),
        tools: vec![],
    }
}

fn sample_config() -> VmConfig {
    VmConfig {
        name: "test".to_string(),
        vcpus: 2,
        ram_mib: 512,
        root_path: "/rootfs".to_string(),
        exec_path: "/agent/bin/test".to_string(),
        args: vec![],
        env: vec!["FOO=bar".to_string()],
        port_map: vec![],
        workdir: "/".to_string(),
        virtiofs_mounts: vec![VirtiofsMount {
            tag: "data_research".to_string(),
            host_path: "/var/lib/cage/test/data/research".to_string(),
        }],
        rlimits: vec!["RLIMIT_AS=536870912:536870912".to_string(), "RLIMIT_NPROC=64:64".to_string()],
        console_output: Some("/var/log/cage/test.log".to_string()),
    }
}

#[test]
fn path_to_tag_sanitization() {
    assert_eq!(path_to_virtiofs_tag("/data/research"), "data_research");
    assert_eq!(path_to_virtiofs_tag("/var/lib/my-data"), "var_lib_my_data");
    assert_eq!(path_to_virtiofs_tag("/data"), "data");
    assert_eq!(path_to_virtiofs_tag("/data/.hidden/output"), "data__hidden_output");
}

#[test]
fn krun_steps_follow_the_config() {
    let steps = krun_steps(&sample_config());
    assert_eq!(
        steps,
        vec![
            KrunStep::SetVmConfig,
            KrunStep::SetRoot,
            KrunStep::SetWorkdir,
            KrunStep::AddVirtiofs(0),
            KrunStep::SetRlimits,
            KrunStep::SetConsoleOutput,
            KrunStep::SetExec,
            KrunStep::StartEnter,
        ]
    );
}

#[test]
fn krun_steps_minimal_config() {
    let mut config = sample_config();
    config.virtiofs_mounts.clear();
    config.rlimits.clear();
    config.console_output = None;
    config.port_map = vec!["8080:80".to_string()];
    let steps = krun_steps(&config);
    assert_eq!(
        steps,
        vec![
            KrunStep::SetVmConfig,
            KrunStep::SetRoot,
            KrunStep::SetWorkdir,
            KrunStep::SetPortMap,
            KrunStep::SetExec,
            KrunStep::StartEnter,
        ]
    );
}

#[test]
fn krun_step_errors() {
    assert_eq!(step_error(KrunStep::SetRoot, -2).to_string(), "krun_set_root failed: -2");
    assert_eq!(
        step_error(KrunStep::SetWorkdir, -5).to_string(),
        "libkrun call failed: krun_set_workdir failed"
    );
    assert!(matches!(step_error(KrunStep::AddVirtiofs(3), -1), KrunError::AddVirtiofs(-1)));
    assert_eq!(KrunError::CreateCtx(-12).to_string(), "krun_create_ctx failed: -12");
}

#[test]
fn parse_minimal_manifest() {
    let m = manifest("minimal");
    assert!(validate(&m).is_ok());
    assert_eq!(m.agent.name, "minimal");
    assert_eq!(m.capabilities.max_cpu_percent, 25);
    assert_eq!(m.capabilities.max_memory_mb, 256);
}

#[test]
fn reject_empty_name() {
    let m = manifest("");
    assert!(validate(&m).is_err());
}

#[test]
fn reject_cpu_over_100() {
    let mut m = manifest("bad");
    m.capabilities.max_cpu_percent = 150;
    assert!(validate(&m).is_err());
}

#[test]
fn reject_cpu_zero() {
    let mut m = manifest("bad");
    m.capabilities.max_cpu_percent = 0;
    assert!(validate(&m).is_err());
}

#[test]
fn reject_relative_filesystem_path() {
    let mut m = manifest("bad");
    m.capabilities.filesystem.read = vec!["relative/path".to_string()];
    assert!(validate(&m).is_err());
}

#[test]
fn reject_invalid_domain() {
    let mut m = manifest("bad");
    m.capabilities.network.allow = vec!["valid.com".to_string(), "has space".to_string()];
    match validate(&m) {
        Err(ManifestError::Validation(msg)) => assert!(msg.contains("has space")),
        other => panic!("unexpected: {:?}", other),
    }
}

#[test]
fn rlimits_from_manifest() {
    let mut m = manifest("test");
    m.capabilities.max_memory_mb = 512;

    let rlimits = build_rlimits(&m);
    assert_eq!(rlimits.len(), 2);
    // 512 MiB = 536870912 bytes
    assert_eq!(rlimits[0], "RLIMIT_AS=536870912:536870912");
    assert_eq!(rlimits[1], "RLIMIT_NPROC=64:64");
}

#[test]
fn rlimits_minimum_memory() {
    let mut m = manifest("tiny");
    m.capabilities.max_memory_mb = 64;

    let rlimits = build_rlimits(&m);
    // 64 MiB = 67108864 bytes
    assert_eq!(rlimits[0], "RLIMIT_AS=67108864:67108864");
}

#[test]
fn virtiofs_mounts_from_manifest() {
    let fs = FilesystemCaps { read: vec!["/data/corpus".to_string()], write: vec!["/data/output".to_string()] };

    let mounts = build_virtiofs_mounts("researcher", &fs);
    assert_eq!(mounts.len(), 2);
    assert_eq!(mounts[0].tag, "data_corpus_ro");
    assert_eq!(mounts[0].host_path, "/var/lib/cage/researcher/data/corpus");
    assert_eq!(mounts[1].tag, "data_output_rw");
    assert_eq!(mounts[1].host_path, "/var/lib/cage/researcher/data/output");
}

#[test]
fn should_restart_logic() {
    assert!(should_restart(1));
    assert!(should_restart(137)); // SIGKILL
    assert!(!should_restart(0)); // clean exit
}

#[test]
fn handle_exit_returns_status() {
    let mut mgr = VmManager::new("/tmp/rootfs");
    let config = mgr.start_agent(&manifest("test"), "/agent/bin/test", &vec![]).unwrap();
    mgr.agent_started(&config, 1234).unwrap();
    assert_eq!(mgr.list()[0].pid, 1234);
    assert_eq!(mgr.list()[0].ram_mib, 256);

    let exit = mgr.handle_exit(1234, 137).unwrap();
    assert_eq!(exit.agent_name, "test");
    assert_eq!(exit.exit_status, 137);
    assert!(mgr.list().is_empty());
}

#[test]
fn handle_exit_unknown_pid() {
    let mut mgr = VmManager::new("/tmp/rootfs");
    assert!(mgr.handle_exit(9999, 0).is_none());
}

#[test]
fn start_agent_builds_config() {
    let mut mgr = VmManager::new("/system/rootfs");
    let mut m = manifest("researcher");
    m.capabilities.max_cpu_percent = 60;
    let secrets = vec![("OPENAI_KEY".to_string(), "sk-1".to_string())];
    let config = mgr.start_agent(&m, "/agent/bin/researcher", &secrets).unwrap();
    assert_eq!(config.root_path, "/system/rootfs/researcher");
    assert_eq!(config.console_output, Some("/var/log/cage/researcher.log".to_string()));
    assert_eq!(config.vcpus, 3);
    assert_eq!(config.env, vec!["AGENT_NAME=researcher", "CTXGRAPH_PORT=9100", "OPENAI_KEY=sk-1"]);
    assert!(!mgr.is_running("researcher"));
    mgr.agent_started(&config, 42).unwrap();
    assert!(mgr.is_running("researcher"));
}

#[test]
fn start_agent_twice_is_refused() {
    let mut mgr = VmManager::new("/tmp/rootfs");
    let config = mgr.start_agent(&manifest("a"), "/agent/bin/a", &vec![]).unwrap();
    mgr.agent_started(&config, 5).unwrap();
    let err = mgr.start_agent(&manifest("a"), "/agent/bin/a", &vec![]).unwrap_err();
    assert_eq!(err.to_string(), "agent 'a' is already running");
    let err = mgr.agent_started(&config, 6).unwrap_err();
    assert_eq!(err.to_string(), "agent 'a' is already running");
    assert_eq!(mgr.list()[0].pid, 5);
}

#[test]
fn stop_agent_terminates_and_forgets() {
    let mut mgr = VmManager::new("/tmp/rootfs");
    let config = mgr.start_agent(&manifest("a"), "/agent/bin/a", &vec![]).unwrap();
    mgr.agent_started(&config, 77).unwrap();
    assert_eq!(mgr.stop_agent("a").unwrap(), 77);
    assert!(!mgr.is_running("a"));
    assert!(matches!(mgr.stop_agent("a"), Err(VmError::NotRunning(_))));
}

#[test]
fn step_outcome_frees_context_on_failure() {
    assert!(matches!(step_outcome(KrunStep::SetRoot, 0), StepOutcome::Continue));
    assert!(matches!(step_outcome(KrunStep::SetRoot, -22), StepOutcome::FreeAndFail(KrunError::SetRoot(-22))));
    assert!(matches!(step_outcome(KrunStep::StartEnter, 0), StepOutcome::Fail(KrunError::StartEnter(0))));
}

#[test]
fn signalled_vm_is_not_restarted() {
    assert!(restart_after(ExitReason::Exited(1)));
    assert!(!restart_after(ExitReason::Exited(0)));
    assert!(!restart_after(ExitReason::Signaled(9)));
}
