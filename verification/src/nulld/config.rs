//! Service configuration for nulld: restart policy names, the built-in
//! services, and turning configuration entries into service definitions.
//!
//! Reading `/system/config/nulld.toml` and decoding its TOML happen at the
//! program's edge; this module gets the decoded entries.
use vstd::prelude::*;
use crate::nulld::service::{ServiceDef, RestartPolicy};
use crate::text::{str_eq, views};

verus! {

/// Where nulld reads its service configuration.
pub const DEFAULT_CONFIG_PATH: &'static str = "/system/config/nulld.toml";

/// One `[service.<name>]` table of the configuration file.
#[derive(Debug)]
pub struct ServiceEntry {
    pub binary: String,
    pub args: Vec<String>,
    pub depends_on: Vec<String>,
    pub restart: String,
}

/// Why the configuration could not be loaded.
#[derive(Debug)]
pub enum ConfigError {
    ReadFailed { path: String, source: String },
    ParseFailed { source: String },
    InvalidRestart { service: String, value: String },
}

/// The text of a configuration error.
pub open spec fn config_error_message(e: ConfigError) -> Seq<char> {
    match e {
        ConfigError::ReadFailed { path, source } => "failed to read config "@ + path@ + ": "@ + source@,
        ConfigError::ParseFailed { source } => "failed to parse config: "@ + source@,
        ConfigError::InvalidRestart { service, value } => "invalid restart policy '"@ + value@
            + "' for service '"@ + service@ + "'"@,
    }
}

impl ConfigError {
    /// The human-readable description of the error.
    pub fn to_string(&self) -> (s: String)
        ensures
            s@ == config_error_message(*self),
    {
        match self {
            ConfigError::ReadFailed { path, source } => {
                let mut s = String::from_str("failed to read config ");
                s.append(path.as_str());
                s.append(": ");
                s.append(source.as_str());
                s
            },
            ConfigError::ParseFailed { source } => {
                let mut s = String::from_str("failed to parse config: ");
                s.append(source.as_str());
                s
            },
            ConfigError::InvalidRestart { service, value } => {
                let mut s = String::from_str("invalid restart policy '");
                s.append(value.as_str());
                s.append("' for service '");
                s.append(service.as_str());
                s.append("'");
                s
            },
        }
    }
}

/// The policy a `restart` value names: `always`, `never` or `on-failure`.
pub open spec fn restart_policy_named(value: Seq<char>) -> Option<RestartPolicy> {
    if value == "always"@ {
        Some(RestartPolicy::Always)
    } else if value == "never"@ {
        Some(RestartPolicy::Never)
    } else if value == "on-failure"@ {
        Some(RestartPolicy::OnFailure)
    } else {
        None
    }
}

/// Exactly three restart values name a policy: `always`, `never` and
/// `on-failure`, each its own; every other value names none.
pub proof fn lemma_restart_policy_names(value: Seq<char>)
    ensures
        restart_policy_named(value) == Some(RestartPolicy::Always) <==> value == "always"@,
        restart_policy_named(value) == Some(RestartPolicy::Never) <==> value == "never"@,
        restart_policy_named(value) == Some(RestartPolicy::OnFailure) <==> value == "on-failure"@,
        restart_policy_named(value) is None <==> (value != "always"@ && value != "never"@ && value != "on-failure"@),
{
    reveal_strlit("always");
    reveal_strlit("never");
    reveal_strlit("on-failure");
    assert("always"@.len() == 6 && "never"@.len() == 5 && "on-failure"@.len() == 10);
}

/// The restart value used when a service does not give one.
pub fn default_restart() -> (s: String)
    ensures
        s@ == "always"@,
{
    String::from_str("always")
}

/// The policy named by a `restart` value, if it is one of the known names.
pub fn parse_restart_policy(value: &str) -> (r: Option<RestartPolicy>)
    ensures
        r == restart_policy_named(value@),
{
    if str_eq(value, "always") {
        Some(RestartPolicy::Always)
    } else if str_eq(value, "never") {
        Some(RestartPolicy::Never)
    } else if str_eq(value, "on-failure") {
        Some(RestartPolicy::OnFailure)
    } else {
        None
    }
}

/// `def` is what entry `(name, e)` describes under `policy`.
pub open spec fn def_from_entry(name: String, e: ServiceEntry, policy: RestartPolicy, def: ServiceDef) -> bool {
    &&& def.name == name
    &&& def.binary == e.binary
    &&& def.args == e.args
    &&& def.depends_on == e.depends_on
    &&& def.restart == policy
}

/// Service definitions from decoded configuration entries, in the same
/// order.  Fails with `InvalidRestart` for the first entry whose restart
/// value names no policy.
pub fn services_from_entries(entries: Vec<(String, ServiceEntry)>) -> (r: Result<Vec<ServiceDef>, ConfigError>)
    ensures
        match r {
            Ok(defs) => {
                &&& defs@.len() == entries@.len()
                &&& forall|i: int| 0 <= i < entries@.len() ==> {
                    &&& restart_policy_named(entries@[i].1.restart@) is Some
                    &&& def_from_entry(
                        entries@[i].0,
                        entries@[i].1,
                        restart_policy_named(entries@[i].1.restart@)->0,
                        #[trigger] defs@[i],
                    )
                }
            },
            Err(ConfigError::InvalidRestart { service, value }) => exists|i: int| {
                &&& 0 <= i < entries@.len()
                &&& restart_policy_named(#[trigger] entries@[i].1.restart@) is None
                &&& forall|i2: int| 0 <= i2 < i ==> restart_policy_named(#[trigger] entries@[i2].1.restart@) is Some
                &&& service@ == entries@[i].0@
                &&& value@ == entries@[i].1.restart@
            },
            Err(_) => false,
        },
{
    let ghost all = entries@;
    let mut rest = entries;
    let mut reversed: Vec<ServiceDef> = Vec::new();
    // Check in declaration order first, so the reported entry is the first bad one.
    let mut i: usize = 0;
    while i < rest.len()
        invariant
            rest@ == all,
            all == entries@,
            i <= all.len(),
            forall|i2: int| 0 <= i2 < i ==> restart_policy_named(#[trigger] all[i2].1.restart@) is Some,
        decreases all.len() - i,
    {
        if parse_restart_policy(rest[i].1.restart.as_str()).is_none() {
            proof {
                assert(restart_policy_named(all[i as int].1.restart@) is None);
                assert(all == entries@);
            }
            return Err(ConfigError::InvalidRestart {
                service: rest[i].0.clone(),
                value: rest[i].1.restart.clone(),
            });
        }
        i = i + 1;
    }
    // Convert, taking entries from the back.
    while rest.len() > 0
        invariant
            rest@ == all.take(rest@.len() as int),
            rest@.len() + reversed@.len() == all.len(),
            forall|i2: int| 0 <= i2 < all.len() ==> restart_policy_named(#[trigger] all[i2].1.restart@) is Some,
            forall|u: int| 0 <= u < reversed@.len() ==> def_from_entry(
                all[all.len() - 1 - u].0,
                all[all.len() - 1 - u].1,
                restart_policy_named(all[all.len() - 1 - u].1.restart@)->0,
                #[trigger] reversed@[u],
            ),
        decreases rest@.len(),
    {
        let ghost before = rest@;
        let (name, entry) = rest.pop().unwrap();
        proof {
            assert(rest@ =~= all.take(rest@.len() as int));
            assert(before[before.len() - 1] == all[rest@.len() as int]);
        }
        let policy = match parse_restart_policy(entry.restart.as_str()) {
            Some(p) => p,
            None => {
                proof {
                    assert(restart_policy_named(all[rest@.len() as int].1.restart@) is Some);
                }
                return Err(ConfigError::ParseFailed { source: entry.restart });
            },
        };
        reversed.push(ServiceDef {
            name,
            binary: entry.binary,
            args: entry.args,
            depends_on: entry.depends_on,
            restart: policy,
        });
    }
    let mut defs: Vec<ServiceDef> = Vec::new();
    while reversed.len() > 0
        invariant
            reversed@.len() + defs@.len() == all.len(),
            forall|i2: int| 0 <= i2 < all.len() ==> restart_policy_named(#[trigger] all[i2].1.restart@) is Some,
            forall|u: int| 0 <= u < reversed@.len() ==> def_from_entry(
                all[all.len() - 1 - u].0,
                all[all.len() - 1 - u].1,
                restart_policy_named(all[all.len() - 1 - u].1.restart@)->0,
                #[trigger] reversed@[u],
            ),
            forall|i2: int| 0 <= i2 < defs@.len() ==> def_from_entry(
                all[i2].0,
                all[i2].1,
                restart_policy_named(all[i2].1.restart@)->0,
                #[trigger] defs@[i2],
            ),
        decreases reversed@.len(),
    {
        let d = reversed.pop().unwrap();
        defs.push(d);
    }
    Ok(defs)
}

/// A service definition from literal parts.
fn service(name: &str, binary: &str, deps: Vec<String>) -> (d: ServiceDef)
    ensures
        d.name@ == name@,
        d.binary@ == binary@,
        d.args@.len() == 0,
        d.depends_on@ == deps@,
        d.restart == RestartPolicy::Always,
{
    ServiceDef {
        name: String::from_str(name),
        binary: String::from_str(binary),
        args: Vec::new(),
        depends_on: deps,
        restart: RestartPolicy::Always,
    }
}

/// Built-in default services, used when no configuration file is present:
/// `egress` and `ctxgraph` without dependencies, and `cage` depending on
/// both; all restart always.
pub fn builtin_services() -> (defs: Vec<ServiceDef>)
    ensures
        defs@.len() == 3,
        defs@[0].name@ == "egress"@ && defs@[0].binary@ == "/system/bin/egress"@,
        defs@[1].name@ == "ctxgraph"@ && defs@[1].binary@ == "/system/bin/ctxgraph"@,
        defs@[2].name@ == "cage"@ && defs@[2].binary@ == "/system/bin/cage"@,
        defs@[0].depends_on@.len() == 0,
        defs@[1].depends_on@.len() == 0,
        views(defs@[2].depends_on@) == seq!["egress"@, "ctxgraph"@],
        forall|i: int| 0 <= i < 3 ==> (#[trigger] defs@[i]).args@.len() == 0 && defs@[i].restart
            == RestartPolicy::Always,
{
    let mut cage_deps: Vec<String> = Vec::new();
    cage_deps.push(String::from_str("egress"));
    cage_deps.push(String::from_str("ctxgraph"));
    let mut defs: Vec<ServiceDef> = Vec::new();
    defs.push(service("egress", "/system/bin/egress", Vec::new()));
    defs.push(service("ctxgraph", "/system/bin/ctxgraph", Vec::new()));
    defs.push(service("cage", "/system/bin/cage", cage_deps));
    proof {
        assert(views(defs@[2].depends_on@) =~= seq!["egress"@, "ctxgraph"@]);
    }
    defs
}

} // verus!
