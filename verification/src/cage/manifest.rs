//! AGENT.toml manifests: what an agent declares it needs, and the checks a
//! manifest must pass before an agent may run.
//!
//! Decoding the TOML text happens at the program's edge; this module gets
//! the decoded manifest.
use vstd::prelude::*;
use crate::text::views;

verus! {

/// A decoded AGENT.toml manifest.
#[derive(Debug)]
pub struct AgentManifest {
    pub agent: AgentMeta,
    pub capabilities: Capabilities,
    /// The declared tools, by name.
    pub tools: Vec<(String, ToolDef)>,
}

/// The `[agent]` table.
#[derive(Debug)]
pub struct AgentMeta {
    pub name: String,
    pub version: String,
}

/// The `[capabilities]` table.
#[derive(Debug)]
pub struct Capabilities {
    pub network: NetworkCaps,
    pub filesystem: FilesystemCaps,
    pub shell: bool,
    pub credential_refs: Vec<String>,
    pub accelerator: String,
    pub max_cpu_percent: u32,
    pub max_memory_mb: u32,
    pub max_api_calls_per_hour: u32,
}

/// Domains the agent may reach.
#[derive(Debug)]
pub struct NetworkCaps {
    pub allow: Vec<String>,
}

/// Paths the agent may read and write.
#[derive(Debug)]
pub struct FilesystemCaps {
    pub read: Vec<String>,
    pub write: Vec<String>,
}

/// A declared tool.
#[derive(Debug)]
pub struct ToolDef {
    pub risk: RiskLevel,
}

/// How dangerous a tool is.
#[derive(Debug, Clone, Copy, PartialEq, Eq, Structural)]
pub enum RiskLevel {
    Low,
    Medium,
    High,
    Critical,
}

/// Why a manifest could not be used.
#[derive(Debug)]
pub enum ManifestError {
    ReadFailed { path: String, source: String },
    ParseFailed { source: String },
    Validation(String),
}

/// The text of a manifest error.
pub open spec fn manifest_error_message(e: ManifestError) -> Seq<char> {
    match e {
        ManifestError::ReadFailed { path, source } => "failed to read manifest "@ + path@ + ": "@ + source@,
        ManifestError::ParseFailed { source } => "failed to parse manifest: "@ + source@,
        ManifestError::Validation(msg) => "manifest validation: "@ + msg@,
    }
}

impl ManifestError {
    /// The human-readable description of the error.
    pub fn to_string(&self) -> (s: String)
        ensures
            s@ == manifest_error_message(*self),
    {
        match self {
            ManifestError::ReadFailed { path, source } => {
                let mut s = String::from_str("failed to read manifest ");
                s.append(path.as_str());
                s.append(": ");
                s.append(source.as_str());
                s
            },
            ManifestError::ParseFailed { source } => {
                let mut s = String::from_str("failed to parse manifest: ");
                s.append(source.as_str());
                s
            },
            ManifestError::Validation(msg) => {
                let mut s = String::from_str("manifest validation: ");
                s.append(msg.as_str());
                s
            },
        }
    }
}

/// The version used when a manifest gives none.
pub fn default_version() -> (s: String)
    ensures
        s@ == "0.0.0"@,
{
    String::from_str("0.0.0")
}

/// The accelerator used when a manifest gives none.
pub fn default_accelerator() -> (s: String)
    ensures
        s@ == "none"@,
{
    String::from_str("none")
}

/// The CPU share, in percent, used when a manifest gives none.
pub fn default_cpu() -> (p: u32)
    ensures
        p == 25,
{
    25
}

/// The memory, in MiB, used when a manifest gives none.
pub fn default_memory() -> (m: u32)
    ensures
        m == 256,
{
    256
}

impl Default for NetworkCaps {
    fn default() -> (c: Self)
        ensures
            c.allow@.len() == 0,
    {
        NetworkCaps { allow: Vec::new() }
    }
}

impl Default for FilesystemCaps {
    fn default() -> (c: Self)
        ensures
            c.read@.len() == 0,
            c.write@.len() == 0,
    {
        FilesystemCaps { read: Vec::new(), write: Vec::new() }
    }
}

impl Default for Capabilities {
    /// No network, no filesystem, no shell, no credentials, no accelerator,
    /// 25% CPU, 256 MiB memory and no API-call budget.
    fn default() -> (c: Self)
        ensures
            c.network.allow@.len() == 0,
            c.filesystem.read@.len() == 0,
            c.filesystem.write@.len() == 0,
            !c.shell,
            c.credential_refs@.len() == 0,
            c.accelerator@ == "none"@,
            c.max_cpu_percent == 25,
            c.max_memory_mb == 256,
            c.max_api_calls_per_hour == 0,
    {
        Capabilities {
            network: NetworkCaps::default(),
            filesystem: FilesystemCaps::default(),
            shell: false,
            credential_refs: Vec::new(),
            accelerator: default_accelerator(),
            max_cpu_percent: default_cpu(),
            max_memory_mb: default_memory(),
            max_api_calls_per_hour: 0,
        }
    }
}

/// A domain in `network.allow` is empty or holds a space.
pub open spec fn bad_domain(d: Seq<char>) -> bool {
    d.len() == 0 || d.contains(' ')
}

/// A filesystem path is not absolute.
pub open spec fn bad_path(p: Seq<char>) -> bool {
    p.len() == 0 || p[0] != '/'
}

/// The first domain that is empty or holds a space.
pub open spec fn first_bad_domain(s: Seq<Seq<char>>) -> Option<Seq<char>>
    decreases s.len(),
{
    if s.len() == 0 {
        None
    } else if bad_domain(s[0]) {
        Some(s[0])
    } else {
        first_bad_domain(s.drop_first())
    }
}

/// The first path that is not absolute.
pub open spec fn first_bad_path(s: Seq<Seq<char>>) -> Option<Seq<char>>
    decreases s.len(),
{
    if s.len() == 0 {
        None
    } else if bad_path(s[0]) {
        Some(s[0])
    } else {
        first_bad_path(s.drop_first())
    }
}

/// The message of the first check the manifest fails, if any: a non-empty
/// agent name, a CPU share from 1 to 100%, some memory, well-formed domains, and
/// absolute filesystem paths (read paths, then write paths).
pub open spec fn manifest_violation(m: AgentManifest) -> Option<Seq<char>> {
    let caps = m.capabilities;
    if m.agent.name@.len() == 0 {
        Some("agent.name cannot be empty"@)
    } else if caps.max_cpu_percent > 100 {
        Some("max_cpu_percent cannot exceed 100"@)
    } else if caps.max_cpu_percent == 0 {
        Some("max_cpu_percent must be at least 1"@)
    } else if caps.max_memory_mb == 0 {
        Some("max_memory_mb must be greater than 0"@)
    } else if first_bad_domain(views(caps.network.allow@)) is Some {
        Some("invalid domain in network.allow: '"@ + first_bad_domain(views(caps.network.allow@))->0 + "'"@)
    } else if first_bad_path(views(caps.filesystem.read@) + views(caps.filesystem.write@)) is Some {
        Some("filesystem paths must be absolute: '"@ + first_bad_path(
            views(caps.filesystem.read@) + views(caps.filesystem.write@),
        )->0 + "'"@)
    } else {
        None
    }
}

/// Whether `s` holds a space.
fn has_space(s: &str) -> (r: bool)
    ensures
        r == s@.contains(' '),
{
    let n = s.unicode_len();
    let mut i: usize = 0;
    while i < n
        invariant
            n == s@.len(),
            i <= n,
            forall|j: int| 0 <= j < i ==> s@[j] != ' ',
        decreases n - i,
    {
        if s.get_char(i) == ' ' {
            return true;
        }
        i = i + 1;
    }
    false
}

proof fn lemma_first_bad_domain_skip(s: Seq<Seq<char>>, i: int)
    requires
        0 <= i < s.len(),
        !bad_domain(s[i]),
        first_bad_domain(s) == first_bad_domain(s.skip(i)),
    ensures
        first_bad_domain(s) == first_bad_domain(s.skip(i + 1)),
{
    assert(s.skip(i).drop_first() =~= s.skip(i + 1));
}

proof fn lemma_first_bad_path_skip(s: Seq<Seq<char>>, i: int)
    requires
        0 <= i < s.len(),
        !bad_path(s[i]),
        first_bad_path(s) == first_bad_path(s.skip(i)),
    ensures
        first_bad_path(s) == first_bad_path(s.skip(i + 1)),
{
    assert(s.skip(i).drop_first() =~= s.skip(i + 1));
}

/// The first entry of `v` that fails `bad_domain`.
fn find_bad_domain(v: &Vec<String>) -> (r: Option<usize>)
    ensures
        match r {
            Some(i) => i < v@.len() && first_bad_domain(views(v@)) == Some(v@[i as int]@),
            None => first_bad_domain(views(v@)) is None,
        },
{
    let ghost s = views(v@);
    proof {
        assert(s.skip(0) =~= s);
    }
    let mut i: usize = 0;
    while i < v.len()
        invariant
            s == views(v@),
            i <= v@.len(),
            first_bad_domain(s) == first_bad_domain(s.skip(i as int)),
        decreases v@.len() - i,
    {
        if v[i].as_str().is_empty() || has_space(v[i].as_str()) {
            proof {
                assert(s.skip(i as int)[0] == s[i as int]);
            }
            return Some(i);
        }
        proof {
            lemma_first_bad_domain_skip(s, i as int);
        }
        i = i + 1;
    }
    proof {
        assert(s.skip(i as int).len() == 0);
    }
    None
}

/// The first entry of `v` that is not an absolute path.
fn find_bad_path_in(v: &Vec<String>) -> (r: Option<usize>)
    ensures
        match r {
            Some(i) => i < v@.len() && first_bad_path(views(v@)) == Some(v@[i as int]@),
            None => first_bad_path(views(v@)) is None,
        },
{
    let ghost s = views(v@);
    proof {
        assert(s.skip(0) =~= s);
    }
    let mut i: usize = 0;
    while i < v.len()
        invariant
            s == views(v@),
            i <= v@.len(),
            first_bad_path(s) == first_bad_path(s.skip(i as int)),
        decreases v@.len() - i,
    {
        if v[i].as_str().is_empty() || v[i].as_str().get_char(0) != '/' {
            proof {
                assert(s.skip(i as int)[0] == s[i as int]);
            }
            return Some(i);
        }
        proof {
            lemma_first_bad_path_skip(s, i as int);
        }
        i = i + 1;
    }
    proof {
        assert(s.skip(i as int).len() == 0);
    }
    None
}

proof fn lemma_first_bad_path_concat(a: Seq<Seq<char>>, b: Seq<Seq<char>>)
    ensures
        first_bad_path(a + b) == if first_bad_path(a) is Some { first_bad_path(a) } else { first_bad_path(b) },
    decreases a.len(),
{
    if a.len() == 0 {
        assert(a + b =~= b);
    } else {
        assert((a + b).drop_first() =~= a.drop_first() + b);
        lemma_first_bad_path_concat(a.drop_first(), b);
    }
}

proof fn lemma_first_bad_path_none(s: Seq<Seq<char>>)
    ensures
        first_bad_path(s) is None <==> forall|i: int| 0 <= i < s.len() ==> (#[trigger] s[i]).len() > 0 && s[i][0] == '/',
    decreases s.len(),
{
    if s.len() > 0 {
        lemma_first_bad_path_none(s.drop_first());
        if first_bad_path(s) is None {
            assert forall|i: int| 0 <= i < s.len() implies (#[trigger] s[i]).len() > 0 && s[i][0] == '/' by {
                if i > 0 {
                    assert(s[i] == s.drop_first()[i - 1]);
                }
            }
        } else if !bad_path(s[0]) {
            let i = choose|i: int| 0 <= i < s.drop_first().len() && !((#[trigger] s.drop_first()[i]).len() > 0
                && s.drop_first()[i][0] == '/');
            assert(s[i + 1] == s.drop_first()[i]);
        }
    }
}

proof fn lemma_first_bad_domain_none(s: Seq<Seq<char>>)
    ensures
        first_bad_domain(s) is None <==> forall|i: int| 0 <= i < s.len() ==> (#[trigger] s[i]).len() > 0 && !s[i].contains(' '),
    decreases s.len(),
{
    if s.len() > 0 {
        lemma_first_bad_domain_none(s.drop_first());
        if first_bad_domain(s) is None {
            assert forall|i: int| 0 <= i < s.len() implies (#[trigger] s[i]).len() > 0 && !s[i].contains(' ') by {
                if i > 0 {
                    assert(s[i] == s.drop_first()[i - 1]);
                }
            }
        } else if !bad_domain(s[0]) {
            let i = choose|i: int| 0 <= i < s.drop_first().len() && !((#[trigger] s.drop_first()[i]).len() > 0
                && !s.drop_first()[i].contains(' '));
            assert(s[i + 1] == s.drop_first()[i]);
        }
    }
}

/// A manifest passes validation exactly when its agent name is non-empty,
/// its CPU share is from 1 to 100%, its memory is non-zero, every allowed
/// domain is non-empty and without spaces, and every filesystem path, read
/// or write, is absolute (non-empty and starting with `/`).
pub proof fn lemma_manifest_rules(m: AgentManifest)
    ensures
        manifest_violation(m) is None <==> {
            &&& m.agent.name@.len() > 0
            &&& 1 <= m.capabilities.max_cpu_percent <= 100
            &&& m.capabilities.max_memory_mb > 0
            &&& forall|i: int| 0 <= i < m.capabilities.network.allow@.len()
                ==> (#[trigger] m.capabilities.network.allow@[i])@.len() > 0
                && !m.capabilities.network.allow@[i]@.contains(' ')
            &&& forall|i: int| 0 <= i < m.capabilities.filesystem.read@.len()
                ==> (#[trigger] m.capabilities.filesystem.read@[i])@.len() > 0
                && m.capabilities.filesystem.read@[i]@[0] == '/'
            &&& forall|i: int| 0 <= i < m.capabilities.filesystem.write@.len()
                ==> (#[trigger] m.capabilities.filesystem.write@[i])@.len() > 0
                && m.capabilities.filesystem.write@[i]@[0] == '/'
        },
{
    let caps = m.capabilities;
    let d = views(caps.network.allow@);
    let r = views(caps.filesystem.read@);
    let w = views(caps.filesystem.write@);
    lemma_first_bad_domain_none(d);
    lemma_first_bad_path_none(r + w);
    assert forall|i: int| 0 <= i < caps.network.allow@.len() implies d[i] == (#[trigger] caps.network.allow@[i])@ by {}
    assert forall|i: int| 0 <= i < caps.filesystem.read@.len() implies (r + w)[i] == (#[trigger] caps.filesystem.read@[i])@ by {}
    assert forall|i: int| 0 <= i < caps.filesystem.write@.len() implies (r + w)[r.len() + i] == (#[trigger] caps.filesystem.write@[i])@ by {}
    if (forall|i: int| 0 <= i < caps.filesystem.read@.len() ==> (#[trigger] caps.filesystem.read@[i])@.len() > 0
        && caps.filesystem.read@[i]@[0] == '/') && (forall|i: int| 0 <= i < caps.filesystem.write@.len()
        ==> (#[trigger] caps.filesystem.write@[i])@.len() > 0 && caps.filesystem.write@[i]@[0] == '/') {
        assert forall|i: int| 0 <= i < (r + w).len() implies (#[trigger] (r + w)[i]).len() > 0 && (r + w)[i][0] == '/' by {
            if i < r.len() {
                assert(caps.filesystem.read@[i]@ == (r + w)[i]);
            } else {
                assert(caps.filesystem.write@[i - r.len()]@ == (r + w)[i]);
            }
        }
    }
    if forall|i: int| 0 <= i < d.len() ==> (#[trigger] d[i]).len() > 0 && !d[i].contains(' ') {
        assert forall|i: int| 0 <= i < caps.network.allow@.len() implies (#[trigger] caps.network.allow@[i])@.len() > 0
            && !caps.network.allow@[i]@.contains(' ') by {
            assert(d[i] == caps.network.allow@[i]@);
        }
    }
}

/// The first entry of `a` then `b` that is not an absolute path.
fn find_bad_path(a: &Vec<String>, b: &Vec<String>) -> (r: Option<String>)
    ensures
        match r {
            Some(p) => first_bad_path(views(a@) + views(b@)) == Some(p@),
            None => first_bad_path(views(a@) + views(b@)) is None,
        },
{
    proof {
        lemma_first_bad_path_concat(views(a@), views(b@));
    }
    match find_bad_path_in(a) {
        Some(i) => Some(a[i].clone()),
        None => match find_bad_path_in(b) {
            Some(i) => Some(b[i].clone()),
            None => None,
        },
    }
}

/// Check a manifest: the agent name is not empty, `max_cpu_percent` is
/// from 1 to 100, `max_memory_mb` is positive, every `network.allow` domain is
/// non-empty without spaces, and every filesystem path is absolute.
/// Fails with the message of the first check that does not hold.
pub fn validate(manifest: &AgentManifest) -> (r: Result<(), ManifestError>)
    ensures
        match r {
            Ok(()) => manifest_violation(*manifest) is None,
            Err(ManifestError::Validation(msg)) => manifest_violation(*manifest) == Some(msg@),
            Err(_) => false,
        },
        r is Ok <==> {
            &&& manifest.agent.name@.len() > 0
            &&& 1 <= manifest.capabilities.max_cpu_percent <= 100
            &&& manifest.capabilities.max_memory_mb > 0
            &&& forall|i: int| 0 <= i < manifest.capabilities.network.allow@.len()
                ==> (#[trigger] manifest.capabilities.network.allow@[i])@.len() > 0
                && !manifest.capabilities.network.allow@[i]@.contains(' ')
            &&& forall|i: int| 0 <= i < manifest.capabilities.filesystem.read@.len()
                ==> (#[trigger] manifest.capabilities.filesystem.read@[i])@.len() > 0
                && manifest.capabilities.filesystem.read@[i]@[0] == '/'
            &&& forall|i: int| 0 <= i < manifest.capabilities.filesystem.write@.len()
                ==> (#[trigger] manifest.capabilities.filesystem.write@[i])@.len() > 0
                && manifest.capabilities.filesystem.write@[i]@[0] == '/'
        },
{
    proof {
        lemma_manifest_rules(*manifest);
    }
    if manifest.agent.name.as_str().is_empty() {
        return Err(ManifestError::Validation(String::from_str("agent.name cannot be empty")));
    }
    if manifest.capabilities.max_cpu_percent > 100 {
        return Err(ManifestError::Validation(String::from_str("max_cpu_percent cannot exceed 100")));
    }
    if manifest.capabilities.max_cpu_percent == 0 {
        return Err(ManifestError::Validation(String::from_str("max_cpu_percent must be at least 1")));
    }
    if manifest.capabilities.max_memory_mb == 0 {
        return Err(ManifestError::Validation(String::from_str("max_memory_mb must be greater than 0")));
    }
    match find_bad_domain(&manifest.capabilities.network.allow) {
        Some(i) => {
            let mut msg = String::from_str("invalid domain in network.allow: '");
            msg.append(manifest.capabilities.network.allow[i].as_str());
            msg.append("'");
            return Err(ManifestError::Validation(msg));
        },
        None => {},
    }
    match find_bad_path(&manifest.capabilities.filesystem.read, &manifest.capabilities.filesystem.write) {
        Some(p) => {
            let mut msg = String::from_str("filesystem paths must be absolute: '");
            msg.append(p.as_str());
            msg.append("'");
            return Err(ManifestError::Validation(msg));
        },
        None => {},
    }
    Ok(())
}

/// The declared tool of this name, if any.
pub fn tool<'a>(manifest: &'a AgentManifest, name: &str) -> (r: Option<&'a ToolDef>)
    ensures
        match r {
            Some(t) => exists|i: int| 0 <= i < manifest.tools@.len() && manifest.tools@[i].0@ == name@
                && manifest.tools@[i].1 == *t,
            None => forall|i: int| 0 <= i < manifest.tools@.len() ==> manifest.tools@[i].0@ != name@,
        },
{
    let mut i: usize = 0;
    while i < manifest.tools.len()
        invariant
            i <= manifest.tools@.len(),
            forall|j: int| 0 <= j < i ==> manifest.tools@[j].0@ != name@,
        decreases manifest.tools@.len() - i,
    {
        if crate::text::str_eq(manifest.tools[i].0.as_str(), name) {
            return Some(&manifest.tools[i].1);
        }
        i = i + 1;
    }
    None
}

} // verus!
