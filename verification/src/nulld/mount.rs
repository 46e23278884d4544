//! The virtual filesystems nulld mounts at boot, in order, and the
//! directories it creates under the writable mounts.
//!
//! Performing the mounts and creating directories happen at the program's
//! edge; this module holds the table.
use vstd::prelude::*;

verus! {

/// Do not honour set-user-ID and set-group-ID bits.
pub const MS_NOSUID: u64 = 2;
/// Do not allow access to device files.
pub const MS_NODEV: u64 = 4;
/// Do not allow programs to be executed.
pub const MS_NOEXEC: u64 = 8;

/// One filesystem to mount.
#[derive(Debug)]
pub struct MountEntry {
    pub source: &'static str,
    pub target: &'static str,
    pub fstype: &'static str,
    /// Bitwise union of the `MS_*` flags.
    pub flags: u64,
    pub data: Option<&'static str>,
}

/// The mounts in order, as (source, target, fstype, flags, data).
pub open spec fn mount_plan() -> Seq<(Seq<char>, Seq<char>, Seq<char>, u64, Option<Seq<char>>)> {
    seq![
        ("proc"@, "/proc"@, "proc"@, 14u64, None),
        ("sysfs"@, "/sys"@, "sysfs"@, 14u64, None),
        ("devtmpfs"@, "/dev"@, "devtmpfs"@, 2u64, Some("mode=0755"@)),
        ("devpts"@, "/dev/pts"@, "devpts"@, 10u64, Some("mode=0620,ptmxmode=0666"@)),
        ("tmpfs"@, "/dev/shm"@, "tmpfs"@, 6u64, Some("mode=1777"@)),
        ("tmpfs"@, "/tmp"@, "tmpfs"@, 14u64, Some("mode=1777,size=256m"@)),
        ("tmpfs"@, "/run"@, "tmpfs"@, 14u64, Some("mode=0755,size=64m"@)),
        ("tmpfs"@, "/var"@, "tmpfs"@, 6u64, Some("mode=0755,size=512m"@)),
    ]
}

/// An entry as a plain tuple.
pub open spec fn entry_view(e: MountEntry) -> (Seq<char>, Seq<char>, Seq<char>, u64, Option<Seq<char>>) {
    (e.source@, e.target@, e.fstype@, e.flags, match e.data {
        Some(d) => Some(d@),
        None => None,
    })
}

fn entry(
    source: &'static str,
    target: &'static str,
    fstype: &'static str,
    flags: u64,
    data: Option<&'static str>,
) -> (e: MountEntry)
    ensures
        e.source == source,
        e.target == target,
        e.fstype == fstype,
        e.flags == flags,
        e.data == data,
{
    MountEntry { source, target, fstype, flags, data }
}

/// All mounts required for userspace, in order: procfs, sysfs, devtmpfs,
/// devpts, and tmpfs for `/dev/shm`, `/tmp`, `/run` and `/var`.
pub fn mount_table() -> (t: Vec<MountEntry>)
    ensures
        t@.map_values(|e: MountEntry| entry_view(e)) == mount_plan(),
{
    let mut t: Vec<MountEntry> = Vec::new();
    t.push(entry("proc", "/proc", "proc", MS_NOSUID | MS_NODEV | MS_NOEXEC, None));
    t.push(entry("sysfs", "/sys", "sysfs", MS_NOSUID | MS_NODEV | MS_NOEXEC, None));
    t.push(entry("devtmpfs", "/dev", "devtmpfs", MS_NOSUID, Some("mode=0755")));
    t.push(entry("devpts", "/dev/pts", "devpts", MS_NOSUID | MS_NOEXEC, Some("mode=0620,ptmxmode=0666")));
    t.push(entry("tmpfs", "/dev/shm", "tmpfs", MS_NOSUID | MS_NODEV, Some("mode=1777")));
    t.push(entry("tmpfs", "/tmp", "tmpfs", MS_NOSUID | MS_NODEV | MS_NOEXEC, Some("mode=1777,size=256m")));
    t.push(entry("tmpfs", "/run", "tmpfs", MS_NOSUID | MS_NODEV | MS_NOEXEC, Some("mode=0755,size=64m")));
    t.push(entry("tmpfs", "/var", "tmpfs", MS_NOSUID | MS_NODEV, Some("mode=0755,size=512m")));
    proof {
        assert(MS_NOSUID | MS_NODEV | MS_NOEXEC == 14u64) by (bit_vector);
        assert(MS_NOSUID | MS_NOEXEC == 10u64) by (bit_vector);
        assert(MS_NOSUID | MS_NODEV == 6u64) by (bit_vector);
        assert(t@.map_values(|e: MountEntry| entry_view(e)) =~= mount_plan());
    }
    t
}

/// `a` is a directory strictly above `b`.
pub open spec fn is_ancestor_dir(a: Seq<char>, b: Seq<char>) -> bool {
    a.len() < b.len() && b.take(a.len() as int) == a && b[a.len() as int] == '/'
}

/// Every mount target is an absolute path, and a target is mounted after
/// any target that lies above it (so `/dev` precedes `/dev/pts` and
/// `/dev/shm`, and `/proc` precedes `/sys`).
pub proof fn lemma_mount_plan_well_ordered()
    ensures
        forall|i: int| 0 <= i < mount_plan().len() ==> (#[trigger] mount_plan()[i]).1.len() > 0
            && mount_plan()[i].1[0] == '/',
        forall|i: int, j: int| 0 <= i < mount_plan().len() && 0 <= j < mount_plan().len()
            && is_ancestor_dir(#[trigger] mount_plan()[i].1, #[trigger] mount_plan()[j].1) ==> i < j,
        mount_plan()[0].1 == "/proc"@ && mount_plan()[1].1 == "/sys"@,
{
    reveal_strlit("/proc");
    reveal_strlit("/sys");
    reveal_strlit("/dev");
    reveal_strlit("/dev/pts");
    reveal_strlit("/dev/shm");
    reveal_strlit("/tmp");
    reveal_strlit("/run");
    reveal_strlit("/var");
    let p = mount_plan();
    assert forall|i: int, j: int| 0 <= i < p.len() && 0 <= j < p.len() && is_ancestor_dir(
        #[trigger] p[i].1,
        #[trigger] p[j].1,
    ) implies i < j by {
        let a = p[i].1;
        let b = p[j].1;
        assert(b.take(a.len() as int)[1] == b[1]);
        assert(b.take(a.len() as int)[a.len() - 1] == b[a.len() - 1]);
    }
}

/// Directories created after mounting, under the writable mounts.
pub fn var_dirs() -> (dirs: Vec<&'static str>)
    ensures
        dirs@.map_values(|d: &'static str| d@) == seq![
            "/var/log"@,
            "/var/run"@,
            "/var/run/ctxgraph"@,
            "/var/lib"@,
            "/var/lib/ctxgraph"@,
            "/agent"@,
        ],
{
    let mut dirs: Vec<&'static str> = Vec::new();
    dirs.push("/var/log");
    dirs.push("/var/run");
    dirs.push("/var/run/ctxgraph");
    dirs.push("/var/lib");
    dirs.push("/var/lib/ctxgraph");
    dirs.push("/agent");
    proof {
        assert(dirs@.map_values(|d: &'static str| d@) =~= seq![
            "/var/log"@,
            "/var/run"@,
            "/var/run/ctxgraph"@,
            "/var/lib"@,
            "/var/lib/ctxgraph"@,
            "/agent"@,
        ]);
    }
    dirs
}

} // verus!
