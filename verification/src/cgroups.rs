//! Where a workload's cgroup lives and what is written to its control files.

use vstd::prelude::*;
use crate::text::{chars_of, decimal, spec_decimal};

verus! {

/// `rel` appended to `base` as a path (`Path::join` on Unix): an absolute `rel` replaces
/// `base`; otherwise a `/` separates them unless `base` is empty or already ends in one.
pub open spec fn spec_join(base: Seq<char>, rel: Seq<char>) -> Seq<char> {
    if rel.len() > 0 && rel[0] == '/' {
        rel
    } else if base.len() == 0 || base.last() == '/' {
        base + rel
    } else {
        base + "/"@ + rel
    }
}

/// Joins two paths.
pub fn join_path(base: &str, rel: &str) -> (r: String)
    ensures
        r@ == spec_join(base@, rel@),
{
    let b = chars_of(base);
    let r = chars_of(rel);
    if r.len() > 0 && r[0] == '/' {
        String::from_str(rel)
    } else if b.len() == 0 || b[b.len() - 1] == '/' {
        String::from_str(base).concat(rel)
    } else {
        String::from_str(base).concat("/").concat(rel)
    }
}

/// The cgroup directory of workload `name`.
pub open spec fn spec_cgroup_path(name: Seq<char>) -> Seq<char> {
    spec_join("/sys/fs/cgroup"@, name)
}

/// The cgroup directory of workload `name`, under `/sys/fs/cgroup`.
pub fn cgroup_path(name: &str) -> (r: String)
    ensures
        r@ == spec_cgroup_path(name@),
{
    join_path("/sys/fs/cgroup", name)
}

/// The control file `file` of workload `name`'s cgroup.
pub fn cgroup_file(name: &str, file: &str) -> (r: String)
    ensures
        r@ == spec_join(spec_cgroup_path(name@), file@),
{
    let dir = cgroup_path(name);
    join_path(dir.as_str(), file)
}

/// The CPU scheduling period, in microseconds.
pub const CPU_PERIOD: u64 = 100000;

/// What `cpu.max` receives for a quota (microseconds per period): `max` when the quota is
/// zero, else the quota; then the period.
pub open spec fn spec_cpu_max(quota: u64) -> Seq<char> {
    if quota == 0 {
        "max 100000"@
    } else {
        spec_decimal(quota as nat) + " "@ + spec_decimal(CPU_PERIOD as nat)
    }
}

/// The content of `cpu.max` for a quota.
pub fn cpu_max_content(quota: u64) -> (r: String)
    ensures
        r@ == spec_cpu_max(quota),
{
    if quota == 0 {
        String::from_str("max 100000")
    } else {
        decimal(quota).concat(" ").concat(decimal(CPU_PERIOD).as_str())
    }
}

} // verus!
