//! Where the process-count limit of a command run as root is set up.
use vstd::prelude::*;
use vstd::string::*;
use crate::text::{decimal, push_decimal};

verus! {

broadcast use vstd::string::group_string_axioms;

/// The root of the cgroup v2 hierarchy.
pub const CGROUP_ROOT: &'static str = "/sys/fs/cgroup";

/// The cgroup under which every command that lksu runs gets a cgroup of its own.
pub const CGROUP_PARENT: &'static str = "/sys/fs/cgroup/lksu.slice";

/// The cgroup of the lksu process `pid`: `lksu-<pid>` under `CGROUP_PARENT`.
pub fn cgroup_leaf(pid: u32) -> (path: String)
    ensures
        path@ == "/sys/fs/cgroup/lksu.slice/lksu-"@ + decimal(pid as nat),
{
    let mut path = "/sys/fs/cgroup/lksu.slice/lksu-".to_string();
    push_decimal(&mut path, pid);
    path
}

} // verus!
