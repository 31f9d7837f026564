pub mod hashmap;
pub mod line;
pub mod schema;
pub mod sysctl;
pub mod text;
pub mod validator;

pub use hashmap::{SysctlParameterHashMap, SysctlParameterValue};

use vstd::prelude::*;

verus! {

/// Reads a sysctl document (`token.path = value` per line) into a hierarchical map, with
/// the same result and the same messages as `sysctl::parse_str`.
pub fn parse_sysctl_conf_str(sysctl_conf: &str) -> (r: Result<SysctlParameterHashMap, String>)
    ensures
        sysctl::parsed(sysctl_conf@, r),
{
    sysctl::parse_str(sysctl_conf)
}

} // verus!
