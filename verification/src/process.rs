//! The process-facing native module: the export set it declares, and the
//! high-resolution-time arithmetic on an elapsed nanosecond count. The
//! platform reads themselves (working directory, architecture, platform
//! name, the monotonic clock) are thin host accessors that hand these
//! functions plain values and pass their results on to the guest.

use vstd::prelude::*;

verus! {

/// Nanoseconds per second: the split base of the guest-facing `hrtime`.
pub const NANOS_PER_SEC: u64 = 1_000_000_000;

/// Splits an elapsed nanosecond count into whole seconds and the
/// nanoseconds remaining, exactly as `hrtime` reports the pair.
pub fn hr_time_parts(elapsed_nanos: u64) -> (r: (u64, u64))
    ensures
        r.0 == elapsed_nanos / 1_000_000_000,
        r.1 == elapsed_nanos % 1_000_000_000,
        r.1 < 1_000_000_000,
        r.0 * 1_000_000_000 + r.1 == elapsed_nanos,
{
    let seconds = elapsed_nanos / NANOS_PER_SEC;
    let remaining_nanos = elapsed_nanos % NANOS_PER_SEC;
    (seconds, remaining_nanos)
}

/// The `process` native module, as the host registry binds it; its export
/// set is fixed at declaration.
pub struct ProcessModule;

impl ProcessModule {
    /// The names the module declares, in declaration order.
    pub fn declare() -> (names: Vec<String>)
        ensures
            names@.len() == 8,
            names@[0]@ == "argv"@,
            names@[1]@ == "env"@,
            names@[2]@ == "cwd"@,
            names@[3]@ == "arch"@,
            names@[4]@ == "platform"@,
            names@[5]@ == "hrtime"@,
            names@[6]@ == "exit"@,
            names@[7]@ == "default"@,
    {
        let mut names: Vec<String> = Vec::new();
        names.push(String::from_str("argv"));
        names.push(String::from_str("env"));
        names.push(String::from_str("cwd"));
        names.push(String::from_str("arch"));
        names.push(String::from_str("platform"));
        names.push(String::from_str("hrtime"));
        names.push(String::from_str("exit"));
        names.push(String::from_str("default"));
        names
    }
}

} // verus!
