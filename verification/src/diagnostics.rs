//! Runtime diagnostic configuration.

use vstd::prelude::*;

verus! {

pub const RUST_BACKTRACE_ENV_KEY: &'static str = "RUST_BACKTRACE";

pub const RUST_BACKTRACE_ENV_VALUE: &'static str = "1";

/// The environment variable (name and value) that turns on panic backtraces.
pub fn rust_backtrace_env() -> (r: (&'static str, &'static str))
    ensures
        r.0@ == "RUST_BACKTRACE"@,
        r.1@ == "1"@,
{
    ("RUST_BACKTRACE", "1")
}

} // verus!
