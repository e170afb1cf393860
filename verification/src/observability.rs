//! What log lines say of the server and of time.

use crate::identity::{generated_instance_id, unhyphenated};
use vstd::prelude::*;

verus! {

/// The name of the service in its log lines.
pub const SERVICE_NAME: &'static str = "nbd-server";

/// The identity of a running server. It is made once.
#[derive(Debug)]
pub struct ServerInstance {
    id: String,
}

impl ServerInstance {
    pub closed spec fn identity(&self) -> Seq<char> {
        self.id@
    }

    pub fn new() -> (instance: Self)
        ensures
            unhyphenated(instance.identity()),
    {
        Self { id: generated_instance_id() }
    }

    pub fn server_instance_id(&self) -> (id: &str)
        ensures
            id@ == self.identity(),
    {
        self.id.as_str()
    }
}

/// The whole milliseconds in a duration.
pub open spec fn whole_milliseconds(seconds: nat, nanoseconds: nat) -> nat {
    (seconds * 1000000000 + nanoseconds) / 1000000
}

/// The whole milliseconds of a duration that is given by its seconds and the nanoseconds beyond
/// them.
pub fn duration_ms(seconds: u64, subsec_nanos: u32) -> (milliseconds: u128)
    ensures
        milliseconds == whole_milliseconds(seconds as nat, subsec_nanos as nat),
{
    seconds as u128 * 1000 + (subsec_nanos / 1000000) as u128
}

/// The milliseconds of a duration are those that have passed: no more, and not one fewer.
pub proof fn law_no_millisecond_is_lost(seconds: nat, nanoseconds: nat)
    ensures
        whole_milliseconds(seconds, nanoseconds) * 1000000 <= seconds * 1000000000 + nanoseconds
            < (whole_milliseconds(seconds, nanoseconds) + 1) * 1000000,
        whole_milliseconds(seconds + 1, nanoseconds) == whole_milliseconds(seconds, nanoseconds)
            + 1000,
{
}

} // verus!
