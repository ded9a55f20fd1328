use vstd::prelude::*;

pub mod auth;
pub mod clock;
pub mod endpoints;
pub mod ingest;
pub mod metrics;
pub mod protocol;
pub mod query;
pub mod rows;
pub mod sampling;
pub mod sanitize;
pub mod server;
pub mod source;
pub mod text;

verus! {

/// Name of this server component.
pub fn placeholder() -> (name: &'static str)
    ensures
        name@ == "railspan-server"@,
{
    "railspan-server"
}

} // verus!
