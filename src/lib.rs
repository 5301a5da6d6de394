//! A client-side connection pool: requests are spread over connections to
//! the endpoints of a service whose address set changes over time.
//! Connections are opened lazily, a bounded number per endpoint, endpoints
//! that fail to connect are blacklisted for a randomized backoff, and
//! connections to endpoints that left the address set are retired.
use vstd::prelude::*;

pub mod endpoint;
mod addr_map;
pub mod blacklist;
pub mod aligner;
mod random;
pub mod counting;
pub mod uniform;
pub mod config;
pub mod metrics;
pub mod error_log;
pub mod queue;

pub use config::pool_for;

verus! {

} // verus!
