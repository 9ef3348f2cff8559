//! In-memory IPv4 address pool: hands out addresses from a fixed /24-sized
//! range to owners identified by a virtual-machine id, and reclaims them on
//! release.

pub mod addr;
pub mod handlers;
pub mod ippool;
pub mod laws;
pub mod shared;

pub use handlers::{AllocateIpRequest, AllocateIpResponse, HealthResponse, ReleaseIpResponse};
pub use ippool::{IpAllocation, IpPool, IpPoolError, PoolStats};
pub use shared::SharedIpPool;
