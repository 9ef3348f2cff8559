//! Transport-independent request handling: plain request and response
//! records, and the computation behind each endpoint. A transport layer
//! (HTTP or otherwise) only converts between these records and the wire.

use crate::addr::ip_chars;
use crate::ippool::{IpAllocation, IpPool, IpPoolError, PoolStats};
use vstd::prelude::*;

verus! {

/// Body of an allocation request.
#[derive(Debug)]
pub struct AllocateIpRequest {
    pub vm_id: String,
    pub hostname: Option<String>,
}

/// Body of a successful allocation response. The hostname is echoed back
/// from the request; it is not recorded in the pool.
#[derive(Debug)]
pub struct AllocateIpResponse {
    pub ip: String,
    pub vm_id: String,
    pub gateway: String,
    pub network: String,
    pub hostname: Option<String>,
}

/// Body of a successful release response.
#[derive(Debug)]
pub struct ReleaseIpResponse {
    pub message: String,
    pub vm_id: Option<String>,
    pub ip: Option<String>,
}

/// Body of the health endpoint's response.
#[derive(Debug)]
pub struct HealthResponse {
    pub status: String,
}

/// The health endpoint: always reports a healthy service.
pub fn health_check() -> (r: HealthResponse)
    ensures
        r.status@ == "healthy"@,
{
    HealthResponse { status: String::from_str("healthy") }
}

/// The allocation endpoint: allocates an address for the requested owner
/// and reports it together with the pool's gateway and network.
pub fn allocate_ip(pool: &mut IpPool, req: AllocateIpRequest) -> (r: Result<
    AllocateIpResponse,
    IpPoolError,
>)
    requires
        old(pool)@.wf(),
    ensures
        final(pool)@.wf(),
        final(pool)@ == old(pool)@.alloc_step(req.vm_id@).0,
        match (r, old(pool)@.alloc_step(req.vm_id@).1) {
            (Result::Ok(resp), Result::Ok(h)) => resp.ip@ == ip_chars(
                old(pool)@.network,
                h as int,
            ) && resp.vm_id@ == req.vm_id@ && resp.gateway@ == old(pool)@.gateway
                && resp.network@ == old(pool)@.network + ".0/24"@ && resp.hostname
                == req.hostname,
            (Result::Err(e), Result::Err(e2)) => e == e2,
            _ => false,
        },
{
    let AllocateIpRequest { vm_id, hostname } = req;
    match pool.allocate_ip(vm_id.clone()) {
        Result::Ok(ip) => {
            let stats = pool.get_stats();
            Ok(
                AllocateIpResponse {
                    ip,
                    vm_id,
                    gateway: stats.gateway,
                    network: stats.network,
                    hostname,
                },
            )
        },
        Result::Err(e) => Err(e),
    }
}

/// The release-by-owner endpoint.
pub fn release_ip(pool: &mut IpPool, vm_id: String) -> (r: Result<ReleaseIpResponse, IpPoolError>)
    requires
        old(pool)@.wf(),
    ensures
        final(pool)@.wf(),
        final(pool)@ == old(pool)@.release_owner_step(vm_id@).0,
        match (r, old(pool)@.release_owner_step(vm_id@).1) {
            (Result::Ok(resp), Result::Ok(_)) => resp.message@ == "IP released successfully"@
                && (resp.vm_id matches Option::Some(x) && x@ == vm_id@) && resp.ip is None,
            (Result::Err(e), Result::Err(e2)) => e == e2,
            _ => false,
        },
{
    match pool.release_ip(vm_id.as_str()) {
        Result::Ok(()) => Ok(
            ReleaseIpResponse {
                message: String::from_str("IP released successfully"),
                vm_id: Some(vm_id),
                ip: None,
            },
        ),
        Result::Err(e) => Err(e),
    }
}

/// The release-by-address endpoint.
pub fn release_ip_by_address(pool: &mut IpPool, ip: String) -> (r: Result<
    ReleaseIpResponse,
    IpPoolError,
>)
    requires
        old(pool)@.wf(),
    ensures
        final(pool)@.wf(),
        final(pool)@ == old(pool)@.release_addr_step(ip@).0,
        match (r, old(pool)@.release_addr_step(ip@).1) {
            (Result::Ok(resp), Result::Ok(_)) => resp.message@ == "IP released successfully"@
                && (resp.ip matches Option::Some(x) && x@ == ip@) && resp.vm_id is None,
            (Result::Err(e), Result::Err(e2)) => e == e2,
            _ => false,
        },
{
    match pool.release_ip_by_address(ip.as_str()) {
        Result::Ok(()) => Ok(
            ReleaseIpResponse {
                message: String::from_str("IP released successfully"),
                vm_id: None,
                ip: Some(ip),
            },
        ),
        Result::Err(e) => Err(e),
    }
}

/// The lookup endpoint.
pub fn get_allocation(pool: &IpPool, vm_id: &str) -> (r: Result<IpAllocation, IpPoolError>)
    requires
        pool@.wf(),
    ensures
        match r {
            Result::Ok(a) => pool@.has_owner(vm_id@) && a.vm_id@ == vm_id@ && a.ip@ == ip_chars(
                pool@.network,
                pool@.host_of(vm_id@) as int,
            ) && a.hostname is None,
            Result::Err(e) => e == IpPoolError::IpNotFound && !pool@.has_owner(vm_id@),
        },
{
    pool.get_allocation(vm_id)
}

/// The listing endpoint.
pub fn list_allocations(pool: &IpPool) -> (r: Vec<IpAllocation>)
    ensures
        r@.len() == pool@.allocs.len(),
        forall|k: int|
            0 <= k < r@.len() ==> (#[trigger] r@[k]).vm_id@ == pool@.allocs[k].owner && r@[k].ip@
                == ip_chars(pool@.network, pool@.allocs[k].host as int) && r@[k].hostname is None,
{
    pool.list_allocations()
}

/// The statistics endpoint.
pub fn get_stats(pool: &IpPool) -> (r: PoolStats)
    requires
        pool@.wf(),
    ensures
        r.total as int == pool@.total(),
        r.allocated == pool@.allocs.len(),
        r.available == pool@.free.len(),
        r.network@ == pool@.network + ".0/24"@,
        r.gateway@ == pool@.gateway,
{
    pool.get_stats()
}

} // verus!
