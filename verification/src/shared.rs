//! A shared, lock-guarded pool: one exclusive-writer lock over the whole
//! state aggregate, so that the free list and the allocation table always
//! change together. Mutating operations take the write lock; read-only
//! operations take a read lock. The lock's predicate carries the pool's
//! well-formedness and its fixed configuration, so every acquisition sees a
//! well-formed pool with the configured network and gateway.

use crate::addr::{ip_chars, valid_for_network};
use crate::ippool::{IpAllocation, IpPool, IpPoolError, PoolStats};
use crate::laws::lemma_pool_counts;
use vstd::prelude::*;
use vstd::rwlock::RwLock;

verus! {

/// A pool shared among concurrent callers behind a reader-writer lock.
pub struct SharedIpPool {
    pub config: Ghost<(Seq<char>, Seq<char>)>,
    pub lock: RwLock<IpPool, spec_fn(IpPool) -> bool>,
}

impl SharedIpPool {
    /// The configured network prefix.
    pub open spec fn network(self) -> Seq<char> {
        self.config@.0
    }

    /// The configured gateway address.
    pub open spec fn gateway(self) -> Seq<char> {
        self.config@.1
    }

    /// The lock holds exactly the well-formed pools with this configuration.
    pub open spec fn wf(self) -> bool {
        forall|p: IpPool| #[trigger]
            self.lock.inv(p) <==> (p@.wf() && p@.network == self.network() && p@.gateway
                == self.gateway())
    }

    /// Creates a shared pool over the default host range, all free.
    pub fn new(network: String, gateway: String) -> (s: Self)
        ensures
            s.wf(),
            s.network() == network@,
            s.gateway() == gateway@,
    {
        let ghost net = network@;
        let ghost gw = gateway@;
        let pool = IpPool::new(network, gateway);
        let ghost pred: spec_fn(IpPool) -> bool = |p: IpPool|
            p@.wf() && p@.network == net && p@.gateway == gw;
        let lock = RwLock::new(pool, Ghost(pred));
        SharedIpPool { config: Ghost((net, gw)), lock }
    }

    /// Allocates an address for `vm_id` under the write lock. Any address
    /// handed out is an address string of this pool's network; the only
    /// failure is an exhausted pool.
    pub fn allocate_ip(&self, vm_id: String) -> (r: Result<String, IpPoolError>)
        requires
            self.wf(),
        ensures
            r matches Result::Ok(ip) ==> exists|h: u8|
                ip@ == ip_chars(self.network(), h as int),
            r matches Result::Err(e) ==> e == IpPoolError::NoAvailableIps,
    {
        let (mut pool, handle) = self.lock.acquire_write();
        let ghost v0 = pool@;
        let ghost owner = vm_id@;
        let r = pool.allocate_ip(vm_id);
        proof {
            if r is Ok {
                match v0.alloc_step(owner).1 {
                    Result::Ok(h) => {
                        assert(r matches Result::Ok(ip) ==> ip@ == ip_chars(
                            self.network(),
                            h as int,
                        ));
                    },
                    Result::Err(e) => {
                        assert(false);
                    },
                }
            }
        }
        handle.release_write(pool);
        r
    }

    /// Releases the address held by `vm_id` under the write lock.
    pub fn release_ip(&self, vm_id: &str) -> (r: Result<(), IpPoolError>)
        requires
            self.wf(),
        ensures
            r matches Result::Err(e) ==> e == IpPoolError::IpNotFound,
    {
        let (mut pool, handle) = self.lock.acquire_write();
        let r = pool.release_ip(vm_id);
        handle.release_write(pool);
        r
    }

    /// Releases an address directly under the write lock. The address is
    /// rejected as invalid exactly when it is not a well-formed IPv4 literal
    /// under this pool's network, whatever the pool's state.
    pub fn release_ip_by_address(&self, ip: &str) -> (r: Result<(), IpPoolError>)
        requires
            self.wf(),
        ensures
            r == Result::<(), IpPoolError>::Err(IpPoolError::InvalidIp) <==> !valid_for_network(
                self.network(),
                ip@,
            ),
            r matches Result::Err(e) ==> e == IpPoolError::InvalidIp || e
                == IpPoolError::IpNotFound,
    {
        let (mut pool, handle) = self.lock.acquire_write();
        let r = pool.release_ip_by_address(ip);
        handle.release_write(pool);
        r
    }

    /// Reports the allocation held by `vm_id` under a read lock.
    pub fn get_allocation(&self, vm_id: &str) -> (r: Result<IpAllocation, IpPoolError>)
        requires
            self.wf(),
        ensures
            r matches Result::Ok(a) ==> a.vm_id@ == vm_id@ && a.hostname is None && exists|h: u8|
                a.ip@ == ip_chars(self.network(), h as int),
            r matches Result::Err(e) ==> e == IpPoolError::IpNotFound,
    {
        let read_handle = self.lock.acquire_read();
        let pool = read_handle.borrow();
        let r = pool.get_allocation(vm_id);
        proof {
            if r is Ok {
                assert(r matches Result::Ok(a) ==> a.ip@ == ip_chars(
                    self.network(),
                    pool@.host_of(vm_id@) as int,
                ));
            }
        }
        read_handle.release_read();
        r
    }

    /// A snapshot of all current allocations, under a read lock.
    pub fn list_allocations(&self) -> (r: Vec<IpAllocation>)
        requires
            self.wf(),
        ensures
            forall|k: int|
                0 <= k < r@.len() ==> (#[trigger] r@[k]).hostname is None && exists|h: u8|
                    r@[k].ip@ == ip_chars(self.network(), h as int),
    {
        let read_handle = self.lock.acquire_read();
        let pool = read_handle.borrow();
        let r = pool.list_allocations();
        proof {
            assert forall|k: int| 0 <= k < r@.len() implies (#[trigger] r@[k]).hostname is None
                && exists|h: u8| r@[k].ip@ == ip_chars(self.network(), h as int) by {
                assert(r@[k].ip@ == ip_chars(self.network(), pool@.allocs[k].host as int));
            }
        }
        read_handle.release_read();
        r
    }

    /// A snapshot of the pool counters, under a read lock. The counters
    /// always add up: `available` is `total` minus `allocated`.
    pub fn get_stats(&self) -> (r: PoolStats)
        requires
            self.wf(),
        ensures
            r.allocated + r.available == r.total,
            r.network@ == self.network() + ".0/24"@,
            r.gateway@ == self.gateway(),
    {
        let read_handle = self.lock.acquire_read();
        let pool = read_handle.borrow();
        let r = pool.get_stats();
        proof {
            lemma_pool_counts(pool@);
        }
        read_handle.release_read();
        r
    }

    /// Clears all allocations under the write lock.
    pub fn clear(&self)
        requires
            self.wf(),
    {
        let (mut pool, handle) = self.lock.acquire_write();
        pool.clear();
        handle.release_write(pool);
    }

    /// The configured network prefix, under a read lock.
    pub fn get_network(&self) -> (r: String)
        requires
            self.wf(),
        ensures
            r@ == self.network(),
    {
        let read_handle = self.lock.acquire_read();
        let pool = read_handle.borrow();
        let r = pool.get_network();
        read_handle.release_read();
        r
    }

    /// The configured gateway address, under a read lock.
    pub fn get_gateway(&self) -> (r: String)
        requires
            self.wf(),
        ensures
            r@ == self.gateway(),
    {
        let read_handle = self.lock.acquire_read();
        let pool = read_handle.borrow();
        let r = pool.get_gateway();
        read_handle.release_read();
        r
    }
}

} // verus!
