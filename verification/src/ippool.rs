//! The allocator state machine: a pool of host numbers in a fixed range,
//! each either free or allocated to exactly one owner.

use crate::addr::{
    ip_chars, ip_string, is_valid_ip, parse_dec, parse_host, str_eq, valid_for_network,
};
use vstd::prelude::*;

verus! {

/// Errors returned by the pool operations.
#[derive(Debug, Clone, PartialEq, Eq)]
pub enum IpPoolError {
    NoAvailableIps,
    IpNotFound,
    InvalidIp,
}

impl IpPoolError {
    /// A human-readable description of the error.
    pub fn message(&self) -> (r: String)
        ensures
            self is NoAvailableIps ==> r@ == "no available IPs in pool"@,
            self is IpNotFound ==> r@ == "IP not found in allocations"@,
            self is InvalidIp ==> r@ == "invalid IP address"@,
    {
        match self {
            IpPoolError::NoAvailableIps => String::from_str("no available IPs in pool"),
            IpPoolError::IpNotFound => String::from_str("IP not found in allocations"),
            IpPoolError::InvalidIp => String::from_str("invalid IP address"),
        }
    }
}

/// One active allocation, as reported to callers.
#[derive(Debug, Clone)]
pub struct IpAllocation {
    pub ip: String,
    pub vm_id: String,
    pub hostname: Option<String>,
}

/// A snapshot of the pool counters.
#[derive(Debug, Clone)]
pub struct PoolStats {
    pub network: String,
    pub gateway: String,
    pub total: usize,
    pub allocated: usize,
    pub available: usize,
}

/// One internal allocation record: an owner and the host number it holds.
#[derive(Debug, Clone)]
pub struct Entry {
    pub vm_id: String,
    pub host: u8,
}

/// The pool: a network prefix, a gateway, an inclusive host-number range,
/// the free host numbers in ascending order, and the active allocations.
#[derive(Debug, Clone)]
pub struct IpPool {
    pub network: String,
    pub gateway: String,
    pub start: u8,
    pub end: u8,
    pub free: Vec<u8>,
    pub entries: Vec<Entry>,
}

/// The mathematical image of one allocation.
#[verifier::ext_equal]
pub ghost struct AllocView {
    pub owner: Seq<char>,
    pub host: u8,
}

/// The mathematical image of the whole pool.
#[verifier::ext_equal]
pub ghost struct PoolView {
    pub network: Seq<char>,
    pub gateway: Seq<char>,
    pub start: u8,
    pub end: u8,
    pub free: Seq<u8>,
    pub allocs: Seq<AllocView>,
}

impl View for IpPool {
    type V = PoolView;

    open spec fn view(&self) -> PoolView {
        PoolView {
            network: self.network@,
            gateway: self.gateway@,
            start: self.start,
            end: self.end,
            free: self.free@,
            allocs: self.entries@.map_values(
                |e: Entry| AllocView { owner: e.vm_id@, host: e.host },
            ),
        }
    }
}

/// Strictly ascending sequence of host numbers.
pub open spec fn ascending(s: Seq<u8>) -> bool {
    forall|j: int, k: int| 0 <= j < k < s.len() ==> s[j] < s[k]
}

/// Inserts a host number into an ascending sequence, keeping the order.
pub open spec fn insert_free(s: Seq<u8>, h: u8) -> Seq<u8>
    decreases s.len(),
{
    if s.len() == 0 {
        seq![h]
    } else if h < s[0] {
        seq![h] + s
    } else {
        seq![s[0]] + insert_free(s.drop_first(), h)
    }
}

/// The full free list of a range: every host number from `start` to `end`.
pub open spec fn range_seq(start: u8, end: u8) -> Seq<u8> {
    Seq::new((end - start + 1) as nat, |i: int| (start + i) as u8)
}

impl PoolView {
    /// The fixed size of the configured range.
    pub open spec fn total(self) -> int {
        self.end - self.start + 1
    }

    /// The host number lies in the configured range.
    pub open spec fn in_range(self, h: u8) -> bool {
        self.start <= h <= self.end
    }

    /// Some allocation belongs to this owner.
    pub open spec fn has_owner(self, o: Seq<char>) -> bool {
        exists|j: int| 0 <= j < self.allocs.len() && self.allocs[j].owner == o
    }

    /// The index of this owner's allocation.
    pub open spec fn owner_index(self, o: Seq<char>) -> int {
        choose|j: int| 0 <= j < self.allocs.len() && self.allocs[j].owner == o
    }

    /// The host number this owner holds.
    pub open spec fn host_of(self, o: Seq<char>) -> u8 {
        self.allocs[self.owner_index(o)].host
    }

    /// Some allocation holds this host number.
    pub open spec fn has_host(self, h: u8) -> bool {
        exists|j: int| 0 <= j < self.allocs.len() && self.allocs[j].host == h
    }

    /// The index of the allocation holding this host number.
    pub open spec fn host_index(self, h: u8) -> int {
        choose|j: int| 0 <= j < self.allocs.len() && self.allocs[j].host == h
    }

    /// The owner holding this host number.
    pub open spec fn owner_of(self, h: u8) -> Seq<char> {
        self.allocs[self.host_index(h)].owner
    }

    /// The owner-to-address mapping induced by the allocations.
    pub open spec fn owner_map(self) -> Map<Seq<char>, u8> {
        Map::new(|o: Seq<char>| self.has_owner(o), |o: Seq<char>| self.host_of(o))
    }

    /// The address-to-owner mapping induced by the allocations.
    pub open spec fn host_map(self) -> Map<u8, Seq<char>> {
        Map::new(|h: u8| self.has_host(h), |h: u8| self.owner_of(h))
    }

    /// Well-formedness: the free list is ascending and in range, owners and
    /// host numbers are unique, no host number is both free and allocated,
    /// and every host number of the range is one of the two.
    pub open spec fn wf(self) -> bool {
        &&& self.start <= self.end
        &&& ascending(self.free)
        &&& forall|j: int| 0 <= j < self.free.len() ==> self.in_range(#[trigger] self.free[j])
        &&& forall|j: int|
            0 <= j < self.allocs.len() ==> self.in_range(#[trigger] self.allocs[j].host)
        &&& forall|j: int, k: int|
            0 <= j < k < self.allocs.len()
                ==> #[trigger] self.allocs[j].owner != #[trigger] self.allocs[k].owner
        &&& forall|j: int, k: int|
            0 <= j < k < self.allocs.len()
                ==> #[trigger] self.allocs[j].host != #[trigger] self.allocs[k].host
        &&& forall|j: int, k: int|
            0 <= j < self.free.len() && 0 <= k < self.allocs.len()
                ==> #[trigger] self.free[j] != #[trigger] self.allocs[k].host
        &&& forall|h: u8| #[trigger]
            self.in_range(h) ==> self.free.contains(h) || self.has_host(h)
    }

    /// What `allocate` does: an owner that already holds an address gets it
    /// again and nothing changes; otherwise the lowest free host number, if
    /// any, moves from the free list to a new allocation.
    pub open spec fn alloc_step(self, owner: Seq<char>) -> (PoolView, Result<u8, IpPoolError>) {
        if self.has_owner(owner) {
            (self, Ok(self.host_of(owner)))
        } else if self.free.len() == 0 {
            (self, Err(IpPoolError::NoAvailableIps))
        } else {
            (
                PoolView {
                    free: self.free.drop_first(),
                    allocs: self.allocs.push(AllocView { owner, host: self.free[0] }),
                    ..self
                },
                Ok(self.free[0]),
            )
        }
    }

    /// What `release` by owner does: the owner's allocation, if any, is
    /// removed and its host number returns to the free list.
    pub open spec fn release_owner_step(self, owner: Seq<char>) -> (
        PoolView,
        Result<(), IpPoolError>,
    ) {
        if self.has_owner(owner) {
            let j = self.owner_index(owner);
            (
                PoolView {
                    free: insert_free(self.free, self.allocs[j].host),
                    allocs: self.allocs.remove(j),
                    ..self
                },
                Ok(()),
            )
        } else {
            (self, Err(IpPoolError::IpNotFound))
        }
    }

    /// What `release` by address does: an address that is not a well-formed
    /// IPv4 literal under this network is rejected; an address that is not
    /// allocated is not found; otherwise its allocation is removed.
    pub open spec fn release_addr_step(self, ip: Seq<char>) -> (PoolView, Result<(), IpPoolError>) {
        if !valid_for_network(self.network, ip) {
            (self, Err(IpPoolError::InvalidIp))
        } else {
            match parse_dec(ip.skip(self.network.len() as int + 1)) {
                Option::Some(v) => if 0 <= v <= 255 && self.has_host(v as u8) {
                    let j = self.host_index(v as u8);
                    (
                        PoolView {
                            free: insert_free(self.free, v as u8),
                            allocs: self.allocs.remove(j),
                            ..self
                        },
                        Ok(()),
                    )
                } else {
                    (self, Err(IpPoolError::IpNotFound))
                },
                Option::None => (self, Err(IpPoolError::IpNotFound)),
            }
        }
    }

    /// What `clear` does: all allocations vanish and the free list is the
    /// full range again.
    pub open spec fn reset_step(self) -> PoolView {
        PoolView { free: range_seq(self.start, self.end), allocs: Seq::empty(), ..self }
    }
}

/// An allocation index determines the owner lookup: with distinct owners,
/// the chosen index for an owner found at `j` is `j` itself.
pub proof fn lemma_owner_index_is(v: PoolView, j: int)
    requires
        v.wf(),
        0 <= j < v.allocs.len(),
    ensures
        v.has_owner(v.allocs[j].owner),
        v.owner_index(v.allocs[j].owner) == j,
        v.host_of(v.allocs[j].owner) == v.allocs[j].host,
{
    let o = v.allocs[j].owner;
    assert(v.has_owner(o));
    let k = v.owner_index(o);
    assert(0 <= k < v.allocs.len() && v.allocs[k].owner == o);
    if k < j {
        assert(v.allocs[k].owner != v.allocs[j].owner);
    } else if j < k {
        assert(v.allocs[j].owner != v.allocs[k].owner);
    }
}

/// An allocation index determines the host lookup: with distinct host
/// numbers, the chosen index for a host found at `j` is `j` itself.
pub proof fn lemma_host_index_is(v: PoolView, j: int)
    requires
        v.wf(),
        0 <= j < v.allocs.len(),
    ensures
        v.has_host(v.allocs[j].host),
        v.host_index(v.allocs[j].host) == j,
        v.owner_of(v.allocs[j].host) == v.allocs[j].owner,
{
    let h = v.allocs[j].host;
    assert(v.has_host(h));
    let k = v.host_index(h);
    assert(0 <= k < v.allocs.len() && v.allocs[k].host == h);
    if k < j {
        assert(v.allocs[k].host != v.allocs[j].host);
    } else if j < k {
        assert(v.allocs[j].host != v.allocs[k].host);
    }
}

/// `insert_free` keeps the free list ascending, grows it by one, and adds
/// exactly the inserted host number.
#[verifier::rlimit(50)]
pub proof fn lemma_insert_free_props(s: Seq<u8>, h: u8)
    requires
        ascending(s),
        !s.contains(h),
    ensures
        ascending(insert_free(s, h)),
        insert_free(s, h).len() == s.len() + 1,
        forall|x: u8| insert_free(s, h).contains(x) <==> s.contains(x) || x == h,
        insert_free(s, h).contains(h),
    decreases s.len(),
{
    let t = insert_free(s, h);
    if s.len() == 0 {
        assert(t =~= seq![h]);
        assert(t[0] == h);
        assert forall|x: u8| t.contains(x) <==> s.contains(x) || x == h by {
            if t.contains(x) {
                let i = choose|i: int| 0 <= i < t.len() && t[i] == x;
                assert(x == h);
            }
            if x == h {
                assert(t[0] == x);
            }
        }
    } else if h < s[0] {
        assert(t == seq![h] + s);
        assert(t[0] == h);
        assert forall|j: int, k: int| 0 <= j < k < t.len() implies t[j] < t[k] by {
            if j > 0 {
                assert(t[j] == s[j - 1] && t[k] == s[k - 1]);
            } else {
                assert(t[k] == s[k - 1]);
                if k > 1 {
                    assert(s[0] < s[k - 1]);
                }
            }
        }
        assert forall|x: u8| t.contains(x) <==> s.contains(x) || x == h by {
            if t.contains(x) {
                let i = choose|i: int| 0 <= i < t.len() && t[i] == x;
                if i > 0 {
                    assert(s[i - 1] == x);
                }
            }
            if s.contains(x) {
                let i = choose|i: int| 0 <= i < s.len() && s[i] == x;
                assert(t[i + 1] == x);
            }
            if x == h {
                assert(t[0] == x);
            }
        }
    } else {
        let rest = s.drop_first();
        assert(s[0] < h) by {
            assert(s[0] != h) by {
                if s[0] == h {
                    assert(s.contains(h));
                }
            }
        }
        assert(ascending(rest)) by {
            assert forall|j: int, k: int| 0 <= j < k < rest.len() implies rest[j] < rest[k] by {
                assert(s[j + 1] < s[k + 1]);
            }
        }
        assert(!rest.contains(h)) by {
            if rest.contains(h) {
                let i = choose|i: int| 0 <= i < rest.len() && rest[i] == h;
                assert(s[i + 1] == h);
                assert(s.contains(h));
            }
        }
        lemma_insert_free_props(rest, h);
        let tr = insert_free(rest, h);
        assert(t == seq![s[0]] + tr);
        assert forall|j: int, k: int| 0 <= j < k < t.len() implies t[j] < t[k] by {
            if j == 0 {
                assert(t[k] == tr[k - 1]);
                assert(tr.contains(tr[k - 1]));
                if rest.contains(tr[k - 1]) {
                    let i = choose|i: int| 0 <= i < rest.len() && rest[i] == tr[k - 1];
                    assert(s[0] < s[i + 1]);
                } else {
                    assert(tr[k - 1] == h);
                }
            } else {
                assert(t[j] == tr[j - 1] && t[k] == tr[k - 1]);
            }
        }
        assert forall|x: u8| t.contains(x) <==> s.contains(x) || x == h by {
            if t.contains(x) {
                let i = choose|i: int| 0 <= i < t.len() && t[i] == x;
                if i == 0 {
                    assert(s[0] == x);
                    assert(s.contains(x));
                } else {
                    assert(tr[i - 1] == x);
                    assert(tr.contains(x));
                    if rest.contains(x) {
                        let n = choose|n: int| 0 <= n < rest.len() && rest[n] == x;
                        assert(s[n + 1] == x);
                        assert(s.contains(x));
                    }
                }
            }
            if s.contains(x) {
                let i = choose|i: int| 0 <= i < s.len() && s[i] == x;
                if i == 0 {
                    assert(t[0] == x);
                } else {
                    assert(rest[i - 1] == x);
                    assert(rest.contains(x));
                    assert(tr.contains(x));
                    let n = choose|n: int| 0 <= n < tr.len() && tr[n] == x;
                    assert(t[n + 1] == x);
                }
            }
            if x == h {
                assert(tr.contains(x));
                let n = choose|n: int| 0 <= n < tr.len() && tr[n] == x;
                assert(t[n + 1] == x);
            }
        }
        assert(t.contains(h));
    }
}

/// Where the scan of an ascending free list stops, `insert_free` inserts.
pub proof fn lemma_insert_free_at(s: Seq<u8>, h: u8, i: int)
    requires
        ascending(s),
        !s.contains(h),
        0 <= i <= s.len(),
        forall|k: int| 0 <= k < i ==> s[k] < h,
        i < s.len() ==> s[i] > h,
    ensures
        insert_free(s, h) == s.insert(i, h),
    decreases s.len(),
{
    if s.len() == 0 {
        assert(insert_free(s, h) =~= s.insert(0, h));
    } else if h < s[0] {
        assert(i == 0);
        assert(insert_free(s, h) =~= s.insert(0, h));
    } else {
        assert(s[0] < h) by {
            if s[0] == h {
                assert(s.contains(h));
            }
        }
        assert(i >= 1);
        let rest = s.drop_first();
        assert(ascending(rest)) by {
            assert forall|j: int, k: int| 0 <= j < k < rest.len() implies rest[j] < rest[k] by {
                assert(s[j + 1] < s[k + 1]);
            }
        }
        assert(!rest.contains(h)) by {
            if rest.contains(h) {
                let n = choose|n: int| 0 <= n < rest.len() && rest[n] == h;
                assert(s[n + 1] == h);
                assert(s.contains(h));
            }
        }
        assert(forall|k: int| 0 <= k < i - 1 ==> rest[k] < h) by {
            assert(forall|k: int| 0 <= k < i - 1 ==> rest[k] == s[k + 1]);
        }
        lemma_insert_free_at(rest, h, i - 1);
        assert(insert_free(s, h) =~= s.insert(i, h));
    }
}

impl IpPool {
    /// Creates a pool over the default host range 2 through 254, all free.
    pub fn new(network: String, gateway: String) -> (r: Self)
        ensures
            r@.wf(),
            r@.network == network@,
            r@.gateway == gateway@,
            r@.start == 2 && r@.end == 254,
            r@.free == range_seq(2, 254),
            r@.allocs == Seq::<AllocView>::empty(),
    {
        let mut r = IpPool {
            network,
            gateway,
            start: 2,
            end: 254,
            free: Vec::new(),
            entries: Vec::new(),
        };
        r.clear();
        r
    }

    /// Clears all allocations and regenerates the full free list.
    pub fn clear(&mut self)
        requires
            old(self).start <= old(self).end,
        ensures
            final(self)@.wf(),
            final(self)@ == old(self)@.reset_step(),
    {
        self.entries = Vec::new();
        self.free = Vec::new();
        let mut i: u16 = self.start as u16;
        while i <= self.end as u16
            invariant
                self.start == old(self).start,
                self.end == old(self).end,
                self.network == old(self).network,
                self.gateway == old(self).gateway,
                self.entries@.len() == 0,
                self.start as int <= i as int <= self.end as int + 1,
                self.free@.len() == i as int - self.start as int,
                forall|k: int|
                    0 <= k < self.free@.len()
                        ==> #[trigger] self.free@[k] as int == self.start as int + k,
            decreases self.end as int + 1 - i as int,
        {
            self.free.push(i as u8);
            i = i + 1;
        }
        proof {
            assert(self@.free =~= range_seq(self.start, self.end));
            assert(self@.allocs =~= Seq::<AllocView>::empty());
            assert(self@ =~= old(self)@.reset_step());
            assert forall|h: u8| self@.in_range(h) implies self@.free.contains(h)
                || self@.has_host(h) by {
                assert(self@.free[h as int - self.start as int] == h);
            }
        }
    }

    /// Looks an owner up among the allocations.
    fn find_owner(&self, vm_id: &str) -> (r: Option<usize>)
        ensures
            match r {
                Option::Some(j) => j < self.entries@.len() && self.entries@[j as int].vm_id@
                    == vm_id@,
                Option::None => !self@.has_owner(vm_id@),
            },
    {
        let n = self.entries.len();
        let mut j: usize = 0;
        while j < n
            invariant
                n == self.entries@.len(),
                j <= n,
                forall|k: int| 0 <= k < j ==> #[trigger] self.entries@[k].vm_id@ != vm_id@,
            decreases n - j,
        {
            if str_eq(self.entries[j].vm_id.as_str(), vm_id) {
                return Some(j);
            }
            j = j + 1;
        }
        proof {
            assert forall|k: int| 0 <= k < self@.allocs.len() implies self@.allocs[k].owner
                != vm_id@ by {
                assert(self.entries@[k].vm_id@ != vm_id@);
            }
        }
        None
    }

    /// Looks a host number up among the allocations.
    fn find_host(&self, h: u8) -> (r: Option<usize>)
        ensures
            match r {
                Option::Some(j) => j < self.entries@.len() && self.entries@[j as int].host == h,
                Option::None => !self@.has_host(h),
            },
    {
        let n = self.entries.len();
        let mut j: usize = 0;
        while j < n
            invariant
                n == self.entries@.len(),
                j <= n,
                forall|k: int| 0 <= k < j ==> #[trigger] self.entries@[k].host != h,
            decreases n - j,
        {
            if self.entries[j].host == h {
                return Some(j);
            }
            j = j + 1;
        }
        proof {
            assert forall|k: int| 0 <= k < self@.allocs.len() implies self@.allocs[k].host
                != h by {
                assert(self.entries@[k].host != h);
            }
        }
        None
    }

    /// Allocates an address for `vm_id`: the one it already holds, if any,
    /// else the lowest free address; fails only when the pool is exhausted.
    pub fn allocate_ip(&mut self, vm_id: String) -> (r: Result<String, IpPoolError>)
        requires
            old(self)@.wf(),
        ensures
            final(self)@.wf(),
            final(self)@ == old(self)@.alloc_step(vm_id@).0,
            match (r, old(self)@.alloc_step(vm_id@).1) {
                (Result::Ok(ip), Result::Ok(h)) => ip@ == ip_chars(old(self)@.network, h as int),
                (Result::Err(e), Result::Err(e2)) => e == e2,
                _ => false,
            },
    {
        let ghost v0 = self@;
        let ghost owner = vm_id@;
        match self.find_owner(vm_id.as_str()) {
            Option::Some(j) => {
                proof {
                    assert(v0.allocs[j as int].owner == owner);
                    lemma_owner_index_is(v0, j as int);
                }
                let h = self.entries[j].host;
                Ok(ip_string(self.network.as_str(), h))
            },
            Option::None => {
                if self.free.len() == 0 {
                    return Err(IpPoolError::NoAvailableIps);
                }
                let h = self.free.remove(0);
                let ip = ip_string(self.network.as_str(), h);
                self.entries.push(Entry { vm_id, host: h });
                proof {
                    assert(self@.free =~= v0.free.drop_first());
                    assert(self@.allocs =~= v0.allocs.push(AllocView { owner, host: h }));
                    assert(self@ =~= v0.alloc_step(owner).0);
                    lemma_alloc_preserves_wf(v0, owner);
                }
                Ok(ip)
            },
        }
    }

    /// Releases the address held by `vm_id`; fails when the owner holds none.
    pub fn release_ip(&mut self, vm_id: &str) -> (r: Result<(), IpPoolError>)
        requires
            old(self)@.wf(),
        ensures
            final(self)@.wf(),
            final(self)@ == old(self)@.release_owner_step(vm_id@).0,
            r == old(self)@.release_owner_step(vm_id@).1,
    {
        let ghost v0 = self@;
        match self.find_owner(vm_id) {
            Option::Some(j) => {
                proof {
                    lemma_owner_index_is(v0, j as int);
                }
                let h = self.entries[j].host;
                let _removed = self.entries.remove(j);
                proof {
                    assert(!v0.free.contains(h)) by {
                        if v0.free.contains(h) {
                            let i = choose|i: int| 0 <= i < v0.free.len() && v0.free[i] == h;
                            assert(v0.free[i] != v0.allocs[j as int].host);
                        }
                    }
                }
                insert_host(&mut self.free, h);
                proof {
                    assert(self@.allocs =~= v0.allocs.remove(j as int));
                    assert(self@ =~= v0.release_owner_step(vm_id@).0);
                    lemma_release_preserves_wf(v0, j as int);
                }
                Ok(())
            },
            Option::None => Err(IpPoolError::IpNotFound),
        }
    }

    /// Releases an address directly: the address must be a well-formed IPv4
    /// literal under the pool's network, and must be currently allocated.
    pub fn release_ip_by_address(&mut self, ip: &str) -> (r: Result<(), IpPoolError>)
        requires
            old(self)@.wf(),
        ensures
            final(self)@.wf(),
            final(self)@ == old(self)@.release_addr_step(ip@).0,
            r == old(self)@.release_addr_step(ip@).1,
    {
        let ghost v0 = self@;
        if !is_valid_ip(self.network.as_str(), ip) {
            return Err(IpPoolError::InvalidIp);
        }
        let m = self.network.as_str().unicode_len();
        let n = ip.unicode_len();
        let rem = ip.substring_char(m + 1, n);
        proof {
            assert(rem@ =~= ip@.skip(m + 1));
        }
        let h = match parse_host(rem) {
            Option::Some(h) => h,
            Option::None => {
                return Err(IpPoolError::IpNotFound);
            },
        };
        match self.find_host(h) {
            Option::Some(j) => {
                proof {
                    lemma_host_index_is(v0, j as int);
                }
                let _removed = self.entries.remove(j);
                proof {
                    assert(!v0.free.contains(h)) by {
                        if v0.free.contains(h) {
                            let i = choose|i: int| 0 <= i < v0.free.len() && v0.free[i] == h;
                            assert(v0.free[i] != v0.allocs[j as int].host);
                        }
                    }
                }
                insert_host(&mut self.free, h);
                proof {
                    assert(self@.allocs =~= v0.allocs.remove(j as int));
                    assert(self@ =~= v0.release_addr_step(ip@).0);
                    lemma_release_preserves_wf(v0, j as int);
                }
                Ok(())
            },
            Option::None => Err(IpPoolError::IpNotFound),
        }
    }

    /// Reports the allocation held by `vm_id`; no hostname is recorded, so
    /// none is reported.
    pub fn get_allocation(&self, vm_id: &str) -> (r: Result<IpAllocation, IpPoolError>)
        requires
            self@.wf(),
        ensures
            match r {
                Result::Ok(a) => self@.has_owner(vm_id@) && a.vm_id@ == vm_id@ && a.ip@ == ip_chars(
                    self@.network,
                    self@.host_of(vm_id@) as int,
                ) && a.hostname is None,
                Result::Err(e) => e == IpPoolError::IpNotFound && !self@.has_owner(vm_id@),
            },
    {
        match self.find_owner(vm_id) {
            Option::Some(j) => {
                proof {
                    lemma_owner_index_is(self@, j as int);
                }
                Ok(
                    IpAllocation {
                        ip: ip_string(self.network.as_str(), self.entries[j].host),
                        vm_id: String::from_str(vm_id),
                        hostname: None,
                    },
                )
            },
            Option::None => Err(IpPoolError::IpNotFound),
        }
    }

    /// A snapshot of all current allocations, in insertion order.
    pub fn list_allocations(&self) -> (r: Vec<IpAllocation>)
        ensures
            r@.len() == self@.allocs.len(),
            forall|k: int|
                0 <= k < r@.len() ==> (#[trigger] r@[k]).vm_id@ == self@.allocs[k].owner
                    && r@[k].ip@ == ip_chars(self@.network, self@.allocs[k].host as int)
                    && r@[k].hostname is None,
    {
        let n = self.entries.len();
        let mut r: Vec<IpAllocation> = Vec::new();
        let mut j: usize = 0;
        while j < n
            invariant
                n == self.entries@.len(),
                j <= n,
                r@.len() == j,
                forall|k: int|
                    0 <= k < j ==> (#[trigger] r@[k]).vm_id@ == self@.allocs[k].owner
                        && r@[k].ip@ == ip_chars(self@.network, self@.allocs[k].host as int)
                        && r@[k].hostname is None,
            decreases n - j,
        {
            r.push(
                IpAllocation {
                    ip: ip_string(self.network.as_str(), self.entries[j].host),
                    vm_id: self.entries[j].vm_id.clone(),
                    hostname: None,
                },
            );
            j = j + 1;
        }
        r
    }

    /// A snapshot of the pool counters.
    pub fn get_stats(&self) -> (r: PoolStats)
        requires
            self@.wf(),
        ensures
            r.total as int == self@.total(),
            r.allocated == self@.allocs.len(),
            r.available == self@.free.len(),
            r.network@ == self@.network + ".0/24"@,
            r.gateway@ == self@.gateway,
    {
        let total: usize = (self.end as usize) - (self.start as usize) + 1;
        PoolStats {
            network: self.network.clone().concat(".0/24"),
            gateway: self.gateway.clone(),
            total,
            allocated: self.entries.len(),
            available: self.free.len(),
        }
    }

    /// The configured network prefix.
    pub fn get_network(&self) -> (r: String)
        ensures
            r@ == self@.network,
    {
        self.network.clone()
    }

    /// The configured gateway address.
    pub fn get_gateway(&self) -> (r: String)
        ensures
            r@ == self@.gateway,
    {
        self.gateway.clone()
    }
}

/// Inserts a host number into the ascending free list at its place.
fn insert_host(free: &mut Vec<u8>, h: u8)
    requires
        ascending(old(free)@),
        !old(free)@.contains(h),
    ensures
        final(free)@ == insert_free(old(free)@, h),
{
    let n = free.len();
    let mut i: usize = 0;
    while i < n && free[i] < h
        invariant
            free@ == old(free)@,
            n == free@.len(),
            i <= n,
            forall|k: int| 0 <= k < i ==> free@[k] < h,
        decreases n - i,
    {
        i = i + 1;
    }
    proof {
        lemma_insert_free_at(free@, h, i as int);
    }
    free.insert(i, h);
}

/// Allocation preserves well-formedness.
pub proof fn lemma_alloc_preserves_wf(v: PoolView, owner: Seq<char>)
    requires
        v.wf(),
    ensures
        v.alloc_step(owner).0.wf(),
{
    if !v.has_owner(owner) && v.free.len() > 0 {
        let h = v.free[0];
        let w = v.alloc_step(owner).0;
        assert(w.free =~= v.free.drop_first());
        assert forall|j: int, k: int| 0 <= j < k < w.allocs.len() implies w.allocs[j].owner
            != w.allocs[k].owner by {
            if k < v.allocs.len() {
                assert(v.allocs[j].owner != v.allocs[k].owner);
            } else {
                assert(w.allocs[k].owner == owner);
                if v.allocs[j].owner == owner {
                    assert(v.has_owner(owner));
                }
            }
        }
        assert forall|j: int, k: int| 0 <= j < k < w.allocs.len() implies w.allocs[j].host
            != w.allocs[k].host by {
            if k < v.allocs.len() {
                assert(v.allocs[j].host != v.allocs[k].host);
            } else {
                assert(w.allocs[k].host == h);
                assert(v.free[0] != v.allocs[j].host);
            }
        }
        assert forall|j: int, k: int|
            0 <= j < w.free.len() && 0 <= k < w.allocs.len() implies w.free[j]
            != w.allocs[k].host by {
            assert(w.free[j] == v.free[j + 1]);
            if k < v.allocs.len() {
                assert(v.free[j + 1] != v.allocs[k].host);
            } else {
                assert(w.allocs[k].host == h);
                assert(v.free[0] < v.free[j + 1]);
            }
        }
        assert forall|x: u8| #[trigger] w.in_range(x) implies w.free.contains(x) || w.has_host(
            x,
        ) by {
            assert(v.in_range(x));
            if v.free.contains(x) {
                let i = choose|i: int| 0 <= i < v.free.len() && v.free[i] == x;
                if i == 0 {
                    assert(w.allocs[v.allocs.len() as int].host == x);
                    assert(w.has_host(x));
                } else {
                    assert(w.free[i - 1] == x);
                    assert(w.free.contains(x));
                }
            } else {
                let i = choose|i: int| 0 <= i < v.allocs.len() && v.allocs[i].host == x;
                assert(w.allocs[i].host == x);
                assert(w.has_host(x));
            }
        }
        assert forall|j: int| 0 <= j < w.free.len() implies w.in_range(#[trigger] w.free[j]) by {
            assert(w.free[j] == v.free[j + 1]);
        }
    }
}

/// Removing an allocation and freeing its host number preserves
/// well-formedness; both release operations do exactly that.
pub proof fn lemma_release_preserves_wf(v: PoolView, j: int)
    requires
        v.wf(),
        0 <= j < v.allocs.len(),
    ensures
        (PoolView {
            free: insert_free(v.free, v.allocs[j].host),
            allocs: v.allocs.remove(j),
            ..v
        }).wf(),
{
    let h = v.allocs[j].host;
    let w = PoolView { free: insert_free(v.free, h), allocs: v.allocs.remove(j), ..v };
    assert(!v.free.contains(h)) by {
        if v.free.contains(h) {
            let i = choose|i: int| 0 <= i < v.free.len() && v.free[i] == h;
            assert(v.free[i] != v.allocs[j].host);
        }
    }
    lemma_insert_free_props(v.free, h);
    assert forall|i: int| 0 <= i < w.allocs.len() implies w.in_range(
        #[trigger] w.allocs[i].host,
    ) by {
        if i < j {
            assert(w.allocs[i] == v.allocs[i]);
        } else {
            assert(w.allocs[i] == v.allocs[i + 1]);
        }
    }
    assert forall|i: int, k: int| 0 <= i < k < w.allocs.len() implies w.allocs[i].owner
        != w.allocs[k].owner && w.allocs[i].host != w.allocs[k].host by {
        let i2 = if i < j { i } else { i + 1 };
        let k2 = if k < j { k } else { k + 1 };
        assert(w.allocs[i] == v.allocs[i2]);
        assert(w.allocs[k] == v.allocs[k2]);
        assert(v.allocs[i2].owner != v.allocs[k2].owner);
        assert(v.allocs[i2].host != v.allocs[k2].host);
    }
    assert forall|i: int| 0 <= i < w.free.len() implies w.in_range(#[trigger] w.free[i]) by {
        assert(w.free.contains(w.free[i]));
        if v.free.contains(w.free[i]) {
            let n = choose|n: int| 0 <= n < v.free.len() && v.free[n] == w.free[i];
            assert(v.in_range(v.free[n]));
        } else {
            assert(w.free[i] == h);
            assert(v.in_range(v.allocs[j].host));
        }
    }
    assert forall|i: int, k: int|
        0 <= i < w.free.len() && 0 <= k < w.allocs.len() implies w.free[i]
        != w.allocs[k].host by {
        let k2 = if k < j { k } else { k + 1 };
        assert(w.allocs[k] == v.allocs[k2]);
        assert(w.free.contains(w.free[i]));
        if v.free.contains(w.free[i]) {
            let n = choose|n: int| 0 <= n < v.free.len() && v.free[n] == w.free[i];
            assert(v.free[n] != v.allocs[k2].host);
        } else {
            assert(w.free[i] == h);
            assert(v.allocs[j].host != v.allocs[k2].host);
        }
    }
    assert forall|x: u8| #[trigger] w.in_range(x) implies w.free.contains(x) || w.has_host(x) by {
        assert(v.in_range(x));
        if v.free.contains(x) {
            assert(w.free.contains(x));
        } else {
            let i = choose|i: int| 0 <= i < v.allocs.len() && v.allocs[i].host == x;
            if i == j {
                assert(w.free.contains(x));
            } else if i < j {
                assert(w.allocs[i].host == x);
                assert(w.has_host(x));
            } else {
                assert(w.allocs[i - 1].host == x);
                assert(w.has_host(x));
            }
        }
    }
}

/// Releasing by address preserves well-formedness.
pub proof fn lemma_release_addr_preserves_wf(v: PoolView, ip: Seq<char>)
    requires
        v.wf(),
    ensures
        v.release_addr_step(ip).0.wf(),
{
    if valid_for_network(v.network, ip) {
        match parse_dec(ip.skip(v.network.len() as int + 1)) {
            Option::Some(x) => {
                if 0 <= x <= 255 && v.has_host(x as u8) {
                    let j = v.host_index(x as u8);
                    assert(0 <= j < v.allocs.len() && v.allocs[j].host == x as u8);
                    lemma_release_preserves_wf(v, j);
                }
            },
            Option::None => {},
        }
    }
}

/// Releasing by owner preserves well-formedness.
pub proof fn lemma_release_owner_preserves_wf(v: PoolView, owner: Seq<char>)
    requires
        v.wf(),
    ensures
        v.release_owner_step(owner).0.wf(),
{
    if v.has_owner(owner) {
        let j = v.owner_index(owner);
        assert(0 <= j < v.allocs.len());
        lemma_release_preserves_wf(v, j);
    }
}

} // verus!
