//! Laws of the allocator, proved once and for all over the pool's
//! mathematical image.

use crate::addr::{
    dec_chars, ip_chars, lemma_dec_chars_parse, lemma_parse_dec_canonical, parse_dec,
    valid_for_network,
};
use crate::ippool::{
    lemma_alloc_preserves_wf, lemma_host_index_is, lemma_insert_free_props, lemma_owner_index_is,
    lemma_release_owner_preserves_wf, IpPoolError, PoolView,
};
use vstd::prelude::*;
use vstd::set_lib::{lemma_int_range, lemma_set_disjoint_lens, set_int_range};

verus! {

/// Repeated allocation without an intervening release is idempotent: a
/// second `allocate` for the same owner returns the same result as the
/// first and leaves the pool exactly as it was.
pub proof fn lemma_allocate_idempotent(v: PoolView, owner: Seq<char>)
    requires
        v.wf(),
    ensures
        ({
            let (v1, r1) = v.alloc_step(owner);
            v1.alloc_step(owner) == (v1, r1)
        }),
{
    lemma_alloc_preserves_wf(v, owner);
    if !v.has_owner(owner) && v.free.len() > 0 {
        let v1 = v.alloc_step(owner).0;
        let n = v.allocs.len() as int;
        assert(v1.allocs[n].owner == owner);
        lemma_owner_index_is(v1, n);
        assert(v1.alloc_step(owner) == (v1, Ok::<u8, IpPoolError>(v.free[0])));
    }
}

/// A well-formed pool's counters add up: free plus allocated is the fixed
/// range size, so `available` is always `total` minus `allocated`.
pub proof fn lemma_pool_counts(v: PoolView)
    requires
        v.wf(),
    ensures
        v.free.len() + v.allocs.len() == v.total(),
{
    broadcast use vstd::seq_lib::seq_to_set_is_finite;

    let fseq = Seq::new(v.free.len(), |i: int| v.free[i] as int);
    let aseq = Seq::new(v.allocs.len(), |i: int| v.allocs[i].host as int);
    assert(fseq.no_duplicates()) by {
        assert forall|i: int, j: int|
            0 <= i < fseq.len() && 0 <= j < fseq.len() && i != j implies fseq[i] != fseq[j] by {
            if i < j {
                assert(v.free[i] < v.free[j]);
            } else {
                assert(v.free[j] < v.free[i]);
            }
        }
    }
    assert(aseq.no_duplicates()) by {
        assert forall|i: int, j: int|
            0 <= i < aseq.len() && 0 <= j < aseq.len() && i != j implies aseq[i] != aseq[j] by {
            if i < j {
                assert(v.allocs[i].host != v.allocs[j].host);
            } else {
                assert(v.allocs[j].host != v.allocs[i].host);
            }
        }
    }
    fseq.unique_seq_to_set();
    aseq.unique_seq_to_set();
    let fset = fseq.to_set();
    let aset = aseq.to_set();
    assert(fset.disjoint(aset)) by {
        assert forall|x: int| fset.contains(x) implies !aset.contains(x) by {
            if fset.contains(x) && aset.contains(x) {
                let i = choose|i: int| 0 <= i < fseq.len() && fseq[i] == x;
                let j = choose|j: int| 0 <= j < aseq.len() && aseq[j] == x;
                assert(v.free[i] != v.allocs[j].host);
            }
        }
    }
    assert(fset + aset =~= set_int_range(v.start as int, v.end as int + 1)) by {
        assert forall|x: int| (fset + aset).contains(x) implies set_int_range(
            v.start as int,
            v.end as int + 1,
        ).contains(x) by {
            if fset.contains(x) {
                let i = choose|i: int| 0 <= i < fseq.len() && fseq[i] == x;
                assert(v.in_range(v.free[i]));
            } else {
                let j = choose|j: int| 0 <= j < aseq.len() && aseq[j] == x;
                assert(v.in_range(v.allocs[j].host));
            }
        }
        assert forall|x: int| set_int_range(v.start as int, v.end as int + 1).contains(
            x,
        ) implies (fset + aset).contains(x) by {
            let h = x as u8;
            assert(v.in_range(h));
            if v.free.contains(h) {
                let i = choose|i: int| 0 <= i < v.free.len() && v.free[i] == h;
                assert(fseq[i] == x);
                assert(fset.contains(x));
            } else {
                let j = choose|j: int| 0 <= j < v.allocs.len() && v.allocs[j].host == h;
                assert(aseq[j] == x);
                assert(aset.contains(x));
            }
        }
    }
    lemma_set_disjoint_lens(fset, aset);
    lemma_int_range(v.start as int, v.end as int + 1);
}

/// A successful fresh allocation moves exactly one address: `available`
/// shrinks by one, `allocated` grows by one, and their sum stays the fixed
/// range size.
pub proof fn lemma_allocate_counts(v: PoolView, owner: Seq<char>)
    requires
        v.wf(),
        !v.has_owner(owner),
        v.free.len() > 0,
    ensures
        v.alloc_step(owner).1 is Ok,
        v.alloc_step(owner).0.free.len() == v.free.len() - 1,
        v.alloc_step(owner).0.allocs.len() == v.allocs.len() + 1,
        v.alloc_step(owner).0.free.len() + v.alloc_step(owner).0.allocs.len() == v.total(),
{
    lemma_alloc_preserves_wf(v, owner);
    lemma_pool_counts(v.alloc_step(owner).0);
}

/// A fresh allocation picks the numerically lowest free address.
pub proof fn lemma_allocate_picks_lowest(v: PoolView, owner: Seq<char>)
    requires
        v.wf(),
        !v.has_owner(owner),
        v.free.len() > 0,
    ensures
        v.alloc_step(owner).1 == Ok::<u8, IpPoolError>(v.free[0]),
        forall|k: int| 0 <= k < v.free.len() ==> v.free[0] <= #[trigger] v.free[k],
{
    assert forall|k: int| 0 <= k < v.free.len() implies v.free[0] <= #[trigger] v.free[k] by {
        if k > 0 {
            assert(v.free[0] < v.free[k]);
        }
    }
}

/// After a release, an allocation for a different owner reuses the released
/// address exactly when that address is again the lowest free one.
pub proof fn lemma_release_then_allocate(v: PoolView, prev: Seq<char>, next: Seq<char>)
    requires
        v.wf(),
        v.has_owner(prev),
        !v.has_owner(next),
    ensures
        ({
            let h = v.host_of(prev);
            let v1 = v.release_owner_step(prev).0;
            let (v2, r2) = v1.alloc_step(next);
            &&& r2 is Ok
            &&& (r2 == Ok::<u8, IpPoolError>(h) <==> (forall|k: int|
                0 <= k < v1.free.len() ==> h <= v1.free[k]))
        }),
{
    lemma_release_owner_preserves_wf(v, prev);
    let j = v.owner_index(prev);
    let h = v.allocs[j].host;
    let v1 = v.release_owner_step(prev).0;
    assert(!v.free.contains(h)) by {
        if v.free.contains(h) {
            let i = choose|i: int| 0 <= i < v.free.len() && v.free[i] == h;
            assert(v.free[i] != v.allocs[j].host);
        }
    }
    lemma_insert_free_props(v.free, h);
    assert(v1.free.contains(h));
    let hi = choose|i: int| 0 <= i < v1.free.len() && v1.free[i] == h;
    assert(!v1.has_owner(next)) by {
        if v1.has_owner(next) {
            let k = choose|k: int| 0 <= k < v1.allocs.len() && v1.allocs[k].owner == next;
            if k < j {
                assert(v.allocs[k].owner == next);
            } else {
                assert(v.allocs[k + 1].owner == next);
            }
            assert(v.has_owner(next));
        }
    }
    assert(v1.alloc_step(next).1 == Ok::<u8, IpPoolError>(v1.free[0]));
    if v1.free[0] == h {
        assert forall|k: int| 0 <= k < v1.free.len() implies h <= v1.free[k] by {
            if k > 0 {
                assert(v1.free[0] < v1.free[k]);
            }
        }
    }
    if forall|k: int| 0 <= k < v1.free.len() ==> h <= v1.free[k] {
        assert(h <= v1.free[0]);
        if hi > 0 {
            assert(v1.free[0] < v1.free[hi]);
        }
        assert(v1.free[0] == h);
    }
}

/// Every host number of the range is in exactly one of the two states:
/// free exactly when not allocated, and nothing outside the range is held
/// anywhere.
pub proof fn lemma_free_allocated_partition(v: PoolView)
    requires
        v.wf(),
    ensures
        forall|h: u8| v.in_range(h) ==> (v.free.contains(h) <==> !v.has_host(h)),
        forall|h: u8| !v.in_range(h) ==> !v.free.contains(h) && !v.has_host(h),
{
    assert forall|h: u8| v.in_range(h) implies (v.free.contains(h) <==> !v.has_host(h)) by {
        if v.free.contains(h) && v.has_host(h) {
            let i = choose|i: int| 0 <= i < v.free.len() && v.free[i] == h;
            let k = choose|k: int| 0 <= k < v.allocs.len() && v.allocs[k].host == h;
            assert(v.free[i] != v.allocs[k].host);
        }
    }
    assert forall|h: u8| !v.in_range(h) implies !v.free.contains(h) && !v.has_host(h) by {
        if v.free.contains(h) {
            let i = choose|i: int| 0 <= i < v.free.len() && v.free[i] == h;
            assert(v.in_range(v.free[i]));
        }
        if v.has_host(h) {
            let k = choose|k: int| 0 <= k < v.allocs.len() && v.allocs[k].host == h;
            assert(v.in_range(v.allocs[k].host));
        }
    }
}

/// Distinct owners hold distinct addresses: in a well-formed pool — and
/// every operation keeps the pool well-formed — no two allocations share an
/// owner or an address.
pub proof fn lemma_allocations_pairwise_distinct(v: PoolView)
    requires
        v.wf(),
    ensures
        forall|j: int, k: int|
            0 <= j < k < v.allocs.len() ==> #[trigger] v.allocs[j].owner != #[trigger] v.allocs[k].owner
                && v.allocs[j].host != v.allocs[k].host,
{
}

/// Releasing by address succeeds exactly for the address strings of the
/// current allocations: a validated address releases something if and only
/// if it is, character for character, the address string of an allocated
/// host number.
pub proof fn lemma_release_addr_exact(v: PoolView, ip: Seq<char>)
    requires
        v.wf(),
        valid_for_network(v.network, ip),
    ensures
        (v.release_addr_step(ip).1 is Ok) <==> (exists|h: u8| #[trigger]
            v.has_host(h) && ip == ip_chars(v.network, h as int)),
{
    let m = v.network.len() as int;
    let suffix = ip.skip(m + 1);
    if v.release_addr_step(ip).1 is Ok {
        match parse_dec(suffix) {
            Option::Some(x) => {
                lemma_parse_dec_canonical(suffix, x);
                assert(ip =~= v.network + seq!['.'] + dec_chars(x)) by {
                    assert forall|k: int| 0 <= k < m implies ip[k] == v.network[k] by {
                        assert(ip.subrange(0, m)[k] == ip[k]);
                    }
                }
                let h = x as u8;
                assert(v.has_host(h) && ip == ip_chars(v.network, h as int));
            },
            Option::None => {},
        }
    }
    if exists|h: u8| #[trigger] v.has_host(h) && ip == ip_chars(v.network, h as int) {
        let h = choose|h: u8| #[trigger] v.has_host(h) && ip == ip_chars(v.network, h as int);
        assert(suffix =~= dec_chars(h as int));
        lemma_dec_chars_parse(h as int);
        assert(parse_dec(suffix) == Some(h as int));
        assert(v.release_addr_step(ip).1 is Ok);
    }
}

/// The two directions of the allocation table are inverses: the owner map
/// sends `o` to `h` exactly when the address map sends `h` to `o`.
pub proof fn lemma_maps_inverse(v: PoolView)
    requires
        v.wf(),
    ensures
        forall|o: Seq<char>, h: u8| #[trigger]
            v.owner_map().contains_pair(o, h) <==> #[trigger] v.host_map().contains_pair(h, o),
{
    assert forall|o: Seq<char>, h: u8| #[trigger]
        v.owner_map().contains_pair(o, h) <==> #[trigger] v.host_map().contains_pair(h, o) by {
        if v.owner_map().contains_pair(o, h) {
            let j = v.owner_index(o);
            assert(0 <= j < v.allocs.len() && v.allocs[j].owner == o);
            assert(v.allocs[j].host == h);
            lemma_host_index_is(v, j);
            assert(v.host_map().contains_pair(h, o));
        }
        if v.host_map().contains_pair(h, o) {
            let j = v.host_index(h);
            assert(0 <= j < v.allocs.len() && v.allocs[j].host == h);
            assert(v.allocs[j].owner == o);
            lemma_owner_index_is(v, j);
            assert(v.owner_map().contains_pair(o, h));
        }
    }
}

} // verus!
