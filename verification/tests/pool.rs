use ippool::{IpPool, IpPoolError};

#[test]
fn test_new_ip_pool() {
    let pool = IpPool::new("172.16.0".to_string(), "172.16.0.1".to_string());
    let stats = pool.get_stats();

    assert_eq!(stats.total, 253);
    assert_eq!(stats.allocated, 0);
    assert_eq!(stats.available, 253);
}

#[test]
fn test_allocate_ip() {
    let mut pool = IpPool::new("172.16.0".to_string(), "172.16.0.1".to_string());

    let ip = pool.allocate_ip("vm-1".to_string()).unwrap();
    assert_eq!(ip, "172.16.0.2");

    let stats = pool.get_stats();
    assert_eq!(stats.allocated, 1);
    assert_eq!(stats.available, 252);
}

#[test]
fn test_allocate_ip_idempotent() {
    let mut pool = IpPool::new("172.16.0".to_string(), "172.16.0.1".to_string());

    let ip1 = pool.allocate_ip("vm-1".to_string()).unwrap();
    let ip2 = pool.allocate_ip("vm-1".to_string()).unwrap();

    assert_eq!(ip1, ip2);

    let stats = pool.get_stats();
    assert_eq!(stats.allocated, 1);
}

#[test]
fn test_release_ip() {
    let mut pool = IpPool::new("172.16.0".to_string(), "172.16.0.1".to_string());

    pool.allocate_ip("vm-1".to_string()).unwrap();
    pool.release_ip("vm-1").unwrap();

    let stats = pool.get_stats();
    assert_eq!(stats.allocated, 0);
    assert_eq!(stats.available, 253);
}

#[test]
fn test_release_ip_by_address() {
    let mut pool = IpPool::new("172.16.0".to_string(), "172.16.0.1".to_string());

    let ip = pool.allocate_ip("vm-1".to_string()).unwrap();
    pool.release_ip_by_address(&ip).unwrap();

    let stats = pool.get_stats();
    assert_eq!(stats.allocated, 0);
}

#[test]
fn test_get_allocation() {
    let mut pool = IpPool::new("172.16.0".to_string(), "172.16.0.1".to_string());

    let ip = pool.allocate_ip("vm-1".to_string()).unwrap();
    let allocation = pool.get_allocation("vm-1").unwrap();

    assert_eq!(allocation.ip, ip);
    assert_eq!(allocation.vm_id, "vm-1");
}

#[test]
fn test_list_allocations() {
    let mut pool = IpPool::new("172.16.0".to_string(), "172.16.0.1".to_string());

    pool.allocate_ip("vm-1".to_string()).unwrap();
    pool.allocate_ip("vm-2".to_string()).unwrap();
    pool.allocate_ip("vm-3".to_string()).unwrap();

    let allocations = pool.list_allocations();
    assert_eq!(allocations.len(), 3);
}

#[test]
fn test_no_available_ips() {
    let mut pool = IpPool::new("172.16.0".to_string(), "172.16.0.1".to_string());

    // Exhaust the pool.
    for i in 0..253 {
        pool.allocate_ip(format!("vm-{}", i)).unwrap();
    }

    let result = pool.allocate_ip("vm-overflow".to_string());
    assert!(matches!(result, Err(IpPoolError::NoAvailableIps)));
}

#[test]
fn test_concurrent_allocations() {
    let mut pool = IpPool::new("172.16.0".to_string(), "172.16.0.1".to_string());

    let mut ips = Vec::new();
    for i in 0..100 {
        let vm_id = format!("vm-{}", i);
        ips.push(pool.allocate_ip(vm_id).unwrap());
    }

    // All IPs should be unique.
    let mut unique = ips.clone();
    unique.sort();
    unique.dedup();
    assert_eq!(unique.len(), 100);

    let stats = pool.get_stats();
    assert_eq!(stats.allocated, 100);
}

#[test]
fn test_lowest_free_address_reused() {
    let mut pool = IpPool::new("10.0.0".to_string(), "10.0.0.1".to_string());

    assert_eq!(pool.allocate_ip("vm-1".to_string()).unwrap(), "10.0.0.2");
    assert_eq!(pool.allocate_ip("vm-2".to_string()).unwrap(), "10.0.0.3");

    pool.release_ip("vm-1").unwrap();

    // The released address is the lowest free one again, so it is reused.
    assert_eq!(pool.allocate_ip("vm-3".to_string()).unwrap(), "10.0.0.2");
}

#[test]
fn test_released_address_not_reused_when_not_lowest() {
    let mut pool = IpPool::new("10.0.0".to_string(), "10.0.0.1".to_string());

    assert_eq!(pool.allocate_ip("vm-1".to_string()).unwrap(), "10.0.0.2");
    assert_eq!(pool.allocate_ip("vm-2".to_string()).unwrap(), "10.0.0.3");

    pool.release_ip("vm-2").unwrap();

    // 10.0.0.3 is free again but 10.0.0.4 is not lower, so 10.0.0.3 wins;
    // after that the next allocation moves past it.
    assert_eq!(pool.allocate_ip("vm-3".to_string()).unwrap(), "10.0.0.3");
    assert_eq!(pool.allocate_ip("vm-4".to_string()).unwrap(), "10.0.0.4");
}

#[test]
fn test_release_by_address_errors() {
    let mut pool = IpPool::new("10.0.0".to_string(), "10.0.0.1".to_string());

    // Well-formed and in the network, but not allocated.
    let result = pool.release_ip_by_address("10.0.0.2");
    assert!(matches!(result, Err(IpPoolError::IpNotFound)));

    // Not a well-formed IPv4 literal.
    let result = pool.release_ip_by_address("300.1.1.1");
    assert!(matches!(result, Err(IpPoolError::InvalidIp)));

    // Well-formed, but outside the configured network.
    let result = pool.release_ip_by_address("192.168.1.2");
    assert!(matches!(result, Err(IpPoolError::InvalidIp)));
}

#[test]
fn test_release_unknown_owner() {
    let mut pool = IpPool::new("172.16.0".to_string(), "172.16.0.1".to_string());

    let result = pool.release_ip("vm-unknown");
    assert!(matches!(result, Err(IpPoolError::IpNotFound)));

    let result = pool.get_allocation("vm-unknown");
    assert!(matches!(result, Err(IpPoolError::IpNotFound)));
}

#[test]
fn test_exhaustion_boundary() {
    let mut pool = IpPool::new("172.16.0".to_string(), "172.16.0.1".to_string());
    assert_eq!(pool.get_stats().total, 253);

    // All 253 allocations succeed, from .2 up to .254.
    for i in 0..253 {
        let ip = pool.allocate_ip(format!("vm-{}", i)).unwrap();
        assert_eq!(ip, format!("172.16.0.{}", i + 2));
    }
    let stats = pool.get_stats();
    assert_eq!(stats.allocated, 253);
    assert_eq!(stats.available, 0);

    // The 254th fails.
    let result = pool.allocate_ip("vm-253".to_string());
    assert!(matches!(result, Err(IpPoolError::NoAvailableIps)));
}

#[test]
fn test_counts_after_each_operation() {
    let mut pool = IpPool::new("172.16.0".to_string(), "172.16.0.1".to_string());

    pool.allocate_ip("vm-1".to_string()).unwrap();
    let stats = pool.get_stats();
    assert_eq!(stats.allocated, 1);
    assert_eq!(stats.available, stats.total - 1);

    pool.allocate_ip("vm-2".to_string()).unwrap();
    let stats = pool.get_stats();
    assert_eq!(stats.allocated, 2);
    assert_eq!(stats.available, stats.total - 2);

    pool.release_ip("vm-1").unwrap();
    let stats = pool.get_stats();
    assert_eq!(stats.allocated, 1);
    assert_eq!(stats.available, stats.total - 1);
}

#[test]
fn test_clear() {
    let mut pool = IpPool::new("172.16.0".to_string(), "172.16.0.1".to_string());

    pool.allocate_ip("vm-1".to_string()).unwrap();
    pool.allocate_ip("vm-2".to_string()).unwrap();
    pool.clear();

    let stats = pool.get_stats();
    assert_eq!(stats.allocated, 0);
    assert_eq!(stats.available, 253);

    // After a reset the lowest address is handed out first again.
    assert_eq!(pool.allocate_ip("vm-3".to_string()).unwrap(), "172.16.0.2");
}

#[test]
fn test_getters_and_stats_strings() {
    let pool = IpPool::new("172.16.0".to_string(), "172.16.0.1".to_string());

    assert_eq!(pool.get_network(), "172.16.0");
    assert_eq!(pool.get_gateway(), "172.16.0.1");

    let stats = pool.get_stats();
    assert_eq!(stats.network, "172.16.0.0/24");
    assert_eq!(stats.gateway, "172.16.0.1");
}

#[test]
fn test_error_messages() {
    assert_eq!(
        IpPoolError::NoAvailableIps.message(),
        "no available IPs in pool"
    );
    assert_eq!(IpPoolError::IpNotFound.message(), "IP not found in allocations");
    assert_eq!(IpPoolError::InvalidIp.message(), "invalid IP address");
}
