use ippool::shared::SharedIpPool;
use ippool::IpPoolError;

#[test]
fn test_shared_pool_basic_cycle() {
    let pool = SharedIpPool::new("172.16.0".to_string(), "172.16.0.1".to_string());

    let ip = pool.allocate_ip("vm-1".to_string()).unwrap();
    assert_eq!(ip, "172.16.0.2");

    let again = pool.allocate_ip("vm-1".to_string()).unwrap();
    assert_eq!(again, "172.16.0.2");

    let a = pool.get_allocation("vm-1").unwrap();
    assert_eq!(a.ip, "172.16.0.2");
    assert_eq!(a.vm_id, "vm-1");

    assert_eq!(pool.list_allocations().len(), 1);

    pool.release_ip("vm-1").unwrap();
    let stats = pool.get_stats();
    assert_eq!(stats.allocated, 0);
    assert_eq!(stats.available, stats.total);
}

#[test]
fn test_shared_pool_counters_add_up() {
    let pool = SharedIpPool::new("10.0.0".to_string(), "10.0.0.1".to_string());

    for i in 0..10 {
        pool.allocate_ip(format!("vm-{}", i)).unwrap();
    }
    let stats = pool.get_stats();
    assert_eq!(stats.total, 253);
    assert_eq!(stats.allocated, 10);
    assert_eq!(stats.allocated + stats.available, stats.total);
    assert_eq!(stats.network, "10.0.0.0/24");
    assert_eq!(stats.gateway, "10.0.0.1");
}

#[test]
fn test_shared_pool_release_by_address() {
    let pool = SharedIpPool::new("10.0.0".to_string(), "10.0.0.1".to_string());

    let ip = pool.allocate_ip("vm-1".to_string()).unwrap();
    pool.release_ip_by_address(&ip).unwrap();
    assert_eq!(pool.get_stats().allocated, 0);

    let result = pool.release_ip_by_address("not-an-address");
    assert!(matches!(result, Err(IpPoolError::InvalidIp)));

    let result = pool.release_ip_by_address("10.0.0.9");
    assert!(matches!(result, Err(IpPoolError::IpNotFound)));
}

#[test]
fn test_shared_pool_clear_and_getters() {
    let pool = SharedIpPool::new("172.16.0".to_string(), "172.16.0.1".to_string());

    assert_eq!(pool.get_network(), "172.16.0");
    assert_eq!(pool.get_gateway(), "172.16.0.1");

    pool.allocate_ip("vm-1".to_string()).unwrap();
    pool.clear();
    assert_eq!(pool.get_stats().allocated, 0);
    assert_eq!(pool.allocate_ip("vm-2".to_string()).unwrap(), "172.16.0.2");
}
