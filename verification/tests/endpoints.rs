use ippool::handlers::{
    allocate_ip, get_allocation, get_stats, health_check, list_allocations, release_ip,
    release_ip_by_address, AllocateIpRequest,
};
use ippool::{IpPool, IpPoolError};

#[test]
fn test_health_endpoint() {
    assert_eq!(health_check().status, "healthy");
}

#[test]
fn test_allocate_endpoint_reports_pool_configuration() {
    let mut pool = IpPool::new("172.16.0".to_string(), "172.16.0.1".to_string());

    let req = AllocateIpRequest {
        vm_id: "vm-1".to_string(),
        hostname: Some("web-1".to_string()),
    };
    let resp = allocate_ip(&mut pool, req).unwrap();

    assert_eq!(resp.ip, "172.16.0.2");
    assert_eq!(resp.vm_id, "vm-1");
    assert_eq!(resp.gateway, "172.16.0.1");
    assert_eq!(resp.network, "172.16.0.0/24");
    assert_eq!(resp.hostname, Some("web-1".to_string()));
}

#[test]
fn test_release_endpoints_echo_identifiers() {
    let mut pool = IpPool::new("172.16.0".to_string(), "172.16.0.1".to_string());

    allocate_ip(
        &mut pool,
        AllocateIpRequest { vm_id: "vm-1".to_string(), hostname: None },
    )
    .unwrap();
    let resp = release_ip(&mut pool, "vm-1".to_string()).unwrap();
    assert_eq!(resp.message, "IP released successfully");
    assert_eq!(resp.vm_id, Some("vm-1".to_string()));
    assert_eq!(resp.ip, None);

    allocate_ip(
        &mut pool,
        AllocateIpRequest { vm_id: "vm-2".to_string(), hostname: None },
    )
    .unwrap();
    let resp = release_ip_by_address(&mut pool, "172.16.0.2".to_string()).unwrap();
    assert_eq!(resp.message, "IP released successfully");
    assert_eq!(resp.vm_id, None);
    assert_eq!(resp.ip, Some("172.16.0.2".to_string()));
}

#[test]
fn test_lookup_and_listing_endpoints() {
    let mut pool = IpPool::new("172.16.0".to_string(), "172.16.0.1".to_string());

    allocate_ip(
        &mut pool,
        AllocateIpRequest { vm_id: "vm-1".to_string(), hostname: Some("web-1".to_string()) },
    )
    .unwrap();

    // The hostname is accepted but not recorded, so the lookup reports none.
    let a = get_allocation(&pool, "vm-1").unwrap();
    assert_eq!(a.ip, "172.16.0.2");
    assert_eq!(a.vm_id, "vm-1");
    assert_eq!(a.hostname, None);

    let all = list_allocations(&pool);
    assert_eq!(all.len(), 1);
    assert_eq!(all[0].ip, "172.16.0.2");
    assert_eq!(all[0].vm_id, "vm-1");

    let stats = get_stats(&pool);
    assert_eq!(stats.total, 253);
    assert_eq!(stats.allocated, 1);
    assert_eq!(stats.available, 252);

    let err = get_allocation(&pool, "vm-2").unwrap_err();
    assert_eq!(err, IpPoolError::IpNotFound);
}
