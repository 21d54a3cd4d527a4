use cmx_rdma::config::{
    default_block_size, default_etcd_endpoints, default_key_prefix, default_lease_ttl_seconds,
    default_listen_addr, default_log_format, default_log_level, default_metrics_addr,
    default_total_size, default_transport_backend, default_ttl_seconds, default_vnodes_per_node,
    memory_size_problems, AgentSection, MetadataSection, MetricsSection, PlacementSection,
    SizeProblem, TlsSection, TransportSection,
};

#[test]
fn defaults_match_the_documented_values() {
    assert_eq!(default_total_size(), 1024 * 1024 * 1024);
    assert_eq!(default_block_size(), 256 * 1024);
    assert_eq!(default_listen_addr(), "0.0.0.0:50051");
    assert_eq!(default_log_level(), "info");
    assert_eq!(default_log_format(), "text");
    assert_eq!(default_etcd_endpoints(), vec!["http://localhost:2379".to_string()]);
    assert_eq!(default_key_prefix(), "/cmx/blocks");
    assert_eq!(default_ttl_seconds(), 3600);
    assert_eq!(default_lease_ttl_seconds(), 30);
    assert_eq!(default_transport_backend(), "mock");
    assert_eq!(default_metrics_addr(), "0.0.0.0:9090");
    assert_eq!(default_vnodes_per_node(), 128);
}

#[test]
fn section_defaults() {
    let agent = AgentSection::default();
    assert!(agent.node_id.is_empty());
    assert_eq!(agent.listen_addr, "0.0.0.0:50051");
    assert_eq!(agent.log_format, "text");
    assert_eq!(agent.max_requests_per_second, 0);
    let meta = MetadataSection::default();
    assert_eq!(meta.lease_ttl_seconds, 30);
    assert_eq!(TransportSection::default().backend, "mock");
    assert_eq!(MetricsSection::default().listen_addr, "0.0.0.0:9090");
    assert_eq!(PlacementSection::default().vnodes_per_node, 128);
    let tls = TlsSection::default();
    assert!(!tls.enabled);
    assert!(tls.cert_path.is_empty());
}

#[test]
fn node_id_resolution_order() {
    let mut a = AgentSection::default();
    a.resolve_node_id(Some("from-env".to_string()), "host".to_string());
    assert_eq!(a.node_id, "from-env");
    let mut b = AgentSection::default();
    b.resolve_node_id(None, "host".to_string());
    assert_eq!(b.node_id, "host");
    let mut c = AgentSection::default();
    c.node_id = "configured".to_string();
    c.resolve_node_id(Some("from-env".to_string()), "host".to_string());
    assert_eq!(c.node_id, "configured");
}

#[test]
fn default_memory_sizes_are_valid() {
    assert!(memory_size_problems(default_total_size(), default_block_size()).is_empty());
}

#[test]
fn zero_block_size_is_reported() {
    let p = memory_size_problems(1024, 0);
    assert_eq!(p, vec![SizeProblem::ZeroBlockSize]);
    assert!(p[0].message().contains("block_size must be > 0"));
}

#[test]
fn zero_total_size_is_reported() {
    let p = memory_size_problems(0, 4096);
    assert_eq!(p, vec![SizeProblem::ZeroTotalSize]);
    assert!(p[0].message().contains("total_size must be > 0"));
}

#[test]
fn total_not_divisible_by_block_is_reported() {
    let p = memory_size_problems(1000, 300);
    assert_eq!(p, vec![SizeProblem::TotalNotDivisible { total_size: 1000, block_size: 300 }]);
    assert_eq!(p[0].message(), "memory.total_size (1000) must be divisible by memory.block_size (300)");
    assert!(p[0].message().contains("divisible"));
}

#[test]
fn several_problems_are_collected_in_order() {
    assert_eq!(memory_size_problems(0, 0), vec![SizeProblem::ZeroBlockSize, SizeProblem::ZeroTotalSize]);
    assert_eq!(
        SizeProblem::TotalNotDivisible { total_size: 7, block_size: 10 }.message(),
        "memory.total_size (7) must be divisible by memory.block_size (10)"
    );
}
