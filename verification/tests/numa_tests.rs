use calculation_engine::numa_optimizer::{
    NumaAllocator, NumaNode, NumaScheduler, NumaTopology,
};
use calculation_engine::EngineError;

fn topology(total: usize, current: usize) -> NumaTopology {
    let nodes = (0..total)
        .map(|id| NumaNode {
            id,
            cpus: vec![id * 2, id * 2 + 1],
            memory_kb: 16 * 1024 * 1024,
            local_latency_ns: 100,
            remote_latency_ns: Vec::new(),
        })
        .collect();
    NumaTopology { nodes, total_nodes: total, current_node: current }
}

#[test]
fn test_cpu_list_parsing() {
    let cpus = NumaScheduler::parse_cpu_list("0-3,8-11").unwrap();
    assert_eq!(cpus, vec![0, 1, 2, 3, 8, 9, 10, 11]);

    let cpus = NumaScheduler::parse_cpu_list("0,2,4,6").unwrap();
    assert_eq!(cpus, vec![0, 2, 4, 6]);
}

#[test]
fn cpu_list_parsing_rejects_malformed_lists() {
    assert_eq!(
        NumaScheduler::parse_cpu_list("").unwrap_err(),
        EngineError::InvalidArgument
    );
    assert_eq!(
        NumaScheduler::parse_cpu_list("0-").unwrap_err(),
        EngineError::InvalidArgument
    );
    assert_eq!(
        NumaScheduler::parse_cpu_list("3,").unwrap_err(),
        EngineError::InvalidArgument
    );
    assert_eq!(
        NumaScheduler::parse_cpu_list("a-b").unwrap_err(),
        EngineError::InvalidArgument
    );
    assert_eq!(
        NumaScheduler::parse_cpu_list("99999999999999999999999").unwrap_err(),
        EngineError::InvalidArgument
    );
    // A single CPU and a reversed (empty) range are both well-formed.
    assert_eq!(NumaScheduler::parse_cpu_list("7").unwrap(), vec![7]);
    assert_eq!(NumaScheduler::parse_cpu_list("5-4,9").unwrap(), vec![9]);
}

#[test]
fn meminfo_parsing_extracts_memtotal_kilobytes() {
    let content = "Node 0 MemTotal:       16384 kB\nNode 0 MemFree:        1024 kB\n";
    assert_eq!(NumaScheduler::parse_memory_info(content).unwrap(), 16384);

    // Without a MemTotal line the figure is zero, as for a missing file.
    assert_eq!(NumaScheduler::parse_memory_info("MemFree: 12 kB\n").unwrap(), 0);
    assert_eq!(NumaScheduler::parse_memory_info("").unwrap(), 0);

    let bad = "Node 0 MemTotal: many kB\n";
    assert_eq!(
        NumaScheduler::parse_memory_info(bad).unwrap_err(),
        EngineError::InvalidArgument
    );

    // The first matching line wins, whatever spacing it uses and whatever
    // comes after it.
    let multi = "Node 1 HugePages: 2\nNode 1\tMemTotal:\t  8192 kB\nNode 1 MemTotal: 42 kB";
    assert_eq!(NumaScheduler::parse_memory_info(multi).unwrap(), 8192);

    // A matching line with fewer than four fields is malformed.
    let short = "Node MemTotal:\n";
    assert_eq!(
        NumaScheduler::parse_memory_info(short).unwrap_err(),
        EngineError::InvalidArgument
    );
}

#[test]
fn placement_policy_by_node_count() {
    // One node: everything stays wherever the caller runs.
    let s1 = NumaScheduler::from_topology(topology(1, 0));
    assert_eq!(s1.get_node_for_service("market_data_ingestion"), 0);
    assert_eq!(s1.get_node_for_service("anything_else"), 0);

    // Two nodes: ingest and orders on node 0, risk and portfolio on node 1.
    let s2 = NumaScheduler::from_topology(topology(2, 0));
    assert_eq!(s2.get_node_for_service("market_data_ingestion"), 0);
    assert_eq!(s2.get_node_for_service("order_processing"), 0);
    assert_eq!(s2.get_node_for_service("risk_calculation"), 1);
    assert_eq!(s2.get_node_for_service("portfolio_calculation"), 1);
    assert_eq!(s2.get_node_for_service("technical_analysis"), 0);

    // Four nodes: one critical service per node.
    let s4 = NumaScheduler::from_topology(topology(4, 2));
    assert_eq!(s4.get_node_for_service("market_data_ingestion"), 0);
    assert_eq!(s4.get_node_for_service("order_processing"), 1);
    assert_eq!(s4.get_node_for_service("risk_calculation"), 2);
    assert_eq!(s4.get_node_for_service("portfolio_calculation"), 3);
    assert_eq!(s4.get_node_for_service("news_processing"), 2);

    // Other pluralities: the six well-known services round-robin.
    let s6 = NumaScheduler::from_topology(topology(6, 5));
    assert_eq!(s6.get_node_for_service("market_data_ingestion"), 0);
    assert_eq!(s6.get_node_for_service("order_processing"), 1);
    assert_eq!(s6.get_node_for_service("risk_calculation"), 2);
    assert_eq!(s6.get_node_for_service("portfolio_calculation"), 3);
    assert_eq!(s6.get_node_for_service("technical_analysis"), 4);
    assert_eq!(s6.get_node_for_service("news_processing"), 5);
    assert_eq!(s6.get_node_for_service("unknown"), 5);

    let s3 = NumaScheduler::from_topology(topology(3, 1));
    assert_eq!(s3.get_node_for_service("portfolio_calculation"), 0);
    assert_eq!(s3.get_node_for_service("technical_analysis"), 1);

    assert_eq!(s4.get_topology().total_nodes, 4);
    assert_eq!(s4.get_topology().current_node, 2);
}

#[test]
fn allocator_remembers_node_and_mount_path() {
    let alloc = NumaAllocator::new(3);
    assert_eq!(alloc.node_id, 3);
    assert_eq!(alloc.hugepage_mount, "/mnt/hugepages/node3");

    let alloc = NumaAllocator::new(1507);
    assert_eq!(alloc.hugepage_mount, "/mnt/hugepages/node1507");

    let alloc = NumaAllocator::new(0);
    assert_eq!(alloc.hugepage_mount, "/mnt/hugepages/node0");
}
