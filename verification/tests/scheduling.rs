use hydra::addr::{IpAddress, SockAddr};
use hydra::config;
use hydra::node;
use hydra::pool::PoolConfig;
use hydra::scheduler::{NodeEntry, Scheduler};
use hydra::session::{NodeStatus, SessionError, SessionManager, SessionStatus};

fn addr(port: u16) -> SockAddr {
    SockAddr { ip: IpAddress::V4(0x7F00_0001), port }
}

/// An order-preserving integer for a finite score.
fn rank(score: f64) -> u64 {
    let bits = score.to_bits();
    if bits >> 63 == 1 { !bits } else { bits | (1 << 63) }
}

fn entry(port: u16, bandwidth: f64, latency: f64, loss: f64) -> NodeEntry<(f64, f64, f64)> {
    NodeEntry {
        address: addr(port),
        status: NodeStatus::Online,
        rank: rank(bandwidth * 0.5 - latency * 0.3 - loss * 0.2),
        metrics: (bandwidth, latency, loss),
    }
}

#[test]
fn test_node_selection() {
    let mut s = Scheduler::new();
    s.add_node(entry(8081, 100.0, 10.0, 0.01));
    s.add_node(entry(8082, 80.0, 15.0, 0.02));
    s.add_node(entry(8083, 120.0, 20.0, 0.03));
    let best = s.get_best_node().unwrap();
    assert_eq!(best.address, addr(8083));
}

#[test]
fn offline_nodes_are_skipped() {
    let mut s = Scheduler::new();
    assert!(s.get_best_node().is_none());
    s.add_node(entry(1, 100.0, 10.0, 0.01));
    s.add_node(entry(2, 80.0, 15.0, 0.02));
    s.mark_node_offline(&addr(1));
    assert_eq!(s.get_best_node().unwrap().address, addr(2));
    assert_eq!(s.get_online_nodes().len(), 1);
    assert_eq!(s.get_all_nodes().len(), 2);
    s.update_node_status(&addr(2), NodeStatus::Degraded);
    assert!(s.get_best_node().is_none());
    s.update_node_status(&addr(1), NodeStatus::Online);
    s.update_node_stats(&addr(1), 5, (0.0, 0.0, 0.0));
    assert_eq!(s.get_best_node().unwrap().rank, 5);
    s.remove_node(&addr(1));
    assert_eq!(s.get_all_nodes().len(), 1);
    // Adding an address again replaces its entry.
    s.add_node(entry(2, 1.0, 1.0, 1.0));
    assert_eq!(s.get_all_nodes().len(), 1);
    assert_eq!(s.get_all_nodes()[0].status, NodeStatus::Online);
}

#[test]
fn ties_go_to_the_earliest_added() {
    let mut s = Scheduler::new();
    s.add_node(NodeEntry { address: addr(1), status: NodeStatus::Online, rank: 7, metrics: () });
    s.add_node(NodeEntry { address: addr(2), status: NodeStatus::Online, rank: 7, metrics: () });
    assert_eq!(s.get_best_node().unwrap().address, addr(1));
}

#[test]
fn sessions_are_numbered_and_updated() {
    let mut m: SessionManager<()> = SessionManager::new();
    let a = m.create_session(addr(1));
    let b = m.create_session(addr(2));
    assert_eq!(a.id, 1);
    assert_eq!(b.id, 2);
    assert!(matches!(a.status, SessionStatus::Connecting));
    assert_eq!(m.get_session(2).unwrap().client, addr(2));
    assert!(m.update_session_status(1, SessionStatus::Active).is_ok());
    assert!(matches!(m.get_session(1).unwrap().status, SessionStatus::Active));
    assert!(m.close_session(1).is_ok());
    assert!(matches!(m.get_session(1).unwrap().status, SessionStatus::Closed));
    assert_eq!(m.close_session(9), Err(SessionError::NotFound(9)));
    assert!(m.get_session(9).is_err());
}

#[test]
fn default_configurations() {
    let c = node::NodeConfig::default();
    assert_eq!(c.address, SockAddr { ip: IpAddress::V4(0), port: 8080 });
    assert_eq!(c.max_connections, 1000);
    assert_eq!(c.buffer_size, 65536);
    let s = config::NodeConfig::default();
    assert_eq!(s.listen_addr.port, 8080);
    assert_eq!(s.log_level, "info");
    let p = PoolConfig::default();
    assert_eq!(p.max_idle_per_node, 4);
    assert_eq!(p.idle_timeout.as_secs(), 300);
    assert_eq!(p.cleanup_interval.as_secs(), 60);
    assert_eq!(p.connect_timeout.as_secs(), 10);
}
