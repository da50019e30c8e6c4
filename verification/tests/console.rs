use hydra::addr::{IpAddress, SockAddr};
use hydra::console::{merge_addresses, plan_start, LogBook, StartStep, MAX_LOG_LINES};

#[test]
fn log_keeps_the_newest_hundred_lines() {
    let mut log = LogBook::new();
    for i in 0..105 {
        log.add(format!("line {}", i));
    }
    assert_eq!(log.len(), MAX_LOG_LINES);
    assert_eq!(log.lines_vec()[0], "line 5");
    assert_eq!(log.lines_vec()[99], "line 104");
}

#[test]
fn short_log_keeps_everything() {
    let mut log = LogBook::new();
    log.add("a".to_string());
    log.add("b".to_string());
    assert_eq!(log.lines_vec(), &vec!["a".to_string(), "b".to_string()]);
}

#[test]
fn merging_skips_known_addresses() {
    let mut addrs = vec!["127.0.0.1:8080".to_string()];
    let candidates = vec![
        "127.0.0.1:8080".to_string(),
        "192.168.1.100:8080".to_string(),
        "192.168.1.100:8080".to_string(),
        "10.0.0.1:9000".to_string(),
    ];
    let added = merge_addresses(&mut addrs, &candidates);
    assert_eq!(added, 2);
    assert_eq!(
        addrs,
        vec!["127.0.0.1:8080".to_string(), "192.168.1.100:8080".to_string(), "10.0.0.1:9000".to_string()]
    );
}

#[test]
fn start_plan_follows_state_and_addresses() {
    let a = SockAddr { ip: IpAddress::V4(0x7f00_0001), port: 1080 };
    let n = SockAddr { ip: IpAddress::V4(0x7f00_0001), port: 8080 };
    assert!(matches!(plan_start(true, Some(a), &vec![Some(n)]), StartStep::AlreadyRunning));
    assert!(matches!(plan_start(false, None, &vec![Some(n)]), StartStep::BadListenAddress));
    match plan_start(false, Some(a), &vec![None, Some(n), None]) {
        StartStep::Start { listen, nodes } => {
            assert_eq!(listen, a);
            assert_eq!(nodes, vec![n]);
        }
        other => panic!("unexpected {:?}", other),
    }
}
