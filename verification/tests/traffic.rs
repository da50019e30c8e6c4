use hydra::traffic::{format_bytes, format_duration, TrafficMonitor};

#[test]
fn test_format_bytes() {
    assert_eq!(format_bytes(0), "0 B");
    assert_eq!(format_bytes(1023), "1023 B");
    assert_eq!(format_bytes(1024), "1.00 KB");
    assert_eq!(format_bytes(1024 * 1024), "1.00 MB");
    assert_eq!(format_bytes(1024 * 1024 * 1024), "1.00 GB");
}

#[test]
fn test_format_duration() {
    assert_eq!(format_duration(0), "00:00:00");
    assert_eq!(format_duration(61), "00:01:01");
    assert_eq!(format_duration(3661), "01:01:01");
    assert_eq!(format_duration(86401), "1天 00:00:01");
}

fn float_text(bytes: u64) -> String {
    const KB: f64 = 1024.0;
    const MB: f64 = KB * 1024.0;
    const GB: f64 = MB * 1024.0;
    const TB: f64 = GB * 1024.0;
    let b = bytes as f64;
    if b < KB {
        format!("{:.0} B", b)
    } else if b < MB {
        format!("{:.2} KB", b / KB)
    } else if b < GB {
        format!("{:.2} MB", b / MB)
    } else if b < TB {
        format!("{:.2} GB", b / GB)
    } else {
        format!("{:.2} TB", b / TB)
    }
}

#[test]
fn format_bytes_matches_float_formatting() {
    let mut samples: Vec<u64> = vec![
        0, 1, 9, 10, 99, 100, 512, 1000, 1023, 1024, 1025, 1029, 1030, 1035, 1152, 1280, 1536,
        2047, 2048, 10240, 102399, 102400, 1048575, 1048576, 1048577, 1179648, 1074790400,
        1073741823, 1073741824, 1099511627775, 1099511627776, 1236950581248,
        9007199254740991, 9007199254740992, 9007199254740993, 9007199254740995,
        18014398509481985, 18446744073709551615, 18446744073709550591, 18446744073709549568,
        u64::MAX / 3, u64::MAX / 7,
    ];
    let mut x: u64 = 0x9E37_79B9_7F4A_7C15;
    for _ in 0..2000 {
        x ^= x << 13;
        x ^= x >> 7;
        x ^= x << 17;
        samples.push(x >> (x % 60));
    }
    for k in 0..64u32 {
        samples.push(1u64 << k);
        samples.push((1u64 << k).wrapping_add(1u64 << k >> 1));
    }
    for b in samples {
        assert_eq!(format_bytes(b), float_text(b), "bytes = {}", b);
    }
}

#[test]
fn format_bytes_ties_round_like_floats() {
    // 1152 / 1024 = 1.125 exactly, a tie at two decimals.
    assert_eq!(format_bytes(1152), float_text(1152));
    assert_eq!(format_bytes(1664), float_text(1664));
}

#[test]
fn format_duration_days_and_hours() {
    assert_eq!(format_duration(59), "00:00:59");
    assert_eq!(format_duration(86399), "23:59:59");
    assert_eq!(format_duration(2 * 86400 + 3600 * 5 + 7), "2天 05:00:07");
    assert_eq!(format_duration(u64::MAX), "213503982334601天 07:00:15");
}

#[test]
fn traffic_monitor_counts() {
    let mut m = TrafficMonitor::new();
    m.record_sent_at(100, 1_000);
    m.record_sent_at(50, 2_000_000_000);
    m.record_received_at(7, 3);
    m.connection_opened();
    m.connection_opened();
    m.connection_closed();
    let s = m.stats_at(2_500_000_000);
    assert_eq!(s.bytes_sent, 150);
    assert_eq!(s.bytes_received, 7);
    assert_eq!(s.active_connections, 1);
    assert_eq!(s.total_connections, 2);
    assert_eq!(s.uptime_secs, 2);
    let up = s.upload.unwrap();
    assert_eq!(up.bytes, 50);
    assert_eq!(up.nanos, 2_000_000_000 - 1_000);
    assert!(s.download.is_none());
    m.reset();
    let s = m.stats_at(3_000_000_000);
    assert_eq!(s.bytes_sent, 0);
    assert_eq!(s.active_connections, 0);
    // The last rate is remembered.
    assert_eq!(s.upload.unwrap().bytes, 50);
}

#[test]
fn traffic_monitor_window_and_wrapping() {
    let mut m = TrafficMonitor::new();
    m.connection_closed();
    let s = m.stats_at(0);
    assert_eq!(s.active_connections, u64::MAX);
    m.record_sent_at(u64::MAX, 0);
    m.record_sent_at(2, 1);
    let s = m.stats_at(1);
    assert_eq!(s.bytes_sent, 1);
    // Samples older than five seconds are forgotten.
    m.record_sent_at(10, 10_000_000_000);
    let s = m.stats_at(10_000_000_000);
    assert_eq!(s.upload.unwrap().bytes, 2);
}
