use base64::Engine as _;
use hydra::session::NodeStatus;
use hydra::share_url::{
    parse_share_url, share_lines, share_url_from_base64, MetricKey, ShareLinkError,
};

#[test]
fn test_parse_multiple_links() {
    let text = r#"
# 注释行
hydra://127.0.0.1:8080?bandwidth=100&latency=10&loss_rate=0.01&status=online
hydra://192.168.1.100:8080?bandwidth=80&latency=15&loss_rate=0.02&status=online
        "#;

    let links: Vec<_> = share_lines(text).into_iter().map(|r| r.unwrap()).collect();
    assert_eq!(links.len(), 2);
    assert_eq!(links[0].address, "127.0.0.1");
    assert_eq!(links[1].address, "192.168.1.100");
}

#[test]
fn share_url_parts_and_defaults() {
    let u = parse_share_url("hydra://10.0.0.1:9000?latency=12.5&foo=bar&load=0.3&status=degraded").unwrap();
    assert_eq!(u.address, "10.0.0.1");
    assert_eq!(u.port, 9000);
    assert_eq!(
        u.metric_texts,
        vec![(MetricKey::Latency, "12.5".to_string()), (MetricKey::Load, "0.3".to_string())]
    );
    assert_eq!(u.status, NodeStatus::Degraded);
    let plain = parse_share_url("hydra://h:1").unwrap();
    assert!(plain.metric_texts.is_empty());
    assert_eq!(plain.status, NodeStatus::Online);
    assert_eq!(parse_share_url("hydra://h:1?status=weird").unwrap().status, NodeStatus::Online);
}

#[test]
fn share_url_errors() {
    assert_eq!(parse_share_url("not a url").unwrap_err(), ShareLinkError::InvalidUrl);
    assert_eq!(parse_share_url("http://h:1").unwrap_err(), ShareLinkError::InvalidScheme);
    assert_eq!(parse_share_url("hydra:nohost").unwrap_err(), ShareLinkError::MissingHost);
    assert_eq!(parse_share_url("hydra://h").unwrap_err(), ShareLinkError::MissingPort);
    assert_eq!(share_url_from_base64("!!!").unwrap_err(), ShareLinkError::InvalidBase64);
    let not_utf8 = base64::engine::general_purpose::STANDARD.encode([0xffu8, 0xfe]);
    assert_eq!(share_url_from_base64(&not_utf8).unwrap_err(), ShareLinkError::InvalidUtf8);
}

#[test]
fn base64_share_url() {
    let url = "hydra://127.0.0.1:8080?bandwidth=100&latency=10&loss_rate=0.01&load=0.5&status=online";
    let encoded = base64::engine::general_purpose::STANDARD.encode(url.as_bytes());
    let u = share_url_from_base64(&encoded).unwrap();
    assert_eq!(u.address, "127.0.0.1");
    assert_eq!(u.port, 8080);
    assert_eq!(u.metric_texts.len(), 4);
    assert_eq!(u.metric_texts[0], (MetricKey::Bandwidth, "100".to_string()));
    assert_eq!(u.metric_texts[2], (MetricKey::LossRate, "0.01".to_string()));
}
