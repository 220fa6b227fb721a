use proxy_term::probe::{connection_report, is_likely_ip, test_proxy, TEST_TIMEOUT_SECS};
use proxy_term::proxy::{ProxyConfig, ProxyType};

#[test]
fn test_is_likely_ip() {
    assert!(is_likely_ip("127.0.0.1"));
    assert!(is_likely_ip("2001:db8::1"));
    assert!(!is_likely_ip("hello"));
    assert!(!is_likely_ip(""));
}

#[test]
fn likely_ip_limits() {
    assert!(!is_likely_ip("1234"));
    assert!(is_likely_ip(&":".repeat(45)));
    assert!(!is_likely_ip(&":".repeat(46)));
    assert!(!is_likely_ip("1.2.3.4 "));
}

#[test]
fn report_success_with_address() {
    assert_eq!(
        connection_report(200, 35, Some(" 1.2.3.4\n")).unwrap(),
        "连接成功 (HTTP 200, 35 ms), 出口 IP 1.2.3.4"
    );
}

#[test]
fn report_success_without_address() {
    assert_eq!(
        connection_report(301, 0, Some("<html>")).unwrap(),
        "连接成功 (HTTP 301, 0 ms)"
    );
    assert_eq!(connection_report(399, 12345, None).unwrap(), "连接成功 (HTTP 399, 12345 ms)");
}

#[test]
fn report_failure_status() {
    assert_eq!(
        connection_report(404, 7, Some("1.2.3.4")).unwrap_err(),
        "连接失败 (HTTP 404, 7 ms)"
    );
    assert_eq!(connection_report(199, 1, None).unwrap_err(), "连接失败 (HTTP 199, 1 ms)");
}

#[test]
fn proxy_for_test_request() {
    assert_eq!(TEST_TIMEOUT_SECS, 5);
    assert!(test_proxy(&ProxyConfig::new(ProxyType::Http, "127.0.0.1", 7890, "")).is_ok());
    let err = test_proxy(&ProxyConfig::new(ProxyType::Http, "a b", 1, "")).unwrap_err();
    assert!(err.starts_with("无效的代理地址: "));
    assert!(err.len() > "无效的代理地址: ".len());
}
