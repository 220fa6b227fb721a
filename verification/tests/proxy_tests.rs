use proxy_term::proxy::{
    contains_control_or_newline, proxy_env_keys, validate_host, validate_no_proxy, ProxyConfig,
    ProxyType,
};

#[test]
fn test_http_proxy_env_vars() {
    let config = ProxyConfig::new(ProxyType::Http, "127.0.0.1", 7890, "localhost");
    let vars = config.to_env_vars();
    assert_eq!(vars.get("http_proxy").unwrap(), "http://127.0.0.1:7890");
    assert_eq!(vars.get("https_proxy").unwrap(), "http://127.0.0.1:7890");
    assert_eq!(vars.get("no_proxy").unwrap(), "localhost");
}

#[test]
fn test_socks5_proxy_env_vars() {
    let config = ProxyConfig::new(ProxyType::Socks5, "127.0.0.1", 1080, "");
    let vars = config.to_env_vars();
    assert_eq!(vars.get("all_proxy").unwrap(), "socks5://127.0.0.1:1080");
    assert!(!vars.contains_key("no_proxy"));
}

#[test]
fn test_validate_host_rejects_empty_and_control_chars() {
    assert!(validate_host("").is_err());
    assert!(validate_host("127.0.0.1\nexport BAD=1").is_err());
    assert!(validate_host("127.0.0.1").is_ok());
}

#[test]
fn test_validate_no_proxy_rejects_control_chars() {
    assert!(validate_no_proxy("localhost,127.0.0.1").is_ok());
    assert!(validate_no_proxy("localhost\nbad").is_err());
}

#[test]
fn scheme_per_kind() {
    assert_eq!(ProxyType::Http.scheme(), "http");
    assert_eq!(ProxyType::Socks5.scheme(), "socks5");
}

#[test]
fn proxy_url_formats_port_in_decimal() {
    let c = ProxyConfig::new(ProxyType::Socks5, "proxy.local", 0, "");
    assert_eq!(c.proxy_url(), "socks5://proxy.local:0");
    let c = ProxyConfig::new(ProxyType::Http, "::1", 65535, "");
    assert_eq!(c.proxy_url(), "http://::1:65535");
}

#[test]
fn http_vars_in_order_with_bypass() {
    let c = ProxyConfig::new(ProxyType::Http, "h", 1, "a,b");
    let vars = c.to_env_vars();
    assert_eq!(vars.len(), 6);
    let names: Vec<String> = (0..vars.len()).map(|i| vars.entry(i).0.clone()).collect();
    assert_eq!(
        names,
        vec!["http_proxy", "https_proxy", "HTTP_PROXY", "HTTPS_PROXY", "no_proxy", "NO_PROXY"]
    );
    assert_eq!(vars.get("HTTPS_PROXY").unwrap(), "http://h:1");
    assert_eq!(vars.get("NO_PROXY").unwrap(), "a,b");
    assert!(vars.get("all_proxy").is_none());
}

#[test]
fn socks_vars_without_bypass() {
    let c = ProxyConfig::new(ProxyType::Socks5, "h", 1080, "");
    let vars = c.to_env_vars();
    assert_eq!(vars.len(), 2);
    assert_eq!(vars.get("ALL_PROXY").unwrap(), "socks5://h:1080");
    assert!(!vars.contains_key("http_proxy"));
}

#[test]
fn every_set_name_is_cleared_on_stop() {
    let keys = proxy_env_keys();
    assert_eq!(keys.len(), 8);
    for t in [ProxyType::Http, ProxyType::Socks5] {
        let vars = ProxyConfig::new(t, "h", 1, "x").to_env_vars();
        for i in 0..vars.len() {
            assert!(keys.contains(vars.entry(i).0));
        }
    }
}

#[test]
fn host_errors_are_exact() {
    assert_eq!(validate_host("  \t ").unwrap_err(), "错误: 代理地址不能为空");
    assert_eq!(validate_host("a\u{7f}b").unwrap_err(), "错误: 代理地址不能包含控制字符或换行");
    assert_eq!(validate_host("\u{3000}"), Err("错误: 代理地址不能为空".to_string()));
    assert!(validate_host(" host ").is_ok());
    assert_eq!(validate_no_proxy("a\u{85}").unwrap_err(), "错误: 绕过列表不能包含控制字符或换行");
}

#[test]
fn control_characters() {
    assert!(contains_control_or_newline("a\u{0}"));
    assert!(contains_control_or_newline("\u{9f}"));
    assert!(!contains_control_or_newline("\u{a0}é"));
    assert!(!contains_control_or_newline(""));
}

#[test]
fn character_classes_agree_with_std() {
    for u in 0u32..0x3100 {
        let Some(c) = char::from_u32(u) else { continue };
        let s = c.to_string();
        let expected = if c.is_whitespace() {
            Err("错误: 代理地址不能为空".to_string())
        } else if c.is_control() {
            Err("错误: 代理地址不能包含控制字符或换行".to_string())
        } else {
            Ok(())
        };
        assert_eq!(validate_host(&s), expected, "U+{u:04X}");
        assert_eq!(contains_control_or_newline(&s), c.is_control(), "U+{u:04X}");
    }
}
