use proxy_term::actions::{
    parse_launch_request, parse_test_request, proxy_type_from_label, proxy_type_index,
    proxy_type_label, terminal_error_message, tooltip_text,
};
use proxy_term::actions::{next_terminal_action, terminal_candidates, TerminalAction};
use proxy_term::config::{
    config_dir, config_dir_var, config_file, config_root, windows_backup_file, AppConfig,
};
use proxy_term::proxy::ProxyType;

#[test]
fn tooltips() {
    assert_eq!(tooltip_text(true), "Proxy Term - 代理已启动");
    assert_eq!(tooltip_text(false), "Proxy Term - 代理未启动");
}

#[test]
fn labels() {
    assert_eq!(proxy_type_from_label("SOCKS5"), ProxyType::Socks5);
    assert_eq!(proxy_type_from_label("socks5"), ProxyType::Http);
    assert_eq!(proxy_type_index("SOCKS5"), 1);
    assert_eq!(proxy_type_index("HTTP"), 0);
    assert_eq!(proxy_type_label(1), "SOCKS5");
    assert_eq!(proxy_type_label(0), "HTTP");
}

#[test]
fn launch_request_checks_in_order() {
    assert_eq!(parse_launch_request("HTTP", "", "x", "\n").unwrap_err(), "错误: 无效的端口号");
    assert_eq!(parse_launch_request("HTTP", "", "80", "\n").unwrap_err(), "错误: 代理地址不能为空");
    assert_eq!(
        parse_launch_request("HTTP", "h", "80", "\n").unwrap_err(),
        "错误: 绕过列表不能包含控制字符或换行"
    );
    let c = parse_launch_request("SOCKS5", "h", "+080", "lan").unwrap();
    assert_eq!(c.proxy_type, ProxyType::Socks5);
    assert_eq!(c.host, "h");
    assert_eq!(c.port, 80);
    assert_eq!(c.no_proxy, "lan");
}

#[test]
fn port_parsing_matches_std() {
    for p in ["0", "65535", "65536", "+1", "-1", "+", "", " 1", "007", "99999999999", "1a"] {
        let ours = parse_launch_request("HTTP", "h", p, "").map(|c| c.port).ok();
        assert_eq!(ours, p.parse::<u16>().ok(), "{p}");
    }
}

#[test]
fn test_request_ignores_bypass() {
    let c = parse_test_request("HTTP", "h", "7890").unwrap();
    assert_eq!(c.no_proxy, "");
    assert_eq!(c.proxy_url(), "http://h:7890");
    assert_eq!(parse_test_request("HTTP", "a\nb", "1").unwrap_err(), "错误: 代理地址不能包含控制字符或换行");
}

#[test]
fn terminal_messages() {
    assert_eq!(terminal_error_message(Some("boom")), "打开终端失败: boom");
    assert_eq!(terminal_error_message(None), "打开终端失败: 未找到可用终端");
}

#[test]
fn default_config() {
    let c = AppConfig::default();
    assert_eq!(c.proxy_type, "HTTP");
    assert_eq!(c.host, "127.0.0.1");
    assert_eq!(c.port, "7890");
    assert_eq!(c.no_proxy, "localhost,127.0.0.1,::1,10.0.0.0/8,172.16.0.0/12,192.168.0.0/16");
    assert_eq!(c.test_url, "http://www.google.com");
}

#[test]
fn config_locations() {
    assert_eq!(config_dir_var(true), "APPDATA");
    assert_eq!(config_dir_var(false), "HOME");
    assert_eq!(config_root(Some("/home/u"), false).unwrap(), "/home/u/.config");
    assert_eq!(config_root(Some("C:\\AppData"), true).unwrap(), "C:\\AppData");
    assert_eq!(config_root(None, true).unwrap_err(), "无法获取 APPDATA 目录");
    assert_eq!(config_root(None, false).unwrap_err(), "无法获取 HOME 目录");
}

#[test]
fn terminal_steps() {
    let names = terminal_candidates();
    assert_eq!(
        names,
        vec![
            "x-terminal-emulator",
            "kgx",
            "gnome-terminal",
            "konsole",
            "xfce4-terminal",
            "alacritty",
            "kitty",
            "xterm"
        ]
    );
    for (i, name) in names.iter().enumerate() {
        match next_terminal_action(i, Some("e")) {
            TerminalAction::Launch(n) => assert_eq!(&n, name),
            TerminalAction::GiveUp(_) => panic!("gave up too early"),
        }
    }
    match next_terminal_action(8, Some("not found")) {
        TerminalAction::GiveUp(m) => assert_eq!(m, "打开终端失败: not found"),
        TerminalAction::Launch(_) => panic!("no candidate left"),
    }
    match next_terminal_action(9, None) {
        TerminalAction::GiveUp(m) => assert_eq!(m, "打开终端失败: 未找到可用终端"),
        TerminalAction::Launch(_) => panic!("no candidate left"),
    }
}

#[test]
fn settings_paths() {
    assert_eq!(config_dir(Some("/home/u"), false).unwrap(), "/home/u/.config/proxy_term");
    assert_eq!(config_dir(None, false).unwrap_err(), "无法获取 HOME 目录");
    assert_eq!(config_dir(None, true).unwrap_err(), "无法获取 APPDATA 目录");
    assert_eq!(config_file("/home/u/.config/proxy_term"), "/home/u/.config/proxy_term/config.json");
    assert_eq!(windows_backup_file("/d"), "/d/windows-env-backup.json");
}
