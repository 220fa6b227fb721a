use proxy_term::proxy::{ProxyConfig, ProxyType};
use proxy_term::shell_rc::{
    has_config_block, remove_config, render_config_block, replace_or_append_config,
    shell_name, shell_rc_file, shell_single_quote, END_MARKER, START_MARKER,
};

#[test]
fn test_replace_or_append_config() {
    let content = "# some config\nalias ll='ls -la'";
    let new_config =
        "# Proxy Term - Start\nexport http_proxy=\"http://127.0.0.1:7890\"\n# Proxy Term - End";

    let result = replace_or_append_config(content, new_config);
    assert!(result.contains("# Proxy Term - Start"));
    assert!(result.contains("alias ll='ls -la'"));
}

#[test]
fn test_replace_existing_config() {
    let content = "# some config\n# Proxy Term - Start\nexport http_proxy=\"old\"\n# Proxy Term - End\nalias ll='ls -la'";
    let new_config = "# Proxy Term - Start\nexport http_proxy=\"new\"\n# Proxy Term - End";

    let result = replace_or_append_config(content, new_config);
    assert!(result.contains("http_proxy=\"new\""));
    assert!(!result.contains("http_proxy=\"old\""));
    assert!(result.contains("alias ll='ls -la'"));
}

#[test]
fn test_remove_config() {
    let content = "# some config\n# Proxy Term - Start\nexport http_proxy=\"http://127.0.0.1:7890\"\n# Proxy Term - End\nalias ll='ls -la'";

    let result = remove_config(content);
    assert!(!result.contains("# Proxy Term - Start"));
    assert!(!result.contains("http_proxy"));
    assert!(result.contains("alias ll='ls -la'"));
}

#[test]
fn test_marker_end_before_start_is_ignored() {
    let content = "# Proxy Term - End\nkeep\n# Proxy Term - Start\nold";
    let new_config = "# Proxy Term - Start\nnew\n# Proxy Term - End";

    let result = replace_or_append_config(content, new_config);
    assert!(result.starts_with(content));
    assert!(result.ends_with(new_config));
}

#[test]
fn test_shell_single_quote_escapes_quotes_and_substitution() {
    let result = shell_single_quote("a'b$(touch /tmp/nope)");
    assert_eq!(result, "'a'\\''b$(touch /tmp/nope)'");
}

#[test]
fn replace_exact_text() {
    let content = "a\n\n# Proxy Term - Start\nx\n# Proxy Term - End\n\n\nb\n";
    let block = "# Proxy Term - Start\ny\n# Proxy Term - End";
    assert_eq!(
        replace_or_append_config(content, block),
        "a\n# Proxy Term - Start\ny\n# Proxy Term - End\nb\n"
    );
}

#[test]
fn append_to_empty_and_to_text() {
    let block = "# Proxy Term - Start\ny\n# Proxy Term - End";
    assert_eq!(replace_or_append_config("", block), block);
    assert_eq!(replace_or_append_config("\n\n", block), block);
    assert_eq!(
        replace_or_append_config("x\n\n\n", block),
        "x\n\n# Proxy Term - Start\ny\n# Proxy Term - End"
    );
}

#[test]
fn remove_exact_text() {
    assert_eq!(remove_config("no block\n"), "no block\n");
    assert_eq!(remove_config("# Proxy Term - Start\nx\n# Proxy Term - End\n\nrest"), "rest");
    assert_eq!(remove_config("head\n\n# Proxy Term - Start\nx\n# Proxy Term - End"), "head");
    assert_eq!(remove_config("a\n# Proxy Term - Start\n# Proxy Term - End\nb"), "a\nb");
    assert_eq!(remove_config("a\n# Proxy Term - Start\nunterminated"), "a\n# Proxy Term - Start\nunterminated");
}

#[test]
fn set_then_unset_restores_file() {
    let c = ProxyConfig::new(ProxyType::Http, "127.0.0.1", 7890, "localhost");
    let block = render_config_block(&c.to_env_vars(), "bash");
    let before = "alias ll='ls -la'\nexport PATH=$PATH:~/bin\n\n";
    let set = replace_or_append_config(before, &block);
    assert!(has_config_block(&set));
    let unset = remove_config(&set);
    assert_eq!(unset, "alias ll='ls -la'\nexport PATH=$PATH:~/bin");
    assert!(!has_config_block(&unset));
}

#[test]
fn setting_twice_is_setting_once() {
    let block = "# Proxy Term - Start\nexport a='1'\n# Proxy Term - End";
    let once = replace_or_append_config("x\n# Proxy Term - Start\nold\n# Proxy Term - End\ny", block);
    let twice = replace_or_append_config(&once, block);
    assert_eq!(once, twice);
}

#[test]
fn rendered_block_per_shell() {
    let c = ProxyConfig::new(ProxyType::Socks5, "h", 1080, "");
    let vars = c.to_env_vars();
    assert_eq!(
        render_config_block(&vars, "zsh"),
        "# Proxy Term - Start\nexport all_proxy='socks5://h:1080'\nexport ALL_PROXY='socks5://h:1080'\n# Proxy Term - End"
    );
    assert_eq!(
        render_config_block(&vars, "fish"),
        "# Proxy Term - Start\nset -gx all_proxy 'socks5://h:1080'\nset -gx ALL_PROXY 'socks5://h:1080'\n# Proxy Term - End"
    );
}

#[test]
fn markers_and_detection() {
    assert_eq!(START_MARKER, "# Proxy Term - Start");
    assert_eq!(END_MARKER, "# Proxy Term - End");
    assert!(has_config_block("# Proxy Term - End\n# Proxy Term - Start"));
    assert!(!has_config_block("# Proxy Term - Start only"));
}

#[test]
fn quoting_edge_cases() {
    assert_eq!(shell_single_quote(""), "''");
    assert_eq!(shell_single_quote("'"), "''\\'''");
    assert_eq!(shell_single_quote("plain"), "'plain'");
}

#[test]
fn rc_file_per_shell() {
    assert_eq!(shell_rc_file("bash", Some("/home/u")).unwrap(), "/home/u/.bashrc");
    assert_eq!(shell_rc_file("zsh", Some("/home/u")).unwrap(), "/home/u/.zshrc");
    assert_eq!(shell_rc_file("fish", Some("/h")).unwrap(), "/h/.config/fish/config.fish");
    assert_eq!(shell_rc_file("sh", Some("/h")).unwrap(), "/h/.profile");
    assert_eq!(shell_rc_file("bash", None).unwrap_err(), "无法获取 HOME 目录");
}

#[test]
fn shell_name_from_variable() {
    assert_eq!(shell_name(Some("/usr/bin/zsh")), "zsh");
    assert_eq!(shell_name(Some("/bin/")), "bin");
    assert_eq!(shell_name(Some("/")), "bash");
    assert_eq!(shell_name(None), "bash");
}

#[test]
fn hash_in_host_round_trips() {
    let c = ProxyConfig::new(ProxyType::Http, "a#b", 8080, "x#y");
    let block = render_config_block(&c.to_env_vars(), "bash");
    let set = replace_or_append_config("keep\n", &block);
    assert!(has_config_block(&set));
    assert_eq!(remove_config(&set), "keep");
}

#[test]
fn end_marker_in_host_breaks_the_block() {
    let c = ProxyConfig::new(ProxyType::Http, "x# Proxy Term - End", 1, "");
    let block = render_config_block(&c.to_env_vars(), "bash");
    let set = replace_or_append_config("keep", &block);
    assert_ne!(remove_config(&set), "keep");
}

#[test]
fn setting_twice_on_a_fresh_file_keeps_one_block() {
    let b1 = "# Proxy Term - Start\nexport a='1'\n# Proxy Term - End";
    let b2 = "# Proxy Term - Start\nexport a='2'\n# Proxy Term - End";
    let twice = replace_or_append_config(&replace_or_append_config("x\n\n", b1), b2);
    assert_eq!(twice, "x\n# Proxy Term - Start\nexport a='2'\n# Proxy Term - End\n");
    let twice = replace_or_append_config(&replace_or_append_config("", b1), b2);
    assert_eq!(twice, "\n# Proxy Term - Start\nexport a='2'\n# Proxy Term - End\n");
}

#[test]
fn end_marker_in_host_still_reads_unset_after_stop() {
    let c = ProxyConfig::new(ProxyType::Socks5, "x# Proxy Term - End", 1, "");
    let block = render_config_block(&c.to_env_vars(), "bash");
    let set = replace_or_append_config("keep", &block);
    assert!(has_config_block(&set));
    assert!(!has_config_block(&remove_config(&set)));
}
