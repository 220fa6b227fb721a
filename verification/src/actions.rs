//! What the window's controls ask for, checked and turned into proxy
//! settings, and the texts the window shows.
use vstd::prelude::*;
use crate::proxy::{
    host_problem, lemma_host_accepted, lemma_no_proxy_accepted, no_proxy_problem, validate_host, validate_no_proxy, ProxyConfig, ProxyType,
};
use crate::text::{
    is_control, is_whitespace, parse_port_number, parse_u16, push_str, same_text, string_of,
};

verus! {

/// The tray icon's tooltip.
pub fn tooltip_text(running: bool) -> (t: &'static str)
    ensures
        running ==> t@ == "Proxy Term - 代理已启动"@,
        !running ==> t@ == "Proxy Term - 代理未启动"@,
{
    if running {
        "Proxy Term - 代理已启动"
    } else {
        "Proxy Term - 代理未启动"
    }
}

/// The kind of proxy a label names: `SOCKS5`, or HTTP for anything else.
pub open spec fn label_type(label: Seq<char>) -> ProxyType {
    if label == "SOCKS5"@ {
        ProxyType::Socks5
    } else {
        ProxyType::Http
    }
}

pub fn proxy_type_from_label(label: &str) -> (t: ProxyType)
    ensures
        t == label_type(label@),
{
    if same_text(label, "SOCKS5") {
        ProxyType::Socks5
    } else {
        ProxyType::Http
    }
}

/// The position of a label in the kind selector: 1 for `SOCKS5`, 0 for
/// anything else.
pub fn proxy_type_index(label: &str) -> (i: i32)
    ensures
        i == (if label@ == "SOCKS5"@ { 1i32 } else { 0i32 }),
{
    if same_text(label, "SOCKS5") {
        1
    } else {
        0
    }
}

/// The label at a position of the kind selector: `SOCKS5` at 1, `HTTP`
/// anywhere else.
pub fn proxy_type_label(index: i32) -> (l: &'static str)
    ensures
        index == 1 ==> l@ == "SOCKS5"@,
        index != 1 ==> l@ == "HTTP"@,
{
    if index == 1 {
        "SOCKS5"
    } else {
        "HTTP"
    }
}

/// The error for a port that is not a number from 0 to 65535.
pub open spec fn bad_port_text() -> Seq<char> {
    "错误: 无效的端口号"@
}

/// What is wrong with a request to start the proxy, if anything, in the
/// order the fields are checked: the port, the host, the bypass list.
pub open spec fn launch_problem(host: Seq<char>, port: Seq<char>, no_proxy: Seq<char>) -> Option<
    Seq<char>,
> {
    if parse_u16(port) is None {
        Some(bad_port_text())
    } else if host_problem(host) is Some {
        host_problem(host)
    } else {
        no_proxy_problem(no_proxy)
    }
}

/// What is wrong with a request to test the proxy, if anything: the port,
/// then the host. The bypass list plays no part in a test.
pub open spec fn test_problem(host: Seq<char>, port: Seq<char>) -> Option<Seq<char>> {
    if parse_u16(port) is None {
        Some(bad_port_text())
    } else {
        host_problem(host)
    }
}

/// Checks the fields of a request to start the proxy and makes the proxy
/// setting they describe.
pub fn parse_launch_request(proxy_type: &str, host: &str, port: &str, no_proxy: &str) -> (r: Result<
    ProxyConfig,
    String,
>)
    ensures
        r is Ok <==> launch_problem(host@, port@, no_proxy@) is None,
        r matches Err(e) ==> launch_problem(host@, port@, no_proxy@) == Some(e@),
        r matches Ok(c) ==> c.proxy_type == label_type(proxy_type@) && c.host@ == host@ && Some(
            c.port,
        ) == parse_u16(port@) && c.no_proxy@ == no_proxy@,
        r is Ok <==> parse_u16(port@) is Some && (exists|i: int|
            0 <= i < host@.len() && !is_whitespace(#[trigger] host@[i])) && (forall|i: int|
            0 <= i < host@.len() ==> !is_control(#[trigger] host@[i])) && (forall|i: int|
            0 <= i < no_proxy@.len() ==> !is_control(#[trigger] no_proxy@[i])),
{
    proof {
        lemma_host_accepted(host@);
        lemma_no_proxy_accepted(no_proxy@);
    }
    let kind = proxy_type_from_label(proxy_type);
    let port_num = match parse_port_number(port) {
        Some(p) => p,
        None => {
            return Err(string_of("错误: 无效的端口号"));
        },
    };
    match validate_host(host) {
        Err(e) => {
            return Err(e);
        },
        Ok(_) => {},
    }
    match validate_no_proxy(no_proxy) {
        Err(e) => {
            return Err(e);
        },
        Ok(_) => {},
    }
    Ok(ProxyConfig::new(kind, host, port_num, no_proxy))
}

/// Checks the fields of a request to test the proxy and makes the proxy
/// setting to test, with an empty bypass list.
pub fn parse_test_request(proxy_type: &str, host: &str, port: &str) -> (r: Result<
    ProxyConfig,
    String,
>)
    ensures
        r is Ok <==> test_problem(host@, port@) is None,
        r matches Err(e) ==> test_problem(host@, port@) == Some(e@),
        r matches Ok(c) ==> c.proxy_type == label_type(proxy_type@) && c.host@ == host@ && Some(
            c.port,
        ) == parse_u16(port@) && c.no_proxy@ == Seq::<char>::empty(),
{
    let kind = proxy_type_from_label(proxy_type);
    let port_num = match parse_port_number(port) {
        Some(p) => p,
        None => {
            return Err(string_of("错误: 无效的端口号"));
        },
    };
    match validate_host(host) {
        Err(e) => {
            return Err(e);
        },
        Ok(_) => {},
    }
    proof {
        reveal_strlit("");
    }
    Ok(ProxyConfig::new(kind, host, port_num, ""))
}

/// The message when no terminal could be opened, with the last error where
/// there was one.
pub fn terminal_error_message(last_error: Option<&str>) -> (m: String)
    ensures
        last_error matches Some(e) ==> m@ == "打开终端失败: "@ + e@,
        last_error is None ==> m@ == "打开终端失败: "@ + "未找到可用终端"@,
{
    let mut m = string_of("打开终端失败: ");
    match last_error {
        Some(e) => push_str(&mut m, e),
        None => push_str(&mut m, "未找到可用终端"),
    }
    m
}

/// The terminals tried in turn on Linux and other Unix systems but macOS.
pub open spec fn terminal_candidate_texts() -> Seq<Seq<char>> {
    seq![
        "x-terminal-emulator"@,
        "kgx"@,
        "gnome-terminal"@,
        "konsole"@,
        "xfce4-terminal"@,
        "alacritty"@,
        "kitty"@,
        "xterm"@,
    ]
}

pub fn terminal_candidates() -> (v: Vec<&'static str>)
    ensures
        v@.map_values(|s: &str| s@) == terminal_candidate_texts(),
{
    let mut v: Vec<&'static str> = Vec::new();
    v.push("x-terminal-emulator");
    v.push("kgx");
    v.push("gnome-terminal");
    v.push("konsole");
    v.push("xfce4-terminal");
    v.push("alacritty");
    v.push("kitty");
    v.push("xterm");
    assert(v@.map_values(|s: &str| s@) =~= terminal_candidate_texts());
    v
}

/// What to do next while opening a terminal.
pub enum TerminalAction {
    /// Try to start this terminal.
    Launch(&'static str),
    /// No terminal is left to try: fail with this message.
    GiveUp(String),
}

/// The next step in opening a terminal, after `tried` terminals failed to
/// start, the last of them with `last_error`: the next candidate, or, once
/// all were tried, the failure message.
pub fn next_terminal_action(tried: usize, last_error: Option<&str>) -> (a: TerminalAction)
    ensures
        tried < terminal_candidate_texts().len() ==> (a matches TerminalAction::Launch(n) && n@
            == terminal_candidate_texts()[tried as int]),
        tried >= terminal_candidate_texts().len() ==> (a matches TerminalAction::GiveUp(m) && m@
            == "打开终端失败: "@ + match last_error {
            Some(e) => e@,
            None => "未找到可用终端"@,
        }),
{
    let candidates = terminal_candidates();
    assert(candidates@.len() == 8) by {
        assert(candidates@.map_values(|s: &str| s@).len() == candidates@.len());
    }
    if tried < candidates.len() {
        let n = candidates[tried];
        assert(n@ == candidates@.map_values(|s: &str| s@)[tried as int]);
        TerminalAction::Launch(n)
    } else {
        TerminalAction::GiveUp(terminal_error_message(last_error))
    }
}

} // verus!
