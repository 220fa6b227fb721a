//! Judging the answer to a test request sent through the proxy.
use vstd::prelude::*;
use crate::proxy::ProxyConfig;
use crate::text::{
    char_is_ascii_hexdigit, chars_of, decimal, is_ascii_hexdigit, push_decimal, push_range,
    push_str, string_of, trim_bounds, trim_ws,
};

verus! {

pub open spec fn ip_char(c: char) -> bool {
    is_ascii_hexdigit(c) || c == '.' || c == ':'
}

/// Text that looks like an IPv4 or IPv6 address: at most 45 characters, not
/// empty, only hexadecimal digits, dots and colons, with at least one dot or
/// colon.
pub open spec fn likely_ip(s: Seq<char>) -> bool {
    &&& 0 < s.len() <= 45
    &&& forall|i: int| 0 <= i < s.len() ==> ip_char(#[trigger] s[i])
    &&& exists|i: int| 0 <= i < s.len() && (#[trigger] s[i] == '.' || s[i] == ':')
}

fn likely_ip_chars(v: &Vec<char>, lo: usize, hi: usize) -> (b: bool)
    requires
        lo <= hi <= v@.len(),
    ensures
        b == likely_ip(v@.subrange(lo as int, hi as int)),
{
    let ghost s = v@.subrange(lo as int, hi as int);
    if hi - lo > 45 || hi == lo {
        return false;
    }
    let mut separator = false;
    let mut i = lo;
    while i < hi
        invariant
            lo <= i <= hi <= v@.len(),
            s == v@.subrange(lo as int, hi as int),
            forall|j: int| 0 <= j < i - lo ==> ip_char(#[trigger] s[j]),
            separator == exists|j: int| 0 <= j < i - lo && (#[trigger] s[j] == '.' || s[j] == ':'),
        decreases hi - i,
    {
        let c = v[i];
        assert(s[i - lo] == c);
        if !(char_is_ascii_hexdigit(c) || c == '.' || c == ':') {
            assert(!ip_char(s[i - lo]));
            return false;
        }
        if c == '.' || c == ':' {
            separator = true;
        }
        i = i + 1;
    }
    separator
}

pub fn is_likely_ip(value: &str) -> (b: bool)
    ensures
        b == likely_ip(value@),
{
    let v = chars_of(value);
    assert(v@.subrange(0, v@.len() as int) =~= v@);
    likely_ip_chars(&v, 0, v.len())
}

/// The summary of a test request: `连接成功 (HTTP status, elapsed ms)` for a
/// status from 200 up to 399, followed by `, 出口 IP address` where the
/// response body, trimmed, looks like an address; `连接失败 (HTTP status,
/// elapsed ms)` as an error for any other status.
pub open spec fn report_text(status: u16, elapsed_ms: u128, body: Option<Seq<char>>) -> Result<
    Seq<char>,
    Seq<char>,
> {
    let timing = "HTTP "@ + decimal(status as nat) + ", "@ + decimal(elapsed_ms as nat) + " ms)"@;
    if 200 <= status && status < 400 {
        let ip_note = match body {
            Some(b) => if likely_ip(trim_ws(b)) {
                ", 出口 IP "@ + trim_ws(b)
            } else {
                Seq::empty()
            },
            None => Seq::empty(),
        };
        Ok("连接成功 ("@ + timing + ip_note)
    } else {
        Err("连接失败 ("@ + timing)
    }
}

/// Law: a test request counts as a success exactly when its status is from
/// 200 up to 399; a success message opens with `连接成功 (HTTP `, and a
/// failure reads `连接失败 (HTTP status, elapsed ms)`.
pub proof fn lemma_report_verdict(status: u16, elapsed_ms: u128, body: Option<Seq<char>>)
    ensures
        report_text(status, elapsed_ms, body) is Ok <==> 200 <= status && status < 400,
        report_text(status, elapsed_ms, body) matches Ok(m) ==> m.take(6) == "连接成功 ("@
            && m.subrange(6, 11) == "HTTP "@,
        report_text(status, elapsed_ms, body) matches Err(m) ==> m == "连接失败 (HTTP "@ + decimal(
            status as nat,
        ) + ", "@ + decimal(elapsed_ms as nat) + " ms)"@,
{
    reveal_strlit("连接成功 (");
    reveal_strlit("连接失败 (");
    reveal_strlit("HTTP ");
    reveal_strlit("连接失败 (HTTP ");
    let timing = "HTTP "@ + decimal(status as nat) + ", "@ + decimal(elapsed_ms as nat) + " ms)"@;
    match report_text(status, elapsed_ms, body) {
        Ok(m) => {
            let ip_note = match body {
                Some(b) => if likely_ip(trim_ws(b)) {
                    ", 出口 IP "@ + trim_ws(b)
                } else {
                    Seq::empty()
                },
                None => Seq::empty(),
            };
            assert(m == "连接成功 ("@ + timing + ip_note);
            assert(m.take(6) =~= "连接成功 ("@);
            assert(m.subrange(6, 11) =~= "HTTP "@);
        },
        Err(m) => {
            assert(m =~= "连接失败 (HTTP "@ + decimal(status as nat) + ", "@ + decimal(
                elapsed_ms as nat,
            ) + " ms)"@);
        },
    }
}

pub open spec fn body_text(body: Option<&str>) -> Option<Seq<char>> {
    match body {
        Some(b) => Some(b@),
        None => None,
    }
}

/// Judges the answer to a test request from its status, the time it took in
/// milliseconds and its body where that could be read.
pub fn connection_report(status: u16, elapsed_ms: u128, body: Option<&str>) -> (r: Result<
    String,
    String,
>)
    ensures
        r matches Ok(m) ==> report_text(status, elapsed_ms, body_text(body)) == Ok::<
            Seq<char>,
            Seq<char>,
        >(m@),
        r matches Err(m) ==> report_text(status, elapsed_ms, body_text(body)) == Err::<
            Seq<char>,
            Seq<char>,
        >(m@),
        r is Ok <==> 200 <= status && status < 400,
        r matches Ok(m) ==> m@.take(6) == "连接成功 ("@ && m@.subrange(6, 11) == "HTTP "@,
        r matches Err(m) ==> m@ == "连接失败 (HTTP "@ + decimal(status as nat) + ", "@ + decimal(
            elapsed_ms as nat,
        ) + " ms)"@,
{
    proof {
        lemma_report_verdict(status, elapsed_ms, body_text(body));
    }
    let mut msg = String::new();
    if 200 <= status && status < 400 {
        push_str(&mut msg, "连接成功 (");
    } else {
        push_str(&mut msg, "连接失败 (");
    }
    push_str(&mut msg, "HTTP ");
    push_decimal(&mut msg, status as u128);
    push_str(&mut msg, ", ");
    push_decimal(&mut msg, elapsed_ms);
    push_str(&mut msg, " ms)");
    let ghost timing = "HTTP "@ + decimal(status as nat) + ", "@ + decimal(elapsed_ms as nat)
        + " ms)"@;
    let ghost head = msg@;
    if 200 <= status && status < 400 {
        assert(head =~= "连接成功 ("@ + timing);
        match body {
            Some(b) => {
                let v = chars_of(b);
                let (lo, hi) = trim_bounds(&v);
                if likely_ip_chars(&v, lo, hi) {
                    push_str(&mut msg, ", 出口 IP ");
                    push_range(&mut msg, &v, lo, hi);
                    assert(msg@ =~= "连接成功 ("@ + timing + (", 出口 IP "@ + trim_ws(b@)));
                } else {
                    assert(msg@ =~= "连接成功 ("@ + timing + Seq::<char>::empty());
                }
            },
            None => {
                assert(msg@ =~= "连接成功 ("@ + timing + Seq::<char>::empty());
            },
        }
        Ok(msg)
    } else {
        assert(msg@ =~= "连接失败 ("@ + timing);
        Err(msg)
    }
}

/// How long, in seconds, the test request may take in all.
pub const TEST_TIMEOUT_SECS: u64 = 5;

#[verifier::external_type_specification]
#[verifier::external_body]
pub struct ExUreqProxy(ureq::Proxy);

#[verifier::external_type_specification]
#[verifier::external_body]
pub struct ExUreqError(ureq::Error);

/// Whether `ureq::Proxy::new` accepts `url` as a proxy address.
pub uninterp spec fn ureq_accepts_proxy(url: Seq<char>) -> bool;

/// `ureq::Proxy::new`: parses a proxy address; it sends nothing. The contract
/// claims only that success is a function of the address, named
/// `ureq_accepts_proxy`; which addresses it accepts is left to ureq.
#[verifier::external_body]
fn ureq_proxy_new(url: &str) -> (r: Result<ureq::Proxy, ureq::Error>)
    ensures
        r is Ok <==> ureq_accepts_proxy(url@),
{
    ureq::Proxy::new(url)
}

/// The proxy to send the test request through, made from the setting's URL.
/// Where that URL is not a proxy address ureq accepts, the error says so and
/// no request is to be sent.
pub fn test_proxy(config: &ProxyConfig) -> (r: Result<ureq::Proxy, String>)
    ensures
        r is Ok <==> ureq_accepts_proxy(config.url_text()),
        r matches Err(m) ==> exists|e: Seq<char>| m@ == "无效的代理地址: "@ + e,
{
    let url = config.proxy_url();
    match ureq_proxy_new(url.as_str()) {
        Ok(p) => Ok(p),
        Err(e) => {
            let mut m = string_of("无效的代理地址: ");
            let text = e.to_string();
            push_str(&mut m, text.as_str());
            assert(m@ == "无效的代理地址: "@ + text@);
            Err(m)
        },
    }
}

} // verus!
