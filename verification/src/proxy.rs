//! Proxy settings, the environment variables they stand for, and the checks
//! on user input.
use vstd::prelude::*;
use crate::text::{
    char_is_control, chars_of, decimal, is_control, is_whitespace, lemma_trim_end_ws_shape,
    lemma_trim_start_ws_shape, push_decimal, push_str, string_of, trim_bounds, trim_ws,
    trim_start_ws, trim_end_ws, same_text,
};

verus! {

/// The kind of proxy.
#[derive(Debug, Clone, Copy, PartialEq, Eq, Structural)]
pub enum ProxyType {
    Http,
    Socks5,
}

impl ProxyType {
    /// The URL scheme of this kind of proxy.
    pub open spec fn scheme_text(self) -> Seq<char> {
        match self {
            ProxyType::Http => "http"@,
            ProxyType::Socks5 => "socks5"@,
        }
    }

    pub fn scheme(&self) -> (s: &str)
        ensures
            s@ == self.scheme_text(),
    {
        match self {
            ProxyType::Http => "http",
            ProxyType::Socks5 => "socks5",
        }
    }
}

/// A proxy to route traffic through.
#[derive(Debug, Clone)]
pub struct ProxyConfig {
    pub proxy_type: ProxyType,
    pub host: String,
    pub port: u16,
    pub no_proxy: String,
}

/// `scheme://host:port`.
pub open spec fn proxy_url_text(t: ProxyType, host: Seq<char>, port: u16) -> Seq<char> {
    t.scheme_text() + "://"@ + host + ":"@ + decimal(port as nat)
}

/// The environment variables that a proxy setting stands for, in order: the
/// variables that carry the URL (both spellings), then, where the bypass list
/// is not empty, the two that carry it.
pub open spec fn env_pairs(t: ProxyType, url: Seq<char>, no_proxy: Seq<char>) -> Seq<
    (Seq<char>, Seq<char>),
> {
    let base = match t {
        ProxyType::Http => seq![
            ("http_proxy"@, url),
            ("https_proxy"@, url),
            ("HTTP_PROXY"@, url),
            ("HTTPS_PROXY"@, url),
        ],
        ProxyType::Socks5 => seq![("all_proxy"@, url), ("ALL_PROXY"@, url)],
    };
    if no_proxy.len() == 0 {
        base
    } else {
        base + seq![("no_proxy"@, no_proxy), ("NO_PROXY"@, no_proxy)]
    }
}

/// No name occurs twice.
pub open spec fn distinct_keys(pairs: Seq<(Seq<char>, Seq<char>)>) -> bool {
    forall|i: int, j: int|
        0 <= i < pairs.len() && 0 <= j < pairs.len() && i != j ==> #[trigger] pairs[i].0
            != #[trigger] pairs[j].0
}

/// Every proxy variable name this program sets or clears.
pub open spec fn proxy_env_key_texts() -> Seq<Seq<char>> {
    seq![
        "http_proxy"@,
        "https_proxy"@,
        "all_proxy"@,
        "no_proxy"@,
        "HTTP_PROXY"@,
        "HTTPS_PROXY"@,
        "ALL_PROXY"@,
        "NO_PROXY"@,
    ]
}

impl ProxyConfig {
    pub fn new(proxy_type: ProxyType, host: &str, port: u16, no_proxy: &str) -> (c: Self)
        ensures
            c.proxy_type == proxy_type,
            c.host@ == host@,
            c.port == port,
            c.no_proxy@ == no_proxy@,
    {
        Self { proxy_type, host: string_of(host), port, no_proxy: string_of(no_proxy) }
    }

    /// The proxy's URL.
    pub open spec fn url_text(&self) -> Seq<char> {
        proxy_url_text(self.proxy_type, self.host@, self.port)
    }

    pub fn proxy_url(&self) -> (url: String)
        ensures
            url@ == self.url_text(),
    {
        let mut url = String::new();
        push_str(&mut url, self.proxy_type.scheme());
        push_str(&mut url, "://");
        push_str(&mut url, self.host.as_str());
        push_str(&mut url, ":");
        push_decimal(&mut url, self.port as u128);
        url
    }

    /// The environment variables to set for this proxy.
    pub open spec fn env_pairs(&self) -> Seq<(Seq<char>, Seq<char>)> {
        env_pairs(self.proxy_type, self.url_text(), self.no_proxy@)
    }

    pub fn to_env_vars(&self) -> (vars: EnvVars)
        ensures
            vars@ == self.env_pairs(),
            (exists|i: int| 0 <= i < vars@.len() && #[trigger] vars@[i] == ("no_proxy"@, self.no_proxy@))
                <==> self.no_proxy@.len() > 0,
            (exists|i: int| 0 <= i < vars@.len() && #[trigger] vars@[i] == ("NO_PROXY"@, self.no_proxy@))
                <==> self.no_proxy@.len() > 0,
            forall|i: int|
                0 <= i < vars@.len() ==> (#[trigger] vars@[i]).1 == self.url_text() || (vars@[i]
                    == ("no_proxy"@, self.no_proxy@) || vars@[i] == ("NO_PROXY"@, self.no_proxy@)),
            self.proxy_type == ProxyType::Http ==> vars@.take(4) == seq![
                ("http_proxy"@, self.url_text()),
                ("https_proxy"@, self.url_text()),
                ("HTTP_PROXY"@, self.url_text()),
                ("HTTPS_PROXY"@, self.url_text()),
            ],
            self.proxy_type == ProxyType::Socks5 ==> vars@.take(2) == seq![
                ("all_proxy"@, self.url_text()),
                ("ALL_PROXY"@, self.url_text()),
            ],
    {
        proof {
            lemma_env_pairs_shape(self.proxy_type, self.url_text(), self.no_proxy@);
        }
        let mut entries: Vec<(String, String)> = Vec::new();
        let url = self.proxy_url();
        match self.proxy_type {
            ProxyType::Http => {
                entries.push((string_of("http_proxy"), url.clone()));
                entries.push((string_of("https_proxy"), url.clone()));
                entries.push((string_of("HTTP_PROXY"), url.clone()));
                entries.push((string_of("HTTPS_PROXY"), url.clone()));
            },
            ProxyType::Socks5 => {
                entries.push((string_of("all_proxy"), url.clone()));
                entries.push((string_of("ALL_PROXY"), url.clone()));
            },
        }
        let no_proxy_chars = chars_of(self.no_proxy.as_str());
        if no_proxy_chars.len() != 0 {
            entries.push((string_of("no_proxy"), self.no_proxy.clone()));
            entries.push((string_of("NO_PROXY"), self.no_proxy.clone()));
        }
        let ghost pairs = entries@.map_values(|p: (String, String)| (p.0@, p.1@));
        proof {
            reveal_strlit("http_proxy");
            reveal_strlit("https_proxy");
            reveal_strlit("HTTP_PROXY");
            reveal_strlit("HTTPS_PROXY");
            reveal_strlit("all_proxy");
            reveal_strlit("ALL_PROXY");
            reveal_strlit("no_proxy");
            reveal_strlit("NO_PROXY");
            assert(pairs =~= self.env_pairs());
            lemma_env_pairs_distinct(self.proxy_type, self.url_text(), self.no_proxy@);
        }
        let vars = EnvVars { entries };
        proof {
            let p = self.env_pairs();
            assert(vars@ == p);
            if self.no_proxy@.len() > 0 {
                let n = p.len() as int;
                assert(vars@[n - 2] == ("no_proxy"@, self.no_proxy@));
                assert(vars@[n - 1] == ("NO_PROXY"@, self.no_proxy@));
            } else {
                assert forall|i: int| 0 <= i < vars@.len() implies vars@[i] != ("no_proxy"@,
                    self.no_proxy@) && vars@[i] != ("NO_PROXY"@, self.no_proxy@) by {
                    assert(vars@[i] == p[i]);
                }
            }
        }
        vars
    }
}

/// Law: whatever the kind of proxy, the variables carry the bypass list
/// under `no_proxy` and under `NO_PROXY` exactly when the list is not empty;
/// every other variable carries the proxy URL, under the names of its kind.
pub proof fn lemma_env_pairs_shape(t: ProxyType, url: Seq<char>, no_proxy: Seq<char>)
    ensures
        (exists|i: int|
            0 <= i < env_pairs(t, url, no_proxy).len() && #[trigger] env_pairs(t, url, no_proxy)[i]
                == ("no_proxy"@, no_proxy)) <==> no_proxy.len() > 0,
        (exists|i: int|
            0 <= i < env_pairs(t, url, no_proxy).len() && #[trigger] env_pairs(t, url, no_proxy)[i]
                == ("NO_PROXY"@, no_proxy)) <==> no_proxy.len() > 0,
        forall|i: int|
            0 <= i < env_pairs(t, url, no_proxy).len() ==> (#[trigger] env_pairs(t, url, no_proxy)[i]).1
                == url || (env_pairs(t, url, no_proxy)[i] == ("no_proxy"@, no_proxy)
                || env_pairs(t, url, no_proxy)[i] == ("NO_PROXY"@, no_proxy)),
        t == ProxyType::Http ==> env_pairs(t, url, no_proxy).take(4) == seq![
            ("http_proxy"@, url),
            ("https_proxy"@, url),
            ("HTTP_PROXY"@, url),
            ("HTTPS_PROXY"@, url),
        ],
        t == ProxyType::Socks5 ==> env_pairs(t, url, no_proxy).take(2) == seq![
            ("all_proxy"@, url),
            ("ALL_PROXY"@, url),
        ],
{
    reveal_strlit("http_proxy");
    reveal_strlit("https_proxy");
    reveal_strlit("HTTP_PROXY");
    reveal_strlit("HTTPS_PROXY");
    reveal_strlit("all_proxy");
    reveal_strlit("ALL_PROXY");
    reveal_strlit("no_proxy");
    reveal_strlit("NO_PROXY");
    let p = env_pairs(t, url, no_proxy);
    let n = p.len() as int;
    if no_proxy.len() > 0 {
        assert(p[n - 2] == ("no_proxy"@, no_proxy));
        assert(p[n - 1] == ("NO_PROXY"@, no_proxy));
    } else {
        assert forall|i: int| 0 <= i < n implies p[i].0 != "no_proxy"@ && p[i].0 != "NO_PROXY"@ by {
            assert(p[i].0.len() != 8 || p[i].0[0] != "no_proxy"@[0] || p[i].0[1] != "no_proxy"@[1]);
            assert(p[i].0.len() != 8 || p[i].0[0] != "NO_PROXY"@[0] || p[i].0[1] != "NO_PROXY"@[1]);
        }
    }
    match t {
        ProxyType::Http => {
            assert(p.take(4) =~= seq![
                ("http_proxy"@, url),
                ("https_proxy"@, url),
                ("HTTP_PROXY"@, url),
                ("HTTPS_PROXY"@, url),
            ]);
        },
        ProxyType::Socks5 => {
            assert(p.take(2) =~= seq![("all_proxy"@, url), ("ALL_PROXY"@, url)]);
        },
    }
}

/// Law: the variables that one proxy setting stands for never repeat a name.
pub proof fn lemma_env_pairs_distinct(t: ProxyType, url: Seq<char>, no_proxy: Seq<char>)
    ensures
        distinct_keys(env_pairs(t, url, no_proxy)),
{
    reveal_strlit("http_proxy");
    reveal_strlit("https_proxy");
    reveal_strlit("HTTP_PROXY");
    reveal_strlit("HTTPS_PROXY");
    reveal_strlit("all_proxy");
    reveal_strlit("ALL_PROXY");
    reveal_strlit("no_proxy");
    reveal_strlit("NO_PROXY");
    let p = env_pairs(t, url, no_proxy);
    assert forall|i: int, j: int|
        0 <= i < p.len() && 0 <= j < p.len() && i != j implies #[trigger] p[i].0
        != #[trigger] p[j].0 by {
        if p[i].0 == p[j].0 {
            assert(p[i].0.len() == p[j].0.len());
            assert(p[i].0[0] == p[j].0[0]);
            assert(p[i].0[1] == p[j].0[1]);
            assert(p[i].0[4] == p[j].0[4]);
        }
    }
}

/// Law: every variable that a proxy setting sets is one of the names that
/// stopping the proxy clears.
pub proof fn lemma_env_keys_are_proxy_keys(t: ProxyType, url: Seq<char>, no_proxy: Seq<char>)
    ensures
        forall|i: int|
            0 <= i < env_pairs(t, url, no_proxy).len() ==> proxy_env_key_texts().contains(
                #[trigger] env_pairs(t, url, no_proxy)[i].0,
            ),
{
    let p = env_pairs(t, url, no_proxy);
    let k = proxy_env_key_texts();
    assert forall|i: int| 0 <= i < p.len() implies k.contains(#[trigger] p[i].0) by {
        match t {
            ProxyType::Http => {
                if i == 0 {
                    assert(k[0] == p[i].0);
                } else if i == 1 {
                    assert(k[1] == p[i].0);
                } else if i == 2 {
                    assert(k[4] == p[i].0);
                } else if i == 3 {
                    assert(k[5] == p[i].0);
                } else if i == 4 {
                    assert(k[3] == p[i].0);
                } else {
                    assert(k[7] == p[i].0);
                }
            },
            ProxyType::Socks5 => {
                if i == 0 {
                    assert(k[2] == p[i].0);
                } else if i == 1 {
                    assert(k[6] == p[i].0);
                } else if i == 2 {
                    assert(k[3] == p[i].0);
                } else {
                    assert(k[7] == p[i].0);
                }
            },
        }
    }
}

/// Every proxy variable name this program sets or clears, in the order in
/// which they are saved and restored.
pub fn proxy_env_keys() -> (keys: Vec<String>)
    ensures
        keys@.map_values(|s: String| s@) == proxy_env_key_texts(),
{
    let mut keys: Vec<String> = Vec::new();
    keys.push(string_of("http_proxy"));
    keys.push(string_of("https_proxy"));
    keys.push(string_of("all_proxy"));
    keys.push(string_of("no_proxy"));
    keys.push(string_of("HTTP_PROXY"));
    keys.push(string_of("HTTPS_PROXY"));
    keys.push(string_of("ALL_PROXY"));
    keys.push(string_of("NO_PROXY"));
    assert(keys@.map_values(|s: String| s@) =~= proxy_env_key_texts());
    keys
}

/// A set of environment variables, each name once, in a fixed order.
pub struct EnvVars {
    entries: Vec<(String, String)>,
}

impl View for EnvVars {
    type V = Seq<(Seq<char>, Seq<char>)>;

    closed spec fn view(&self) -> Seq<(Seq<char>, Seq<char>)> {
        self.entries@.map_values(|p: (String, String)| (p.0@, p.1@))
    }
}

impl EnvVars {
    #[verifier::type_invariant]
    spec fn names_unique(self) -> bool {
        distinct_keys(self.entries@.map_values(|p: (String, String)| (p.0@, p.1@)))
    }

    /// The number of variables.
    pub fn len(&self) -> (n: usize)
        ensures
            n == self@.len(),
    {
        self.entries.len()
    }

    /// The name and value of the variable at position `i`.
    pub fn entry(&self, i: usize) -> (e: (&String, &String))
        requires
            i < self@.len(),
        ensures
            (e.0@, e.1@) == self@[i as int],
    {
        let p = &self.entries[i];
        (&p.0, &p.1)
    }

    /// The value of the variable named `key`, if there is one.
    pub fn get(&self, key: &str) -> (v: Option<&String>)
        ensures
            v matches Some(s) ==> exists|i: int|
                0 <= i < self@.len() && #[trigger] self@[i] == (key@, s@),
            v matches Some(s) ==> forall|i: int|
                0 <= i < self@.len() && #[trigger] self@[i].0 == key@ ==> self@[i].1 == s@,
            v is None ==> forall|i: int| 0 <= i < self@.len() ==> #[trigger] self@[i].0 != key@,
    {
        proof {
            use_type_invariant(self);
        }
        let mut i: usize = 0;
        while i < self.entries.len()
            invariant
                i <= self@.len(),
                self@.len() == self.entries@.len(),
                distinct_keys(self@),
                forall|j: int| 0 <= j < i ==> #[trigger] self@[j].0 != key@,
            decreases self@.len() - i,
        {
            let p = &self.entries[i];
            assert(self@[i as int] == (p.0@, p.1@));
            if same_text(p.0.as_str(), key) {
                proof {
                    assert forall|j: int|
                        0 <= j < self@.len() && #[trigger] self@[j].0 == key@ implies self@[j].1
                        == p.1@ by {
                        if j != i {
                            assert(self@[j].0 != self@[i as int].0);
                        }
                    }
                }
                return Some(&p.1);
            }
            i = i + 1;
        }
        None
    }

    /// Whether a variable named `key` is in the set.
    pub fn contains_key(&self, key: &str) -> (b: bool)
        ensures
            b == exists|i: int| 0 <= i < self@.len() && #[trigger] self@[i].0 == key@,
    {
        match self.get(key) {
            Some(s) => {
                proof {
                    let i = choose|i: int| 0 <= i < self@.len() && #[trigger] self@[i] == (key@, s@);
                    assert(self@[i].0 == key@);
                }
                true
            },
            None => false,
        }
    }
}

/// Some character of `s` is a control character (a newline among them).
pub open spec fn has_control(s: Seq<char>) -> bool {
    exists|i: int| 0 <= i < s.len() && is_control(#[trigger] s[i])
}

pub fn contains_control_or_newline(value: &str) -> (b: bool)
    ensures
        b == has_control(value@),
{
    let v = chars_of(value);
    let mut i: usize = 0;
    while i < v.len()
        invariant
            v@ == value@,
            i <= v@.len(),
            forall|j: int| 0 <= j < i ==> !is_control(#[trigger] v@[j]),
        decreases v@.len() - i,
    {
        if char_is_control(v[i]) {
            return true;
        }
        i = i + 1;
    }
    false
}

/// What is wrong with a proxy host, if anything: an address that is empty or
/// only whitespace, or one that holds a control character.
pub open spec fn host_problem(host: Seq<char>) -> Option<Seq<char>> {
    if trim_ws(host).len() == 0 {
        Some("错误: 代理地址不能为空"@)
    } else if has_control(host) {
        Some("错误: 代理地址不能包含控制字符或换行"@)
    } else {
        None
    }
}

/// What is wrong with a bypass list, if anything: a control character.
pub open spec fn no_proxy_problem(no_proxy: Seq<char>) -> Option<Seq<char>> {
    if has_control(no_proxy) {
        Some("错误: 绕过列表不能包含控制字符或换行"@)
    } else {
        None
    }
}

/// Law: an address is rejected as empty exactly when every character of it
/// is whitespace.
pub proof fn lemma_blank_iff_all_whitespace(s: Seq<char>)
    ensures
        (trim_ws(s).len() == 0) == (forall|i: int| 0 <= i < s.len() ==> is_whitespace(#[trigger] s[i])),
{
    lemma_trim_start_ws_shape(s);
    let t = trim_start_ws(s);
    lemma_trim_end_ws_shape(t);
    if trim_ws(s).len() == 0 {
        assert forall|i: int| 0 <= i < s.len() implies is_whitespace(#[trigger] s[i]) by {
            let off = s.len() - t.len();
            if i >= off {
                assert(s[i] == t[i - off]);
            }
        }
    } else {
        if t.len() > 0 {
            let off = s.len() - t.len();
            assert(s[off] == t[0]);
        }
    }
}

/// Law: a host is accepted exactly when some character of it is not
/// whitespace and none is a control character.
pub proof fn lemma_host_accepted(host: Seq<char>)
    ensures
        host_problem(host) is None <==> (exists|i: int|
            0 <= i < host.len() && !is_whitespace(#[trigger] host[i])) && (forall|i: int|
            0 <= i < host.len() ==> !is_control(#[trigger] host[i])),
{
    lemma_blank_iff_all_whitespace(host);
}

/// Law: a bypass list is accepted exactly when no character of it is a
/// control character; anything else (commas, CIDR ranges, spaces) is kept.
pub proof fn lemma_no_proxy_accepted(no_proxy: Seq<char>)
    ensures
        no_proxy_problem(no_proxy) is None <==> forall|i: int|
            0 <= i < no_proxy.len() ==> !is_control(#[trigger] no_proxy[i]),
{
}

pub fn validate_host(host: &str) -> (r: Result<(), String>)
    ensures
        r matches Ok(_) ==> host_problem(host@) is None,
        r matches Err(e) ==> host_problem(host@) == Some(e@),
        r is Ok <==> (exists|i: int| 0 <= i < host@.len() && !is_whitespace(#[trigger] host@[i]))
            && (forall|i: int| 0 <= i < host@.len() ==> !is_control(#[trigger] host@[i])),
{
    proof {
        lemma_host_accepted(host@);
    }
    let v = chars_of(host);
    let (lo, hi) = trim_bounds(&v);
    if lo == hi {
        return Err(string_of("错误: 代理地址不能为空"));
    }
    if contains_control_or_newline(host) {
        return Err(string_of("错误: 代理地址不能包含控制字符或换行"));
    }
    Ok(())
}

pub fn validate_no_proxy(no_proxy: &str) -> (r: Result<(), String>)
    ensures
        r matches Ok(_) ==> no_proxy_problem(no_proxy@) is None,
        r matches Err(e) ==> no_proxy_problem(no_proxy@) == Some(e@),
        r is Ok <==> forall|i: int| 0 <= i < no_proxy@.len() ==> !is_control(#[trigger] no_proxy@[i]),
        r matches Err(e) ==> e@ == "错误: 绕过列表不能包含控制字符或换行"@,
{
    proof {
        lemma_no_proxy_accepted(no_proxy@);
    }
    if contains_control_or_newline(no_proxy) {
        return Err(string_of("错误: 绕过列表不能包含控制字符或换行"));
    }
    Ok(())
}

} // verus!
