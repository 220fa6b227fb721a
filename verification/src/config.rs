//! The saved settings of the application and where they live.
use vstd::prelude::*;
use crate::text::{push_str, string_of};

verus! {

/// The settings the application saves between runs, as the user typed them.
#[derive(Debug, Clone)]
pub struct AppConfig {
    pub proxy_type: String,
    pub host: String,
    pub port: String,
    pub no_proxy: String,
    pub test_url: String,
}

impl Default for AppConfig {
    /// An HTTP proxy on the local port 7890 that bypasses local and private
    /// networks, tested against Google.
    fn default() -> (c: Self)
        ensures
            c.proxy_type@ == "HTTP"@,
            c.host@ == "127.0.0.1"@,
            c.port@ == "7890"@,
            c.no_proxy@ == "localhost,127.0.0.1,::1,10.0.0.0/8,172.16.0.0/12,192.168.0.0/16"@,
            c.test_url@ == "http://www.google.com"@,
    {
        Self {
            proxy_type: string_of("HTTP"),
            host: string_of("127.0.0.1"),
            port: string_of("7890"),
            no_proxy: string_of("localhost,127.0.0.1,::1,10.0.0.0/8,172.16.0.0/12,192.168.0.0/16"),
            test_url: string_of("http://www.google.com"),
        }
    }
}

/// The environment variable that locates the settings: `APPDATA` on
/// Windows, `HOME` elsewhere.
pub fn config_dir_var(windows: bool) -> (name: &'static str)
    ensures
        windows ==> name@ == "APPDATA"@,
        !windows ==> name@ == "HOME"@,
{
    if windows {
        "APPDATA"
    } else {
        "HOME"
    }
}

/// The directory under which the application keeps its own directory, from
/// the value of the variable that `config_dir_var` names: that value itself on
/// Windows, its `.config` elsewhere. Without the variable, the error says which
/// one was missing.
pub fn config_root(var_value: Option<&str>, windows: bool) -> (r: Result<String, String>)
    ensures
        var_value is None && windows ==> (r matches Err(e) && e@ == "无法获取 APPDATA 目录"@),
        var_value is None && !windows ==> (r matches Err(e) && e@ == "无法获取 HOME 目录"@),
        var_value matches Some(v) ==> (windows ==> (r matches Ok(p) && p@ == v@)),
        var_value matches Some(v) ==> (!windows ==> (r matches Ok(p) && p@ == v@ + "/.config"@)),
{
    match var_value {
        None => if windows {
            Err(string_of("无法获取 APPDATA 目录"))
        } else {
            Err(string_of("无法获取 HOME 目录"))
        },
        Some(v) => {
            let mut p = string_of(v);
            if !windows {
                push_str(&mut p, "/.config");
            }
            Ok(p)
        },
    }
}

/// The path `std::path::Path::join` makes of `base` and `name`, by the
/// separators and rules of the platform the program is built for.
pub uninterp spec fn path_join(base: Seq<char>, name: Seq<char>) -> Seq<char>;

/// `std::path::Path::join` of `base` and `name`, turned back into a string.
/// The contract claims only that the result is a function of the two
/// arguments, named `path_join`; where separators go is left to the standard
/// library.
#[verifier::external_body]
fn join_path(base: &str, name: &str) -> (p: String)
    ensures
        p@ == path_join(base@, name@),
{
    std::path::Path::new(base).join(name).to_string_lossy().into_owned()
}

/// The directory under which the application keeps its own directory: the
/// value of `APPDATA` on Windows, that of `HOME` followed by `/.config`
/// elsewhere.
pub open spec fn config_root_text(var_value: Seq<char>, windows: bool) -> Seq<char> {
    if windows {
        var_value
    } else {
        var_value + "/.config"@
    }
}

/// Law: on Windows the root of the settings is the value of `APPDATA`
/// itself; elsewhere it is the `.config` directory under `HOME`.
pub proof fn lemma_config_root_text(v: Seq<char>)
    ensures
        config_root_text(v, true) == v,
        config_root_text(v, false) == v + "/.config"@,
{
}

/// The directory where the settings live: `proxy_term` under the root that
/// `config_root` gives. Without the variable, the error says which one was
/// missing.
pub fn config_dir(var_value: Option<&str>, windows: bool) -> (r: Result<String, String>)
    ensures
        var_value is None && windows ==> (r matches Err(e) && e@ == "无法获取 APPDATA 目录"@),
        var_value is None && !windows ==> (r matches Err(e) && e@ == "无法获取 HOME 目录"@),
        var_value matches Some(v) ==> (r matches Ok(p) && p@ == path_join(
            config_root_text(v@, windows),
            "proxy_term"@,
        )),
        var_value matches Some(v) ==> (windows ==> (r matches Ok(p) && p@ == path_join(
            v@,
            "proxy_term"@,
        ))),
        var_value matches Some(v) ==> (!windows ==> (r matches Ok(p) && p@ == path_join(
            v@ + "/.config"@,
            "proxy_term"@,
        ))),
{
    proof {
        if let Some(v) = var_value {
            lemma_config_root_text(v@);
        }
    }
    match config_root(var_value, windows) {
        Err(e) => Err(e),
        Ok(root) => Ok(join_path(root.as_str(), "proxy_term")),
    }
}

/// The settings file in the settings directory `dir`.
pub fn config_file(dir: &str) -> (p: String)
    ensures
        p@ == path_join(dir@, "config.json"@),
{
    join_path(dir, "config.json")
}

/// The file, in the settings directory `dir`, that keeps the backup of the
/// Windows proxy variables.
pub fn windows_backup_file(dir: &str) -> (p: String)
    ensures
        p@ == path_join(dir@, "windows-env-backup.json"@),
{
    join_path(dir, "windows-env-backup.json")
}

} // verus!
