//! Where the service keeps its files, on each platform.
use vstd::prelude::*;
use crate::text::{append_chars, chars_of, string_of};

verus! {

/// The operating-system family, which decides the path conventions.
#[derive(Clone, Copy, Debug, PartialEq, Eq, Structural)]
pub enum Platform {
    Unix,
    Windows,
}

pub open spec fn separator(p: Platform) -> char {
    match p {
        Platform::Unix => '/',
        Platform::Windows => '\\',
    }
}

/// The relative path `name` under `base`, with one separator between them.
pub open spec fn joined(p: Platform, base: Seq<char>, name: Seq<char>) -> Seq<char> {
    if base.len() == 0 {
        name
    } else if base.last() == separator(p) {
        base + name
    } else {
        base + seq![separator(p)] + name
    }
}

/// The relative path `name` under `base`.
pub fn join_path(platform: Platform, base: &str, name: &str) -> (r: String)
    ensures
        r@ == joined(platform, base@, name@),
{
    let b = chars_of(base);
    let n = chars_of(name);
    let sep = match platform {
        Platform::Unix => '/',
        Platform::Windows => '\\',
    };
    let mut out = b;
    if out.len() > 0 && out[out.len() - 1] != sep {
        out.push(sep);
    }
    append_chars(&mut out, &n);
    proof {
        if b@.len() > 0 {
            assert(b@.last() == b@[b@.len() - 1]);
        }
    }
    string_of(&out)
}

/// Where the executable is installed.
pub fn get_install_dir(platform: Platform) -> (r: String)
    ensures
        platform == Platform::Unix ==> r@ == "/usr/sbin"@,
        platform == Platform::Windows ==> r@ == "C:\\Program Files\\Autolocalhost"@,
{
    match platform {
        Platform::Unix => "/usr/sbin".to_owned(),
        Platform::Windows => "C:\\Program Files\\Autolocalhost".to_owned(),
    }
}

/// The base for Windows data: the `PROGRAMDATA` folder, or its usual place when unset.
fn program_data(value: &Option<String>) -> (r: String)
    ensures
        r@ == match value {
            Some(v) => v@,
            None => "C:\\ProgramData"@,
        },
{
    match value {
        Some(v) => v.clone(),
        None => "C:\\ProgramData".to_owned(),
    }
}

/// Where the configuration template lives; `program_data` is the `PROGRAMDATA` setting.
pub fn get_config_dir(platform: Platform, program_data_var: &Option<String>) -> (r: String)
    ensures
        platform == Platform::Unix ==> r@ == "/etc/autolocalhost"@,
        platform == Platform::Windows ==> r@ == joined(
            platform,
            match program_data_var {
                Some(v) => v@,
                None => "C:\\ProgramData"@,
            },
            "Autolocalhost"@,
        ),
{
    match platform {
        Platform::Unix => "/etc/autolocalhost".to_owned(),
        Platform::Windows => join_path(platform, program_data(program_data_var).as_str(), "Autolocalhost"),
    }
}

/// Where generated data lives; `program_data` is the `PROGRAMDATA` setting.
pub fn get_data_dir(platform: Platform, program_data_var: &Option<String>) -> (r: String)
    ensures
        platform == Platform::Unix ==> r@ == "/var/lib/autolocalhost"@,
        platform == Platform::Windows ==> r@ == joined(
            platform,
            match program_data_var {
                Some(v) => v@,
                None => "C:\\ProgramData"@,
            },
            "Autolocalhost"@,
        ),
{
    match platform {
        Platform::Unix => "/var/lib/autolocalhost".to_owned(),
        Platform::Windows => join_path(platform, program_data(program_data_var).as_str(), "Autolocalhost"),
    }
}

/// Where logs are written; `program_data` is the `PROGRAMDATA` setting.
pub fn get_log_dir(platform: Platform, program_data_var: &Option<String>) -> (r: String)
    ensures
        platform == Platform::Unix ==> r@ == "/var/log/autolocalhost"@,
        platform == Platform::Windows ==> r@ == joined(
            platform,
            joined(
                platform,
                match program_data_var {
                    Some(v) => v@,
                    None => "C:\\ProgramData"@,
                },
                "Autolocalhost"@,
            ),
            "log"@,
        ),
{
    match platform {
        Platform::Unix => "/var/log/autolocalhost".to_owned(),
        Platform::Windows => {
            let base = join_path(platform, program_data(program_data_var).as_str(), "Autolocalhost");
            join_path(platform, base.as_str(), "log")
        },
    }
}

/// Where the per-domain certificate material lives, under the data directory.
pub fn get_certs_dir(platform: Platform, data_dir: &str) -> (r: String)
    ensures
        r@ == joined(platform, data_dir@, "certs"@),
{
    join_path(platform, data_dir, "certs")
}

/// Where the certificate authority's material lives, under the data directory.
pub fn get_ca_dir(platform: Platform, data_dir: &str) -> (r: String)
    ensures
        r@ == joined(platform, data_dir@, "ca"@),
{
    join_path(platform, data_dir, "ca")
}

/// Where the proxy writes its logs, under the log directory.
pub fn get_nginx_log_dir(platform: Platform, log_dir: &str) -> (r: String)
    ensures
        r@ == joined(platform, log_dir@, "nginx"@),
{
    join_path(platform, log_dir, "nginx")
}

/// The file name of the installed executable.
pub fn get_executable_name(platform: Platform) -> (r: String)
    ensures
        platform == Platform::Unix ==> r@ == "autolocalhost"@,
        platform == Platform::Windows ==> r@ == "autolocalhost.exe"@,
{
    match platform {
        Platform::Unix => "autolocalhost".to_owned(),
        Platform::Windows => "autolocalhost.exe".to_owned(),
    }
}

} // verus!
