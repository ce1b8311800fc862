use autolocalhost::paths::{
    get_ca_dir, get_certs_dir, get_config_dir, get_data_dir, get_executable_name, get_install_dir,
    get_log_dir, get_nginx_log_dir, join_path, Platform,
};

#[test]
fn unix_layout() {
    let data = get_data_dir(Platform::Unix, &None);
    assert_eq!(data, "/var/lib/autolocalhost");
    assert_eq!(get_certs_dir(Platform::Unix, &data), "/var/lib/autolocalhost/certs");
    assert_eq!(get_ca_dir(Platform::Unix, &data), "/var/lib/autolocalhost/ca");
    let log = get_log_dir(Platform::Unix, &None);
    assert_eq!(get_nginx_log_dir(Platform::Unix, &log), "/var/log/autolocalhost/nginx");
    assert_eq!(get_config_dir(Platform::Unix, &None), "/etc/autolocalhost");
    assert_eq!(get_install_dir(Platform::Unix), "/usr/sbin");
    assert_eq!(get_executable_name(Platform::Unix), "autolocalhost");
}

#[test]
fn windows_layout() {
    let w = Platform::Windows;
    assert_eq!(get_data_dir(w, &None), "C:\\ProgramData\\Autolocalhost");
    assert_eq!(get_config_dir(w, &Some("D:\\Data".to_string())), "D:\\Data\\Autolocalhost");
    assert_eq!(get_log_dir(w, &None), "C:\\ProgramData\\Autolocalhost\\log");
    assert_eq!(get_install_dir(w), "C:\\Program Files\\Autolocalhost");
    assert_eq!(get_executable_name(w), "autolocalhost.exe");
}

#[test]
fn join_puts_one_separator() {
    assert_eq!(join_path(Platform::Unix, "/a/", "b"), "/a/b");
    assert_eq!(join_path(Platform::Unix, "/a", "b"), "/a/b");
    assert_eq!(join_path(Platform::Unix, "", "b"), "b");
}
