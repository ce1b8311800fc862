use autolocalhost::container_info::ContainerInfo;
use autolocalhost::hosts::HostsFileManager;
use autolocalhost::paths::Platform;
use autolocalhost::port_mapping::PortMapping;
use autolocalhost::proxy_config::ConfigGenerator;
use autolocalhost::proxy_container::{port_key, should_stop, ProxySettings};
use autolocalhost::reconcile::plan_reconciliation;

fn settings() -> ProxySettings {
    ProxySettings::new(
        Platform::Unix,
        "/var/lib/autolocalhost",
        "/var/lib/autolocalhost/certs",
        "/var/log/autolocalhost/nginx",
        "/work".to_string(),
    )
}

#[test]
fn port_keys_name_tcp_ports() {
    assert_eq!(port_key(80), "80/tcp");
    assert_eq!(port_key(0), "0/tcp");
    assert_eq!(port_key(65535), "65535/tcp");
}

#[test]
fn image_reference_splits_at_first_colon() {
    let mut s = settings();
    assert_eq!(s.image_reference(), ("nginx".to_string(), "latest".to_string()));
    s.image = "registry:5000/nginx:1.25".to_string();
    assert_eq!(s.image_reference(), ("registry".to_string(), "5000/nginx:1.25".to_string()));
    s.image = "nginx".to_string();
    assert_eq!(s.image_reference(), ("nginx".to_string(), "latest".to_string()));
}

#[test]
fn mounts_are_parsed() {
    let s = settings();
    let ms = s.prepare_mounts().unwrap();
    assert_eq!(ms.len(), 3);
    assert_eq!(ms[0].source, "/var/lib/autolocalhost/nginx.conf");
    assert_eq!(ms[0].target, "/etc/nginx/nginx.conf");
    assert!(ms[0].read_only);
    assert_eq!(ms[2].target, "/var/log/nginx");
    assert!(!ms[2].read_only);
}

#[test]
fn relative_mount_and_bad_mount() {
    let mut s = settings();
    s.volume_mounts = vec!["conf:/etc/x:ro".to_string()];
    let ms = s.prepare_mounts().unwrap();
    assert_eq!(ms[0].source, "/work/conf");
    s.volume_mounts = vec!["/ok:/x".to_string(), "nocolon".to_string()];
    assert_eq!(s.prepare_mounts().unwrap_err().mount, "nocolon");
}

#[test]
fn routes_follow_each_mapping() {
    let a = ContainerInfo {
        id: "1".to_string(),
        name: "a".to_string(),
        is_running: true,
        domain: "a.test".to_string(),
        ports: vec![PortMapping::new(80, 8080), PortMapping::new(81, 81)],
        ssl_ports: vec![PortMapping::new(443, 8443)],
    };
    let g = ConfigGenerator::new(&vec![a], "/etc/autolocalhost/nginx.template.conf".to_string());
    let r = g.routes();
    let flat: Vec<(u16, bool, String, u16)> =
        r.iter().map(|x| (x.listen, x.tls, x.upstream.clone(), x.upstream_port)).collect();
    assert_eq!(
        flat,
        vec![(80, false, "a".to_string(), 8080), (81, false, "a".to_string(), 81), (443, true, "a".to_string(), 8443)]
    );
    assert_eq!(g.prepare_template_data().containers.len(), 1);
    assert_eq!(g.template_path, "/etc/autolocalhost/nginx.template.conf");
}

#[test]
fn end_to_end_single_container() {
    let a = ContainerInfo {
        id: "A".to_string(),
        name: "a".to_string(),
        is_running: true,
        domain: "a.test".to_string(),
        ports: vec![PortMapping::new(80, 8080)],
        ssl_ports: vec![],
    };
    let plan = plan_reconciliation(&vec![a]).ok().unwrap();
    let routes = ConfigGenerator::new(&plan.running, String::new()).routes();
    assert_eq!(routes.len(), 1);
    assert_eq!((routes[0].listen, routes[0].tls), (80, false));
    assert_eq!((routes[0].upstream.as_str(), routes[0].upstream_port), ("a", 8080));
    assert_eq!(routes[0].server_name, "a.test");
    let hosts = HostsFileManager::new("/etc/hosts".to_string());
    let text = hosts.update_managed_block("", &plan.domains);
    let lines: Vec<&str> = text.lines().filter(|l| !l.starts_with('#')).collect();
    assert_eq!(lines, vec!["127.0.0.1 a.test"]);
    assert_eq!(plan.ports, vec![80]);
}

#[test]
fn only_running_containers_are_stopped() {
    assert!(should_stop(&Some("running".to_string())));
    assert!(!should_stop(&Some("exited".to_string())));
    assert!(!should_stop(&None));
}
