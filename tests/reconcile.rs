use autolocalhost::container_info::ContainerInfo;
use autolocalhost::port_mapping::PortMapping;
use autolocalhost::reconcile::plan_reconciliation;

fn c(name: &str, running: bool, domain: &str, ports: &[(u16, u16)], ssl: &[(u16, u16)]) -> ContainerInfo {
    ContainerInfo {
        id: format!("id-{name}"),
        name: name.to_string(),
        is_running: running,
        domain: domain.to_string(),
        ports: ports.iter().map(|&(e, i)| PortMapping::new(e, i)).collect(),
        ssl_ports: ssl.iter().map(|&(e, i)| PortMapping::new(e, i)).collect(),
    }
}

#[test]
fn duplicate_running_domains_abort_the_pass() {
    let v = vec![
        c("a", true, "x.test", &[(80, 8080)], &[]),
        c("b", true, "y.test", &[(81, 80)], &[]),
        c("c", true, "x.test", &[(82, 80)], &[]),
    ];
    let e = plan_reconciliation(&v).err().unwrap();
    assert_eq!(e.name, "c");
    assert_eq!(e.domain, "x.test");
}

#[test]
fn stopped_or_unrouted_containers_do_not_clash() {
    let v = vec![
        c("a", true, "x.test", &[(80, 8080)], &[]),
        c("b", false, "x.test", &[(90, 80)], &[]),
        c("c", true, "", &[(81, 80)], &[]),
        c("d", true, "", &[(82, 80)], &[]),
    ];
    let p = plan_reconciliation(&v).ok().unwrap();
    assert_eq!(p.domains, vec!["x.test".to_string()]);
    let names: Vec<String> = p.running.iter().map(|c| c.name.clone()).collect();
    assert_eq!(names, vec!["a", "c", "d"]);
    let mut ports = p.ports.clone();
    ports.sort();
    assert_eq!(ports, vec![80, 81, 82]);
}

#[test]
fn plan_lists_domains_certificates_and_ports_once() {
    let v = vec![
        c("a", true, "a.test", &[(80, 8080)], &[(443, 8443)]),
        c("b", true, "b.test", &[(80, 3000), (8000, 8000)], &[]),
        c("z", true, "", &[], &[(8443, 443)]),
    ];
    let p = plan_reconciliation(&v).ok().unwrap();
    assert_eq!(p.domains, vec!["a.test".to_string(), "b.test".to_string()]);
    assert_eq!(p.cert_domains, vec!["a.test".to_string()]);
    assert_eq!(p.ports, vec![80, 443, 8000, 8443]);
}

#[test]
fn empty_snapshot_gives_an_empty_plan() {
    let p = plan_reconciliation(&vec![]).ok().unwrap();
    assert!(p.running.is_empty() && p.domains.is_empty() && p.ports.is_empty());
}

#[test]
fn hostnames_come_sorted() {
    let v = vec![
        c("z", true, "zeta.test", &[(80, 80)], &[]),
        c("a", true, "alpha.test", &[(81, 80)], &[]),
        c("m", true, "mid.test", &[(82, 80)], &[]),
    ];
    let p = plan_reconciliation(&v).ok().unwrap();
    assert_eq!(p.domains, vec!["alpha.test".to_string(), "mid.test".to_string(), "zeta.test".to_string()]);
    let names: Vec<String> = p.running.iter().map(|c| c.name.clone()).collect();
    assert_eq!(names, vec!["z", "a", "m"]);
}
