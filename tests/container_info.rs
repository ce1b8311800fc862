use autolocalhost::container_info::{ContainerDetails, ContainerInfo, ExtractionError};

fn labels(pairs: &[(&str, &str)]) -> Option<Vec<(String, String)>> {
    Some(pairs.iter().map(|(k, v)| (k.to_string(), v.to_string())).collect())
}

fn details(labels: Option<Vec<(String, String)>>) -> ContainerDetails {
    ContainerDetails {
        id: Some("abc123".to_string()),
        name: Some("/web".to_string()),
        running: Some(true),
        has_config: true,
        labels,
    }
}

#[test]
fn descriptor_from_full_labels() {
    let d = details(labels(&[
        ("kz.byte0.autolocalhost.enabled", "true"),
        ("kz.byte0.autolocalhost.domain", "web.test"),
        ("kz.byte0.autolocalhost.ports", "80:8080"),
        ("kz.byte0.autolocalhost.sslEnabled", "true"),
        ("kz.byte0.autolocalhost.sslPorts", "443:8443"),
    ]));
    let c = ContainerInfo::from_container(&d).ok().unwrap();
    assert_eq!(c.id, "abc123");
    assert_eq!(c.name, "web");
    assert!(c.is_running);
    assert_eq!(c.domain, "web.test");
    assert_eq!((c.ports[0].external, c.ports[0].internal), (80, 8080));
    assert_eq!((c.ssl_ports[0].external, c.ssl_ports[0].internal), (443, 8443));
}

#[test]
fn missing_fields_degrade() {
    let mut d = details(labels(&[
        ("kz.byte0.autolocalhost.ports", "80,bad"),
        ("kz.byte0.autolocalhost.sslPorts", "443"),
    ]));
    d.name = None;
    d.running = None;
    let c = ContainerInfo::from_container(&d).ok().unwrap();
    assert_eq!(c.name, "abc123");
    assert!(!c.is_running);
    assert_eq!(c.domain, "");
    assert!(c.ports.is_empty());
    assert!(c.ssl_ports.is_empty());
}

#[test]
fn tls_ports_need_the_exact_flag() {
    let d = details(labels(&[
        ("kz.byte0.autolocalhost.sslEnabled", "TRUE"),
        ("kz.byte0.autolocalhost.sslPorts", "443"),
    ]));
    assert!(ContainerInfo::from_container(&d).ok().unwrap().ssl_ports.is_empty());
}

#[test]
fn all_leading_slashes_are_stripped() {
    let mut d = details(labels(&[]));
    d.name = Some("//api".to_string());
    assert_eq!(ContainerInfo::from_container(&d).ok().unwrap().name, "api");
}

#[test]
fn extraction_errors() {
    let mut d = details(labels(&[]));
    d.id = None;
    assert_eq!(ContainerInfo::from_container(&d).err().unwrap(), ExtractionError::MissingId);
    let mut d = details(labels(&[]));
    d.has_config = false;
    assert_eq!(ContainerInfo::from_container(&d).err().unwrap(), ExtractionError::NoConfig);
    let d = details(None);
    assert_eq!(ContainerInfo::from_container(&d).err().unwrap(), ExtractionError::NoLabels);
}

#[test]
fn copy_keeps_every_field() {
    let d = details(labels(&[("kz.byte0.autolocalhost.domain", "web.test"), ("kz.byte0.autolocalhost.ports", "1,2")]));
    let c = ContainerInfo::from_container(&d).ok().unwrap();
    let k = c.copy();
    assert_eq!((k.id, k.name, k.domain, k.ports.len()), (c.id, c.name, c.domain, 2));
}
