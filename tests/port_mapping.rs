use autolocalhost::port_mapping::{PortError, PortMapping};

fn pair(m: PortMapping) -> (u16, u16) {
    (m.external, m.internal)
}

#[test]
fn single_port_maps_to_itself() {
    for n in [1u16, 80, 8080, 65535] {
        let m = PortMapping::parse_port_mapping(&n.to_string()).unwrap();
        assert_eq!(pair(m), (n, n));
    }
}

#[test]
fn pair_parses_exactly() {
    assert_eq!(pair(PortMapping::parse_port_mapping("8080:80").unwrap()), (8080, 80));
    assert_eq!(pair(PortMapping::parse_port_mapping("1:65535").unwrap()), (1, 65535));
    assert_eq!(pair(PortMapping::parse_port_mapping(" 80 : 8080 ").unwrap()), (80, 8080));
}

#[test]
fn leading_plus_and_zeros_are_numbers() {
    assert_eq!(pair(PortMapping::parse_port_mapping("+80").unwrap()), (80, 80));
    assert_eq!(pair(PortMapping::parse_port_mapping("0080:08").unwrap()), (80, 8));
}

#[test]
fn out_of_range_or_non_numeric_components_fail() {
    assert_eq!(PortMapping::parse_port_mapping("0").unwrap_err(), PortError::OutOfRange);
    assert_eq!(PortMapping::parse_port_mapping("80:0").unwrap_err(), PortError::OutOfRange);
    assert_eq!(PortMapping::parse_port_mapping("65536").unwrap_err(), PortError::InvalidNumber);
    assert_eq!(PortMapping::parse_port_mapping("80:70000").unwrap_err(), PortError::InvalidNumber);
    assert_eq!(PortMapping::parse_port_mapping("abc").unwrap_err(), PortError::InvalidNumber);
    assert_eq!(PortMapping::parse_port_mapping("x:80").unwrap_err(), PortError::InvalidNumber);
    assert_eq!(PortMapping::parse_port_mapping("80:").unwrap_err(), PortError::InvalidNumber);
    assert_eq!(PortMapping::parse_port_mapping("-1").unwrap_err(), PortError::InvalidNumber);
    assert_eq!(PortMapping::parse_port_mapping("+").unwrap_err(), PortError::InvalidNumber);
}

#[test]
fn empty_token_and_bad_format() {
    assert_eq!(PortMapping::parse_port_mapping("").unwrap_err(), PortError::Empty);
    assert_eq!(PortMapping::parse_port_mapping("   ").unwrap_err(), PortError::Empty);
    assert_eq!(PortMapping::parse_port_mapping("1:2:3").unwrap_err(), PortError::BadFormat);
}

#[test]
fn validate_port_trims() {
    assert_eq!(PortMapping::validate_port(" 443 ").unwrap(), 443);
    assert_eq!(PortMapping::validate_port("\t22\n").unwrap(), 22);
    assert_eq!(PortMapping::validate_port("").unwrap_err(), PortError::InvalidNumber);
}

#[test]
fn new_keeps_both_ports() {
    assert_eq!(pair(PortMapping::new(443, 8443)), (443, 8443));
}

#[test]
fn mapping_lists() {
    assert!(PortMapping::parse_port_mappings("").unwrap().is_empty());
    let v = PortMapping::parse_port_mappings("80, 443:8443,3000").unwrap();
    let pairs: Vec<(u16, u16)> = v.into_iter().map(pair).collect();
    assert_eq!(pairs, vec![(80, 80), (443, 8443), (3000, 3000)]);
}

#[test]
fn mapping_list_names_the_first_bad_token() {
    let e = PortMapping::parse_port_mappings("80,x1,0").unwrap_err();
    assert_eq!(e.index, 1);
    assert_eq!(e.token, "x1");
    assert_eq!(e.cause, PortError::InvalidNumber);
    let e = PortMapping::parse_port_mappings("80,,90").unwrap_err();
    assert_eq!(e.index, 1);
    assert_eq!(e.token, "");
    assert_eq!(e.cause, PortError::Empty);
    let e = PortMapping::parse_port_mappings("80,").unwrap_err();
    assert_eq!(e.index, 1);
    assert_eq!(e.cause, PortError::Empty);
}
