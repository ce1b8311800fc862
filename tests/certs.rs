use autolocalhost::cert_material::{at_authority, at_leaf, issued_files, IssueError};
use autolocalhost::certs::{chain_pem, CertificateGenerator, IssueStep, KeyUse};
use autolocalhost::paths::Platform;

fn generator() -> CertificateGenerator {
    CertificateGenerator::new(
        "a.test",
        "/var/lib/autolocalhost/certs".to_string(),
        "/var/lib/autolocalhost/ca".to_string(),
        Platform::Unix,
    )
}

#[test]
fn issued_domain_writes_nothing() {
    let g = generator();
    for ca in [false, true] {
        let step = g.plan(true, ca);
        assert_eq!(step, IssueStep::AlreadyIssued);
        assert!(g.files_to_write(step).is_empty());
    }
}

#[test]
fn missing_authority_is_created_first() {
    let g = generator();
    let step = g.plan(false, false);
    assert_eq!(step, IssueStep::CreateCa);
    assert_eq!(
        g.files_to_write(step),
        vec![
            "/var/lib/autolocalhost/ca/localCA.crt",
            "/var/lib/autolocalhost/ca/localCA.key",
            "/var/lib/autolocalhost/certs/a.test.crt",
            "/var/lib/autolocalhost/certs/a.test.key",
            "/var/lib/autolocalhost/certs/a.test.fullchain.crt",
        ]
    );
}

#[test]
fn existing_authority_is_reused() {
    let g = generator();
    let step = g.plan(false, true);
    assert_eq!(step, IssueStep::UseExistingCa);
    assert_eq!(g.files_to_write(step).len(), 3);
    assert_eq!(g.fullchain_path(), "/var/lib/autolocalhost/certs/a.test.fullchain.crt");
    assert_eq!(g.ca_key_path(), "/var/lib/autolocalhost/ca/localCA.key");
}

#[test]
fn chain_is_leaf_then_authority() {
    assert_eq!(chain_pem("LEAF", "CA"), "LEAF\nCA");
}

#[test]
fn leaf_names_domain_www_localhost_and_loopback() {
    let p = autolocalhost::certs::leaf_profile("a.test");
    assert_eq!(p.dns_names, vec!["a.test", "www.a.test", "localhost"]);
    assert_eq!(p.ip_addresses, vec![[127, 0, 0, 1]]);
    assert_eq!(p.common_name, "a.test");
    assert!(!p.authority);
    assert_eq!(p.validity_days, 3650);
}

#[test]
fn authority_signs_and_lasts_ten_years() {
    let p = autolocalhost::certs::authority_profile();
    assert!(p.authority);
    assert_eq!(p.common_name, "Local Development CA");
    assert_eq!(p.key_uses, vec![KeyUse::CertSign, KeyUse::CrlSign, KeyUse::DigitalSignature, KeyUse::KeyEncipherment]);
    assert!(p.dns_names.is_empty());
    assert_eq!(p.validity_days, 3650);
}

#[test]
fn issued_domain_needs_no_material() {
    assert!(generator().issue(IssueStep::AlreadyIssued, "", "").unwrap().is_empty());
}

#[test]
fn new_authority_and_leaf_material() {
    let files = generator().issue(IssueStep::CreateCa, "", "").unwrap();
    assert_eq!(files.len(), 5);
    assert!(files[0].starts_with("-----BEGIN CERTIFICATE-----"));
    assert!(files[1].contains("PRIVATE KEY"));
    assert!(files[2].starts_with("-----BEGIN CERTIFICATE-----"));
    assert!(files[3].contains("PRIVATE KEY"));
    assert_eq!(files[4], format!("{}\n{}", files[2], files[0]));
    assert_ne!(files[1], files[3]);
}

#[test]
fn existing_authority_key_signs_the_leaf() {
    let first = generator().issue(IssueStep::CreateCa, "", "").unwrap();
    let files = generator().issue(IssueStep::UseExistingCa, &first[0], &first[1]).unwrap();
    assert_eq!(files.len(), 3);
    assert_eq!(files[2], format!("{}\n{}", files[0], first[0]));
    assert!(files[1].contains("PRIVATE KEY"));
    assert_ne!(files[1], first[1]);
}

#[test]
fn unreadable_authority_key_fails_at_the_authority() {
    let r = generator().issue(IssueStep::UseExistingCa, "CA", "not a key");
    assert!(matches!(r, Err(IssueError::Authority(_))));
}

#[test]
fn texts_go_to_their_files() {
    assert!(issued_files(IssueStep::AlreadyIssued, "C", "K", "c", "k").is_empty());
    assert_eq!(issued_files(IssueStep::UseExistingCa, "C", "K", "c", "k"), vec!["c", "k", "c\nC"]);
    assert_eq!(issued_files(IssueStep::CreateCa, "C", "K", "c", "k"), vec!["C", "K", "c", "k", "c\nC"]);
}

#[test]
fn errors_are_classified_by_stage() {
    let bad: Result<u8, rcgen::RcgenError> = Err(rcgen::RcgenError::CouldNotParseKeyPair);
    assert!(matches!(at_authority(bad), Err(IssueError::Authority(rcgen::RcgenError::CouldNotParseKeyPair))));
    let bad: Result<u8, rcgen::RcgenError> = Err(rcgen::RcgenError::RingUnspecified);
    assert!(matches!(at_leaf(bad), Err(IssueError::Leaf(rcgen::RcgenError::RingUnspecified))));
    assert!(matches!(at_leaf::<u8>(Ok(3)), Ok(3)));
}
