//! Producing certificate material with the certificate crate: the authority and
//! the domain certificate are built from the profiles of `certs`, and the texts
//! of the files are returned in the order in which they are written.
use vstd::prelude::*;
use crate::certs::{
    authority_profile, chain_pem, leaf_profile, CertificateGenerator, CertificateProfile, IssueStep,
    KeyUse, PathLength,
};

verus! {

#[verifier::external_type_specification]
#[verifier::external_body]
pub struct ExOffsetDateTime(time::OffsetDateTime);

#[verifier::external_type_specification]
#[verifier::external_body]
pub struct ExCertificateParams(rcgen::CertificateParams);

#[verifier::external_type_specification]
#[verifier::external_body]
pub struct ExKeyPair(rcgen::KeyPair);

#[verifier::external_type_specification]
#[verifier::external_body]
pub struct ExCertificate(rcgen::Certificate);

#[verifier::external_type_specification]
#[verifier::external_body]
pub struct ExRcgenError(rcgen::RcgenError);

/// Why issuance stopped: at the authority, which blocks every domain until mended, at the
/// domain's own certificate, or because the validity end lies beyond the calendar.
#[derive(Debug)]
pub enum IssueError {
    Authority(rcgen::RcgenError),
    Leaf(rcgen::RcgenError),
    Validity,
}

/// Relies on `time::OffsetDateTime::now_utc`: the current time; nothing is known of it.
#[verifier::external_body]
fn now_utc() -> time::OffsetDateTime {
    time::OffsetDateTime::now_utc()
}

/// Relies on `time::OffsetDateTime::checked_add`: the time `days` days later, or nothing
/// where that leaves the supported range; it does not panic.
#[verifier::external_body]
fn days_later(t: time::OffsetDateTime, days: u16) -> Option<time::OffsetDateTime> {
    t.checked_add(time::Duration::days(i64::from(days)))
}

/// Relies on `rcgen::CertificateParams::default`: parameters to be filled in.
#[verifier::external_body]
fn new_params() -> rcgen::CertificateParams {
    rcgen::CertificateParams::default()
}

/// Relies on `rcgen::DistinguishedName::push`: the subject names of `profile`.
#[verifier::external_body]
fn set_subject(params: &mut rcgen::CertificateParams, profile: &CertificateProfile) {
    let mut name = rcgen::DistinguishedName::new();
    name.push(rcgen::DnType::OrganizationName, profile.organization.as_str());
    name.push(rcgen::DnType::CommonName, profile.common_name.as_str());
    name.push(rcgen::DnType::OrganizationalUnitName, profile.unit.as_str());
    name.push(rcgen::DnType::CountryName, profile.country.as_str());
    params.distinguished_name = name;
}

/// Relies on the public `is_ca` and `key_usages` fields of `rcgen::CertificateParams`: the
/// authority flag, path length and key uses of `profile`.
#[verifier::external_body]
fn set_role(params: &mut rcgen::CertificateParams, profile: &CertificateProfile) {
    let limit = match profile.path_length {
        PathLength::Unlimited => rcgen::BasicConstraints::Unconstrained,
        PathLength::AtMost(n) => rcgen::BasicConstraints::Constrained(n),
    };
    params.is_ca = match profile.authority {
        true => rcgen::IsCa::Ca(limit),
        false => rcgen::IsCa::NoCa,
    };
    params.key_usages = profile.key_uses.iter().map(|u| match u {
        KeyUse::CertSign => rcgen::KeyUsagePurpose::KeyCertSign,
        KeyUse::CrlSign => rcgen::KeyUsagePurpose::CrlSign,
        KeyUse::DigitalSignature => rcgen::KeyUsagePurpose::DigitalSignature,
        KeyUse::KeyEncipherment => rcgen::KeyUsagePurpose::KeyEncipherment,
    }).collect();
}

/// Relies on the public `not_before` and `not_after` fields of `rcgen::CertificateParams`:
/// the validity window.
#[verifier::external_body]
fn set_validity(params: &mut rcgen::CertificateParams, from: time::OffsetDateTime, until: time::OffsetDateTime) {
    params.not_before = from;
    params.not_after = until;
}

/// Relies on the public `subject_alt_names` field of `rcgen::CertificateParams`: the DNS
/// names and IPv4 addresses of `profile`.
#[verifier::external_body]
fn set_alt_names(params: &mut rcgen::CertificateParams, profile: &CertificateProfile) {
    params.subject_alt_names = profile.dns_names.iter().map(|n| rcgen::SanType::DnsName(n.clone()))
        .chain(profile.ip_addresses.iter().map(|a| rcgen::SanType::IpAddress((*a).into())))
        .collect();
}

/// Relies on the public `key_pair` field of `rcgen::CertificateParams`: rcgen signs with
/// `key` rather than generate a key pair.
#[verifier::external_body]
fn set_key_pair(params: &mut rcgen::CertificateParams, key: rcgen::KeyPair) {
    params.key_pair = Some(key);
}

/// Relies on `rcgen::KeyPair::from_pem`: the key pair that a PEM text holds, or an error.
#[verifier::external_body]
fn key_pair_from_pem(pem: &str) -> Result<rcgen::KeyPair, rcgen::RcgenError> {
    rcgen::KeyPair::from_pem(pem)
}

/// Relies on `rcgen::Certificate::from_params`: a certificate with the given or a freshly
/// generated key pair, or an error.
#[verifier::external_body]
fn certificate_from_params(params: rcgen::CertificateParams) -> Result<rcgen::Certificate, rcgen::RcgenError> {
    rcgen::Certificate::from_params(params)
}

/// Whether `text` starts as PEM text with the label `label` does.
pub open spec fn pem_labelled(text: Seq<char>, label: Seq<char>) -> bool {
    let head = "-----BEGIN "@ + label + "-----"@;
    head.len() <= text.len() && text.subrange(0, head.len() as int) == head
}

/// Relies on `rcgen::Certificate::serialize_pem`: the self-signed certificate as PEM text,
/// which `pem::encode_config` starts with its `CERTIFICATE` label.
#[verifier::external_body]
fn certificate_pem(cert: &rcgen::Certificate) -> (r: Result<String, rcgen::RcgenError>)
    ensures
        r matches Ok(p) ==> pem_labelled(p@, "CERTIFICATE"@),
{
    cert.serialize_pem()
}

/// Relies on `rcgen::Certificate::serialize_pem_with_signer`: the certificate signed by `ca`,
/// as PEM text, which `pem::encode_config` starts with its `CERTIFICATE` label.
#[verifier::external_body]
fn signed_certificate_pem(cert: &rcgen::Certificate, ca: &rcgen::Certificate) -> (r: Result<String, rcgen::RcgenError>)
    ensures
        r matches Ok(p) ==> pem_labelled(p@, "CERTIFICATE"@),
{
    cert.serialize_pem_with_signer(ca)
}

/// Relies on `rcgen::Certificate::serialize_private_key_pem`: the private key as PEM text,
/// which `pem::encode_config` starts with its `PRIVATE KEY` label. It panics only for remote
/// key pairs, which are never made here.
#[verifier::external_body]
fn private_key_pem(cert: &rcgen::Certificate) -> (r: String)
    ensures
        pem_labelled(r@, "PRIVATE KEY"@),
{
    cert.serialize_private_key_pem()
}

/// rcgen's parameters for `profile`, valid from now for its number of days.
fn params_for(profile: &CertificateProfile) -> (r: Option<rcgen::CertificateParams>) {
    let now = now_utc();
    let until = match days_later(now, profile.validity_days) {
        Some(t) => t,
        None => return None,
    };
    let mut params = new_params();
    set_subject(&mut params, profile);
    set_role(&mut params, profile);
    set_validity(&mut params, now, until);
    set_alt_names(&mut params, profile);
    Some(params)
}

/// The texts of the files that issuance for `step` writes, in the order of
/// `files_to_write`: for a new authority its certificate and key, then the domain's
/// certificate, key and chain; the chain is the domain's certificate, a line feed and the
/// authority's certificate.
pub open spec fn issued_texts(
    step: IssueStep,
    ca_cert: Seq<char>,
    ca_key: Seq<char>,
    cert: Seq<char>,
    key: Seq<char>,
) -> Seq<Seq<char>> {
    match step {
        IssueStep::AlreadyIssued => Seq::empty(),
        IssueStep::UseExistingCa => seq![cert, key, cert + seq!['\n'] + ca_cert],
        IssueStep::CreateCa => seq![ca_cert, ca_key, cert, key, cert + seq!['\n'] + ca_cert],
    }
}

/// Puts the produced texts in the files that issuance for `step` writes.
pub fn issued_files(step: IssueStep, ca_cert: &str, ca_key: &str, cert: &str, key: &str) -> (r: Vec<String>)
    ensures
        r@.map_values(|t: String| t@) == issued_texts(step, ca_cert@, ca_key@, cert@, key@),
{
    let mut r: Vec<String> = Vec::new();
    if step == IssueStep::AlreadyIssued {
        assert(r@.map_values(|t: String| t@) =~= issued_texts(step, ca_cert@, ca_key@, cert@, key@));
        return r;
    }
    if step == IssueStep::CreateCa {
        r.push(ca_cert.to_owned());
        r.push(ca_key.to_owned());
    }
    r.push(cert.to_owned());
    r.push(key.to_owned());
    r.push(chain_pem(cert, ca_cert));
    assert(r@.map_values(|t: String| t@) =~= issued_texts(step, ca_cert@, ca_key@, cert@, key@));
    r
}

/// A result of the certificate crate met while preparing the authority: its error blocks
/// every domain.
pub fn at_authority<T>(r: Result<T, rcgen::RcgenError>) -> (o: Result<T, IssueError>)
    ensures
        match r {
            Ok(v) => o == Ok::<T, IssueError>(v),
            Err(e) => o == Err::<T, IssueError>(IssueError::Authority(e)),
        },
{
    match r {
        Ok(v) => Ok(v),
        Err(e) => Err(IssueError::Authority(e)),
    }
}

/// A result of the certificate crate met while making the domain's certificate: its error
/// blocks that domain only.
pub fn at_leaf<T>(r: Result<T, rcgen::RcgenError>) -> (o: Result<T, IssueError>)
    ensures
        match r {
            Ok(v) => o == Ok::<T, IssueError>(v),
            Err(e) => o == Err::<T, IssueError>(IssueError::Leaf(e)),
        },
{
    match r {
        Ok(v) => Ok(v),
        Err(e) => Err(IssueError::Leaf(e)),
    }
}

impl CertificateGenerator {
    /// The texts of the files that issuance for `step` writes, in the order of
    /// `files_to_write`. For an existing authority, `ca_cert_pem` and `ca_key_pem` are its
    /// stored certificate and key: the key signs the domain's certificate and the stored
    /// certificate closes the chain. For a new authority they are not read.
    pub fn issue(&self, step: IssueStep, ca_cert_pem: &str, ca_key_pem: &str) -> (r: Result<Vec<String>, IssueError>)
        ensures
            step == IssueStep::AlreadyIssued ==> r is Ok && r->Ok_0@.len() == 0,
            step == IssueStep::UseExistingCa && r is Ok ==> exists|cert: Seq<char>, key: Seq<char>|
                r->Ok_0@.map_values(|t: String| t@) == issued_texts(step, ca_cert_pem@, Seq::empty(), cert, key)
                    && pem_labelled(cert, "CERTIFICATE"@) && pem_labelled(key, "PRIVATE KEY"@),
            step == IssueStep::CreateCa && r is Ok ==> exists|ca: Seq<char>, ca_key: Seq<char>, cert: Seq<char>, key: Seq<char>|
                r->Ok_0@.map_values(|t: String| t@) == issued_texts(step, ca, ca_key, cert, key)
                    && pem_labelled(ca, "CERTIFICATE"@) && pem_labelled(ca_key, "PRIVATE KEY"@)
                    && pem_labelled(cert, "CERTIFICATE"@) && pem_labelled(key, "PRIVATE KEY"@),
    {
        if step == IssueStep::AlreadyIssued {
            return Ok(Vec::new());
        }
        let mut ca_params = match params_for(&authority_profile()) {
            Some(p) => p,
            None => return Err(IssueError::Validity),
        };
        if step == IssueStep::UseExistingCa {
            let key = at_authority(key_pair_from_pem(ca_key_pem))?;
            set_key_pair(&mut ca_params, key);
        }
        let ca = at_authority(certificate_from_params(ca_params))?;
        let (ca_text, ca_key_text) = if step == IssueStep::CreateCa {
            (at_authority(certificate_pem(&ca))?, private_key_pem(&ca))
        } else {
            (ca_cert_pem.to_owned(), String::new())
        };
        let leaf_params = match params_for(&leaf_profile(self.domain.as_str())) {
            Some(p) => p,
            None => return Err(IssueError::Validity),
        };
        let leaf = at_leaf(certificate_from_params(leaf_params))?;
        let cert = at_leaf(signed_certificate_pem(&leaf, &ca))?;
        let key = private_key_pem(&leaf);
        Ok(issued_files(step, ca_text.as_str(), ca_key_text.as_str(), cert.as_str(), key.as_str()))
    }
}

} // verus!
