//! The certificate issuer's decisions and file layout: which material a domain
//! needs, where each file goes, and how the chain file is composed. Producing
//! keys and signatures is left to the certificate crate.
use vstd::prelude::*;
use crate::paths::{join_path, joined, Platform};
use crate::text::{append_chars, chars_of, string_of};

verus! {

/// The places of one domain's certificate material and of the certificate authority.
pub struct CertificateGenerator {
    pub domain: String,
    pub certs_dir: String,
    pub ca_dir: String,
    pub platform: Platform,
}

/// What issuing a domain's certificate takes, given what already exists.
#[derive(Clone, Copy, Debug, PartialEq, Eq, Structural)]
pub enum IssueStep {
    /// All three files of the domain exist: nothing is generated or written.
    AlreadyIssued,
    /// The authority exists: load it, then generate and write the domain's files.
    UseExistingCa,
    /// Create and write the authority first, then the domain's files.
    CreateCa,
}

/// The step for a domain, from whether its three files and the authority's two exist.
pub open spec fn issue_step(leaf_present: bool, ca_present: bool) -> IssueStep {
    if leaf_present {
        IssueStep::AlreadyIssued
    } else if ca_present {
        IssueStep::UseExistingCa
    } else {
        IssueStep::CreateCa
    }
}

impl CertificateGenerator {
    pub fn new(domain: &str, certs_dir: String, ca_dir: String, platform: Platform) -> (r: Self)
        ensures
            r.domain@ == domain@,
            r.certs_dir@ == certs_dir@,
            r.ca_dir@ == ca_dir@,
            r.platform == platform,
    {
        CertificateGenerator { domain: domain.to_owned(), certs_dir, ca_dir, platform }
    }

    pub open spec fn leaf_path(&self, suffix: Seq<char>) -> Seq<char> {
        joined(self.platform, self.certs_dir@, self.domain@ + suffix)
    }

    /// The files that issuance writes for `step`, in the order they are written.
    pub open spec fn written_files(&self, step: IssueStep) -> Seq<Seq<char>> {
        match step {
            IssueStep::AlreadyIssued => Seq::empty(),
            IssueStep::UseExistingCa => seq![
                self.leaf_path(".crt"@),
                self.leaf_path(".key"@),
                self.leaf_path(".fullchain.crt"@),
            ],
            IssueStep::CreateCa => seq![
                joined(self.platform, self.ca_dir@, "localCA.crt"@),
                joined(self.platform, self.ca_dir@, "localCA.key"@),
                self.leaf_path(".crt"@),
                self.leaf_path(".key"@),
                self.leaf_path(".fullchain.crt"@),
            ],
        }
    }

    fn domain_file(&self, suffix: &str) -> (r: String)
        ensures
            r@ == self.leaf_path(suffix@),
    {
        let mut name = chars_of(self.domain.as_str());
        append_chars(&mut name, &chars_of(suffix));
        join_path(self.platform, self.certs_dir.as_str(), string_of(&name).as_str())
    }

    /// The domain's certificate: `<domain>.crt` in the certificate directory.
    pub fn cert_path(&self) -> (r: String)
        ensures
            r@ == self.leaf_path(".crt"@),
    {
        self.domain_file(".crt")
    }

    /// The domain's private key: `<domain>.key` in the certificate directory.
    pub fn key_path(&self) -> (r: String)
        ensures
            r@ == self.leaf_path(".key"@),
    {
        self.domain_file(".key")
    }

    /// The domain's chain: `<domain>.fullchain.crt` in the certificate directory.
    pub fn fullchain_path(&self) -> (r: String)
        ensures
            r@ == self.leaf_path(".fullchain.crt"@),
    {
        self.domain_file(".fullchain.crt")
    }

    /// The authority's certificate: `localCA.crt` in the authority directory.
    pub fn ca_cert_path(&self) -> (r: String)
        ensures
            r@ == joined(self.platform, self.ca_dir@, "localCA.crt"@),
    {
        join_path(self.platform, self.ca_dir.as_str(), "localCA.crt")
    }

    /// The authority's private key: `localCA.key` in the authority directory.
    pub fn ca_key_path(&self) -> (r: String)
        ensures
            r@ == joined(self.platform, self.ca_dir@, "localCA.key"@),
    {
        join_path(self.platform, self.ca_dir.as_str(), "localCA.key")
    }

    /// What issuance takes, from whether the domain's three files and the authority's two
    /// files exist. Issuance never rotates existing material.
    pub fn plan(&self, leaf_present: bool, ca_present: bool) -> (r: IssueStep)
        ensures
            r == issue_step(leaf_present, ca_present),
    {
        if leaf_present {
            IssueStep::AlreadyIssued
        } else if ca_present {
            IssueStep::UseExistingCa
        } else {
            IssueStep::CreateCa
        }
    }

    /// The files that issuance writes for `step`, in the order they are written.
    pub fn files_to_write(&self, step: IssueStep) -> (r: Vec<String>)
        ensures
            r@.map_values(|p: String| p@) == self.written_files(step),
    {
        let mut r: Vec<String> = Vec::new();
        if step == IssueStep::AlreadyIssued {
            assert(r@.map_values(|p: String| p@) =~= self.written_files(step));
            return r;
        }
        if step == IssueStep::CreateCa {
            r.push(self.ca_cert_path());
            r.push(self.ca_key_path());
        }
        r.push(self.cert_path());
        r.push(self.key_path());
        r.push(self.fullchain_path());
        assert(r@.map_values(|p: String| p@) =~= self.written_files(step));
        r
    }
}

/// The chain file: the domain's certificate, a line feed, then the authority's certificate.
pub fn chain_pem(cert_pem: &str, ca_pem: &str) -> (r: String)
    ensures
        r@ == cert_pem@ + seq!['\n'] + ca_pem@,
{
    let mut out = chars_of(cert_pem);
    out.push('\n');
    append_chars(&mut out, &chars_of(ca_pem));
    string_of(&out)
}

/// What a key is allowed to do.
#[derive(Clone, Copy, Debug, PartialEq, Eq, Structural)]
pub enum KeyUse {
    CertSign,
    CrlSign,
    DigitalSignature,
    KeyEncipherment,
}

/// How many authorities may stand below an authority in a chain.
#[derive(Clone, Copy, Debug, PartialEq, Eq, Structural)]
pub enum PathLength {
    Unlimited,
    AtMost(u8),
}

/// The contents of one certificate: subject, role, names and lifetime.
pub struct CertificateProfile {
    pub organization: String,
    pub common_name: String,
    pub unit: String,
    pub country: String,
    /// Whether the certificate is an authority that signs others.
    pub authority: bool,
    /// For an authority, how many authorities may stand below it.
    pub path_length: PathLength,
    pub key_uses: Vec<KeyUse>,
    pub dns_names: Vec<String>,
    /// IPv4 addresses named by the certificate.
    pub ip_addresses: Vec<[u8; 4]>,
    pub validity_days: u16,
}

/// How long issued material stays valid: ten years.
pub const VALIDITY_DAYS: u16 = 3650;

/// The local certificate authority: a ten-year authority that signs certificates and lists.
pub fn authority_profile() -> (r: CertificateProfile)
    ensures
        r.organization@ == "Local Dev Organization"@,
        r.common_name@ == "Local Development CA"@,
        r.unit@ == "Development"@,
        r.country@ == "KZ"@,
        r.authority,
        r.path_length == PathLength::Unlimited,
        r.key_uses@ == seq![KeyUse::CertSign, KeyUse::CrlSign, KeyUse::DigitalSignature, KeyUse::KeyEncipherment],
        r.dns_names@.len() == 0,
        r.ip_addresses@.len() == 0,
        r.validity_days == VALIDITY_DAYS,
{
    let mut key_uses: Vec<KeyUse> = Vec::new();
    key_uses.push(KeyUse::CertSign);
    key_uses.push(KeyUse::CrlSign);
    key_uses.push(KeyUse::DigitalSignature);
    key_uses.push(KeyUse::KeyEncipherment);
    assert(key_uses@ =~= seq![KeyUse::CertSign, KeyUse::CrlSign, KeyUse::DigitalSignature, KeyUse::KeyEncipherment]);
    CertificateProfile {
        organization: "Local Dev Organization".to_owned(),
        common_name: "Local Development CA".to_owned(),
        unit: "Development".to_owned(),
        country: "KZ".to_owned(),
        authority: true,
        path_length: PathLength::Unlimited,
        key_uses,
        dns_names: Vec::new(),
        ip_addresses: Vec::new(),
        validity_days: VALIDITY_DAYS,
    }
}

/// The certificate of `domain`: named for the domain, its `www.` form, `localhost` and
/// `127.0.0.1`, valid ten years, not an authority.
pub fn leaf_profile(domain: &str) -> (r: CertificateProfile)
    ensures
        r.organization@ == "Local Dev Organization"@,
        r.common_name@ == domain@,
        r.unit@ == "Development"@,
        r.country@ == "KZ"@,
        !r.authority,
        r.key_uses@.len() == 0,
        r.dns_names@.map_values(|n: String| n@) == seq![domain@, "www."@ + domain@, "localhost"@],
        r.ip_addresses@ == seq![[127u8, 0u8, 0u8, 1u8]],
        r.validity_days == VALIDITY_DAYS,
{
    let mut www = chars_of("www.");
    append_chars(&mut www, &chars_of(domain));
    let mut dns_names: Vec<String> = Vec::new();
    dns_names.push(domain.to_owned());
    dns_names.push(string_of(&www));
    dns_names.push("localhost".to_owned());
    assert(dns_names@.map_values(|n: String| n@) =~= seq![domain@, "www."@ + domain@, "localhost"@]);
    let mut ip_addresses: Vec<[u8; 4]> = Vec::new();
    ip_addresses.push([127u8, 0u8, 0u8, 1u8]);
    assert(ip_addresses@ =~= seq![[127u8, 0u8, 0u8, 1u8]]);
    CertificateProfile {
        organization: "Local Dev Organization".to_owned(),
        common_name: domain.to_owned(),
        unit: "Development".to_owned(),
        country: "KZ".to_owned(),
        authority: false,
        path_length: PathLength::Unlimited,
        key_uses: Vec::new(),
        dns_names,
        ip_addresses,
        validity_days: VALIDITY_DAYS,
    }
}

/// Issuing for a domain whose three files exist writes no file, whatever the state of the
/// authority, and counts as done.
pub proof fn lemma_issued_domain_writes_nothing(g: CertificateGenerator, ca_present: bool)
    ensures
        issue_step(true, ca_present) == IssueStep::AlreadyIssued,
        g.written_files(issue_step(true, ca_present)).len() == 0,
{
}

} // verus!
