//! What a certificate says, as x509-parser reads it.
use vstd::prelude::*;

verus! {

// ── What x509-parser is trusted with ─────────────────────────────────────────

/// The first common name of the subject of a certificate, if it has one that is text, or
/// nothing where `x509_parser::parse_x509_certificate` cannot read the certificate.
pub uninterp spec fn common_name(der: Seq<u8>) -> Option<Option<Seq<char>>>;

/// `x509_parser::parse_x509_certificate` reads a certificate, and the first common name of
/// its subject is taken from it. Both depend on the certificate alone. The text of an error
/// is not stated.
#[verifier::external_body]
pub(crate) fn read_common_name(der: &[u8]) -> (r: Result<Option<String>, String>)
    ensures
        match common_name(der@) {
            Some(Some(cn)) => r is Ok && r->Ok_0 is Some && r->Ok_0->0@ == cn,
            Some(None) => r is Ok && r->Ok_0 is None,
            None => r is Err,
        },
{
    let (_, cert) = x509_parser::parse_x509_certificate(der).map_err(|e| format!("{e}"))?;
    let cn = cert.subject().iter_common_name().next();
    Ok(cn.and_then(|a| a.as_str().ok()).map(|s| s.to_string()))
}

/// What a certificate may be used for.
#[derive(Clone, Copy, PartialEq, Eq, Debug, Structural)]
pub struct Rights {
    /// Whether it is the certificate of an authority.
    pub is_ca: bool,
    /// The bits of its key usage, bit 0 for the first of them: 0 for signatures, 5 for
    /// signing certificates, 6 for signing lists of revoked ones.
    pub key_usage: u16,
    pub client_auth: bool,
    pub server_auth: bool,
}

/// What a certificate may be used for, or nothing where
/// `x509_parser::parse_x509_certificate` cannot read it.
pub uninterp spec fn rights_in(der: Seq<u8>) -> Option<Rights>;

/// `basic_constraints`, `key_usage` and `extended_key_usage` of a certificate that
/// `x509_parser::parse_x509_certificate` reads. What is missing, or there twice, gives no
/// right. All of it depends on the certificate alone. The text of an error is not stated.
#[verifier::external_body]
fn read_rights(der: &[u8]) -> (r: Result<Rights, String>)
    ensures
        match rights_in(der@) {
            Some(x) => r == Ok::<Rights, String>(x),
            None => r is Err,
        },
{
    let (_, cert) = x509_parser::parse_x509_certificate(der).map_err(|e| format!("{e}"))?;
    let ca = cert.basic_constraints().ok().flatten().map(|x| x.value.ca);
    let usage = cert.key_usage().ok().flatten().map(|x| x.value.flags);
    let more = cert.extended_key_usage().ok().flatten().map(|x| x.value);
    Ok(Rights {
        is_ca: ca.unwrap_or_default(),
        key_usage: usage.unwrap_or_default(),
        client_auth: more.map(|x| x.client_auth).unwrap_or_default(),
        server_auth: more.map(|x| x.server_auth).unwrap_or_default(),
    })
}

/// A host name or an address that a certificate stands for.
#[derive(PartialEq, Eq, Debug)]
pub enum San {
    Dns(String),
    Ip(Vec<u8>),
    /// Something else.
    Other,
}

/// A host name or an address as a value.
pub enum SanView {
    Dns(Seq<char>),
    Ip(Seq<u8>),
    Other,
}

impl San {
    pub open spec fn shown(self) -> SanView {
        match self {
            San::Dns(s) => SanView::Dns(s@),
            San::Ip(b) => SanView::Ip(b@),
            San::Other => SanView::Other,
        }
    }
}

pub open spec fn shown_sans(v: Seq<San>) -> Seq<SanView> {
    v.map_values(|s: San| s.shown())
}

/// The names and addresses that a certificate stands for, in their order, or nothing where
/// `x509_parser::parse_x509_certificate` cannot read it.
pub uninterp spec fn sans_in(der: Seq<u8>) -> Option<Seq<SanView>>;

/// `subject_alternative_name` of a certificate that `x509_parser::parse_x509_certificate`
/// reads; where it is missing, or there twice, there are none. They depend on the certificate
/// alone. The text of an error is not stated.
#[verifier::external_body]
fn read_sans(der: &[u8]) -> (r: Result<Vec<San>, String>)
    ensures
        match sans_in(der@) {
            Some(s) => r is Ok && shown_sans(r->Ok_0@) == s,
            None => r is Err,
        },
{
    let (_, cert) = x509_parser::parse_x509_certificate(der).map_err(|e| format!("{e}"))?;
    let names = cert.subject_alternative_name().ok().flatten();
    let list = names.map(|x| x.value.general_names.clone()).unwrap_or_default();
    Ok(list.into_iter().map(|n| match n {
        x509_parser::extensions::GeneralName::DNSName(s) => San::Dns(s.to_string()),
        x509_parser::extensions::GeneralName::IPAddress(b) => San::Ip(b.to_vec()),
        _ => San::Other,
    }).collect())
}

/// Whom a certificate is for and whom it is from: its public key, its subject and its issuer,
/// each as the bytes that are in it.
pub struct Parties {
    pub public_key: Vec<u8>,
    pub subject: Vec<u8>,
    pub issuer: Vec<u8>,
}

/// The public key, the subject and the issuer of a certificate, or nothing where
/// `x509_parser::parse_x509_certificate` cannot read it.
pub uninterp spec fn parties_in(der: Seq<u8>) -> Option<(Seq<u8>, Seq<u8>, Seq<u8>)>;

/// `public_key`, `subject` and `issuer` of a certificate that
/// `x509_parser::parse_x509_certificate` reads, as bytes. They depend on the certificate
/// alone. The text of an error is not stated.
#[verifier::external_body]
fn read_parties(der: &[u8]) -> (r: Result<Parties, String>)
    ensures
        match parties_in(der@) {
            Some((key, subject, issuer)) => r is Ok && r->Ok_0.public_key@ == key
                && r->Ok_0.subject@ == subject && r->Ok_0.issuer@ == issuer,
            None => r is Err,
        },
{
    let (_, cert) = x509_parser::parse_x509_certificate(der).map_err(|e| format!("{e}"))?;
    Ok(Parties {
        public_key: cert.public_key().raw.to_vec(),
        subject: cert.subject().as_raw().to_vec(),
        issuer: cert.issuer().as_raw().to_vec(),
    })
}

/// Whether `verify_signature` of x509-parser finds that a certificate was signed with the
/// private key that belongs to a public key.
pub uninterp spec fn signature_holds(der: Seq<u8>, public_key: Seq<u8>) -> bool;

/// `verify_signature` of a certificate that `x509_parser::parse_x509_certificate` reads, with
/// a public key that `x509_parser::x509::SubjectPublicKeyInfo` reads. What it finds depends on
/// the two alone. Where one of them cannot be read, the signature does not hold.
#[verifier::external_body]
fn verify(der: &[u8], public_key: &[u8]) -> (r: bool)
    ensures
        r == signature_holds(der@, public_key@),
{
    let cert = x509_parser::parse_x509_certificate(der).ok();
    let key = <x509_parser::x509::SubjectPublicKeyInfo as x509_parser::prelude::FromDer<
        x509_parser::error::X509Error,
    >>::from_der(public_key).ok();
    let both = cert.zip(key);
    both.map(|(c, k)| c.1.verify_signature(Some(&k.1)).is_ok()).unwrap_or_default()
}

// ── Reading a certificate ────────────────────────────────────────────────────

/// What a certificate says.
pub struct CertFacts {
    pub common_name: Option<String>,
    pub rights: Rights,
    pub sans: Vec<San>,
    pub parties: Parties,
}

/// Whether `c` is what a certificate says.
pub open spec fn certificate_shows(c: CertFacts, der: Seq<u8>) -> bool {
    &&& common_name(der) == Some(
        match c.common_name {
            Some(s) => Some(s@),
            None => None,
        },
    )
    &&& rights_in(der) == Some(c.rights)
    &&& sans_in(der) == Some(shown_sans(c.sans@))
    &&& parties_in(der) == Some(
        (c.parties.public_key@, c.parties.subject@, c.parties.issuer@),
    )
}

/// Reads a certificate; the error says why it cannot be read.
pub fn read_certificate(der: &[u8]) -> (r: Result<CertFacts, String>)
    ensures
        r is Ok <==> common_name(der@) is Some && rights_in(der@) is Some && sans_in(der@) is Some
            && parties_in(der@) is Some,
        r is Ok ==> certificate_shows(r->Ok_0, der@),
{
    let common_name: Option<String> = match read_common_name(der) {
        Ok(x) => x,
        Err(e) => {
            return Err(e);
        },
    };
    let rights: Rights = match read_rights(der) {
        Ok(x) => x,
        Err(e) => {
            return Err(e);
        },
    };
    let sans: Vec<San> = match read_sans(der) {
        Ok(x) => x,
        Err(e) => {
            return Err(e);
        },
    };
    match read_parties(der) {
        Ok(parties) => Ok(CertFacts { common_name, rights, sans, parties }),
        Err(e) => Err(e),
    }
}

/// Whether a certificate was signed with the private key that belongs to a public key.
pub fn is_signed_with(der: &[u8], public_key: &[u8]) -> (r: bool)
    ensures
        r == signature_holds(der@, public_key@),
{
    verify(der, public_key)
}

} // verus!
