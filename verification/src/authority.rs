//! Keys, authorities and signatures, as rcgen makes them.
//!
//! A value here stands for a text that was read or written: what rcgen holds cannot be looked
//! into, so the text is kept beside it, and only what rcgen gave goes with the text that it
//! belongs to.
use crate::text::texts;
use crate::tlsauth::{pem_certs, pem_key, KeyKind};
use crate::x509::{common_name, parties_in, rights_in, sans_in, signature_holds, Rights, SanView};
use rcgen::{ExtendedKeyUsagePurpose, KeyUsagePurpose};
use vstd::prelude::*;

verus! {

/// An error of rcgen.
#[verifier::external_type_specification]
#[verifier::external_body]
pub struct ExCertError(rcgen::Error);

/// A private key and its public key.
#[verifier::external_type_specification]
#[verifier::external_body]
pub struct ExKeyPair(rcgen::KeyPair);

/// What a certificate is made from.
#[verifier::external_type_specification]
#[verifier::external_body]
pub struct ExCertificateParams(rcgen::CertificateParams);

/// A certificate.
#[verifier::external_type_specification]
#[verifier::external_body]
pub struct ExCertificate(rcgen::Certificate);

// ── What a certificate is to say ─────────────────────────────────────────────

/// What a certificate is to say.
pub struct CertSpec {
    /// The common name of the subject.
    pub common_name: String,
    /// The host names and addresses that it stands for.
    pub sans: Vec<String>,
    /// Whether it may sign certificates.
    pub is_ca: bool,
    pub key_cert_sign: bool,
    pub crl_sign: bool,
    pub digital_signature: bool,
    pub client_auth: bool,
    pub server_auth: bool,
}

pub open spec fn bit(set: bool, value: int) -> int {
    if set {
        value
    } else {
        0
    }
}

/// What a certificate may be used for that says what `spec` says. rcgen writes the key usage
/// only where there is something else to write beside it.
pub open spec fn rights_of(spec: CertSpec) -> Rights {
    let shown = spec.is_ca || spec.client_auth || spec.server_auth || spec.sans@.len() > 0;
    Rights {
        is_ca: spec.is_ca,
        key_usage: if shown {
            (bit(spec.digital_signature, 1) + bit(spec.key_cert_sign, 32) + bit(
                spec.crl_sign,
                64,
            )) as u16
        } else {
            0
        },
        client_auth: spec.client_auth,
        server_auth: spec.server_auth,
    }
}

/// The bytes of the address that the standard library's `IpAddr::from_str` reads from a text,
/// if it reads one.
pub uninterp spec fn ip_octets(text: Seq<char>) -> Option<Seq<u8>>;

/// A host name or an address: a text that is no address is a name.
pub open spec fn san_of(text: Seq<char>, octets: Option<Seq<u8>>) -> SanView {
    match octets {
        Some(b) => SanView::Ip(b),
        None => SanView::Dns(text),
    }
}

/// The host names and addresses that `sans` are.
pub open spec fn sans_of(sans: Seq<Seq<char>>) -> Seq<SanView> {
    sans.map_values(|s: Seq<char>| san_of(s, ip_octets(s)))
}

/// Up to how many characters a text with one certificate is read for certain:
/// rustls-pemfile gives up on longer ones.
pub const MAX_PEM: usize = 0x1000_0000;

/// Whether a text holds one certificate, unless it is too long to be read, and the
/// certificate says what `spec` says with the names and addresses `sans`, for the public key
/// `key`. It is signed with the private key that belongs to `signer`; its issuer is `issuer`,
/// or its own subject where that is `None`.
pub open spec fn certifies(
    pem: Seq<char>,
    spec: CertSpec,
    sans: Seq<SanView>,
    key: Seq<u8>,
    signer: Seq<u8>,
    issuer: Option<Seq<u8>>,
) -> bool {
    match pem_certs(pem) {
        None => pem.len() > MAX_PEM,
        Some(ders) => {
            let der = ders[0];
            &&& ders.len() == 1
            &&& common_name(der) == Some(Some(spec.common_name@))
            &&& rights_in(der) == Some(rights_of(spec))
            &&& sans_in(der) == Some(sans)
            &&& parties_in(der) is Some
            &&& (parties_in(der)->0).0 == key
            &&& (parties_in(der)->0).2 == match issuer {
                Some(name) => name,
                None => (parties_in(der)->0).1,
            }
            &&& signature_holds(der, signer)
        },
    }
}

// ── Keys ─────────────────────────────────────────────────────────────────────

/// Whether a text holds a private key in the form that rcgen writes.
pub open spec fn holds_key(pem: Seq<char>) -> bool {
    exists|der: Seq<u8>| #[trigger] pem_key(pem) == Some(Some((KeyKind::Pkcs8, der)))
}

/// The public key that belongs to the private key in a text, as `public_key_der` of the
/// `rcgen::KeyPair` writes it that `rcgen::KeyPair::from_pem` reads.
pub uninterp spec fn public_half(key_pem: Seq<char>) -> Seq<u8>;

/// A private key.
pub struct Key {
    pair: rcgen::KeyPair,
    text: Ghost<Seq<char>>,
}

impl Key {
    /// The text that the key was read from or written to.
    pub closed spec fn text(self) -> Seq<char> {
        self.text@
    }
}

/// `rcgen::KeyPair::generate` makes a new key, another one every time. Its text, which
/// `serialize_pem` writes, holds a key.
#[verifier::external_body]
pub(crate) fn new_key() -> (r: Result<(Key, String), rcgen::Error>)
    ensures
        r is Ok ==> holds_key(r->Ok_0.1@) && r->Ok_0.0.text() == r->Ok_0.1@,
{
    let pair = rcgen::KeyPair::generate()?;
    let pem = pair.serialize_pem();
    Ok((Key { pair, text: Ghost(pem@) }, pem))
}

/// `rcgen::KeyPair::from_pem` reads a key. Whether it succeeds depends also on the random
/// numbers of the system; that is not stated.
#[verifier::external_body]
pub(crate) fn read_key(pem: &str) -> (r: Result<Key, rcgen::Error>)
    ensures
        r is Ok ==> r->Ok_0.text() == pem@,
{
    let pair = rcgen::KeyPair::from_pem(pem)?;
    Ok(Key { pair, text: Ghost(pem@) })
}

// ── Authorities ──────────────────────────────────────────────────────────────

/// Whether `rcgen::CertificateParams::from_ca_cert_pem` can read the certificate of an
/// authority.
pub uninterp spec fn ca_readable(pem: Seq<char>) -> bool;

/// The types of the entries in the subject of a certificate that
/// `rcgen::CertificateParams::from_ca_cert_pem` reads: the numbers of each, and nothing for a
/// type that rcgen knows by name.
pub uninterp spec fn subject_types(pem: Seq<char>) -> Seq<Option<Seq<u64>>>;

/// The subject of a certificate that `rcgen::CertificateParams::from_ca_cert_pem` reads, as
/// rcgen writes it again.
pub uninterp spec fn ca_name(pem: Seq<char>) -> Seq<u8>;

/// The certificate of an authority that was read.
pub struct CaParams {
    params: rcgen::CertificateParams,
    types: Vec<Option<Vec<u64>>>,
    text: Ghost<Seq<char>>,
}

pub open spec fn types_of(v: Seq<Option<Vec<u64>>>) -> Seq<Option<Seq<u64>>> {
    v.map_values(
        |t: Option<Vec<u64>>|
            match t {
                Some(x) => Some(x@),
                None => None,
            },
    )
}

impl CaParams {
    /// The text that the certificate was read from.
    pub closed spec fn text(self) -> Seq<char> {
        self.text@
    }

    /// The types of the entries in its subject.
    pub closed spec fn types(self) -> Seq<Option<Seq<u64>>> {
        types_of(self.types@)
    }

    /// Whether rcgen can write the subject again.
    pub(crate) fn is_writable(&self) -> (r: bool)
        ensures
            r == types_writable(self.types()),
    {
        let mut i: usize = 0;
        while i < self.types.len()
            invariant
                i <= self.types@.len(),
                forall|k: int|
                    0 <= k < i ==> type_writable(#[trigger] types_of(self.types@)[k]),
            decreases self.types@.len() - i,
        {
            let ok: bool = match &self.types[i] {
                None => true,
                Some(t) => t.len() >= 2 && t[0] < 3 && (t[0] == 2 || t[1] < 40) && t[1]
                    < 18446744073709551535,
            };
            assert(ok == type_writable(types_of(self.types@)[i as int]));
            if !ok {
                return false;
            }
            i = i + 1;
        }
        true
    }
}

/// Whether a type can be written: as a number it has two parts at least, the first of them
/// below 3, and the second below 40 unless the first is 2. A second part so great that the
/// sum in which the two are written would not fit is none.
pub open spec fn type_writable(t: Option<Seq<u64>>) -> bool {
    match t {
        None => true,
        Some(x) => x.len() >= 2 && x[0] < 3 && (x[0] == 2 || x[1] < 40) && x[1]
            < 18446744073709551535,
    }
}

pub open spec fn types_writable(types: Seq<Option<Seq<u64>>>) -> bool {
    forall|i: int| 0 <= i < types.len() ==> type_writable(#[trigger] types[i])
}

/// `rcgen::CertificateParams::from_ca_cert_pem` reads the certificate of an authority.
/// Whether it can, and what the types in its subject are, depends on the text alone.
#[verifier::external_body]
pub(crate) fn read_ca(pem: &str) -> (r: Result<CaParams, rcgen::Error>)
    ensures
        r is Ok <==> ca_readable(pem@),
        r is Ok ==> r->Ok_0.text() == pem@ && r->Ok_0.types() == subject_types(pem@),
{
    let params = rcgen::CertificateParams::from_ca_cert_pem(pem)?;
    let types = params.distinguished_name.iter().map(|(t, _)| match t {
        rcgen::DnType::CustomDnType(x) => Some(x.clone()),
        _ => None,
    }).collect();
    Ok(CaParams { params, types, text: Ghost(pem@) })
}

/// An authority that can sign.
pub struct Authority {
    cert: rcgen::Certificate,
    text: Ghost<Seq<char>>,
}

impl Authority {
    /// The text that its certificate was read from.
    pub closed spec fn text(self) -> Seq<char> {
        self.text@
    }
}

/// `rcgen::CertificateParams::self_signed` makes a certificate with the subject and the key
/// usage that were read, which is all that is taken from an authority when it signs. rcgen
/// does not come back from a subject with a type that cannot be written.
#[verifier::external_body]
pub(crate) fn rebuild_ca(ca: CaParams, key: &Key) -> (r: Result<Authority, rcgen::Error>)
    requires
        types_writable(ca.types()),
    ensures
        r is Ok ==> r->Ok_0.text() == ca.text(),
{
    let mut p = rcgen::CertificateParams::default();
    p.distinguished_name = ca.params.distinguished_name;
    p.key_usages = ca.params.key_usages;
    p.key_identifier_method = ca.params.key_identifier_method;
    let cert = p.self_signed(&key.pair)?;
    Ok(Authority { cert, text: ca.text })
}

// ── Signing ──────────────────────────────────────────────────────────────────

/// `rcgen::CertificateParams::self_signed` on what `spec` says: the text of the new
/// certificate. Read back, it says what `spec` says, for the key, and is signed with it; a text
/// that `rustls_pemfile::certs` takes for too long is not read back.
#[verifier::external_body]
pub(crate) fn sign_self(spec: &CertSpec, key: &Key) -> (r: Result<String, rcgen::Error>)
    ensures
        r is Ok ==> certifies(
            r->Ok_0@,
            *spec,
            texts(spec.sans@).map_values(|s: Seq<char>| san_of(s, ip_octets(s))),
            public_half(key.text()),
            public_half(key.text()),
            None,
        ),
{
    let mut p = rcgen::CertificateParams::new(spec.sans.clone())?;
    p.distinguished_name.push(rcgen::DnType::CommonName, spec.common_name.clone());
    p.is_ca = match spec.is_ca {
        true => rcgen::IsCa::Ca(rcgen::BasicConstraints::Unconstrained),
        false => rcgen::IsCa::NoCa,
    };
    p.key_usages.extend(spec.key_cert_sign.then_some(KeyUsagePurpose::KeyCertSign));
    p.key_usages.extend(spec.crl_sign.then_some(KeyUsagePurpose::CrlSign));
    p.key_usages.extend(spec.digital_signature.then_some(KeyUsagePurpose::DigitalSignature));
    p.extended_key_usages.extend(spec.client_auth.then_some(ExtendedKeyUsagePurpose::ClientAuth));
    p.extended_key_usages.extend(spec.server_auth.then_some(ExtendedKeyUsagePurpose::ServerAuth));
    Ok(p.self_signed(&key.pair)?.pem())
}

/// `rcgen::CertificateParams::signed_by` on what `spec` says: the text of the new
/// certificate. Read back, it says what `spec` says, for the key `key`; its issuer is the
/// subject of `ca`, and it is signed with `ca_key`. A text that `rustls_pemfile::certs` takes
/// for too long is not read back.
#[verifier::external_body]
pub(crate) fn sign_with(spec: &CertSpec, key: &Key, ca: &Authority, ca_key: &Key) -> (r: Result<
    String,
    rcgen::Error,
>)
    ensures
        r is Ok ==> certifies(
            r->Ok_0@,
            *spec,
            texts(spec.sans@).map_values(|s: Seq<char>| san_of(s, ip_octets(s))),
            public_half(key.text()),
            public_half(ca_key.text()),
            Some(ca_name(ca.text())),
        ),
{
    let mut p = rcgen::CertificateParams::new(spec.sans.clone())?;
    p.distinguished_name.push(rcgen::DnType::CommonName, spec.common_name.clone());
    p.is_ca = match spec.is_ca {
        true => rcgen::IsCa::Ca(rcgen::BasicConstraints::Unconstrained),
        false => rcgen::IsCa::NoCa,
    };
    p.key_usages.extend(spec.key_cert_sign.then_some(KeyUsagePurpose::KeyCertSign));
    p.key_usages.extend(spec.crl_sign.then_some(KeyUsagePurpose::CrlSign));
    p.key_usages.extend(spec.digital_signature.then_some(KeyUsagePurpose::DigitalSignature));
    p.extended_key_usages.extend(spec.client_auth.then_some(ExtendedKeyUsagePurpose::ClientAuth));
    p.extended_key_usages.extend(spec.server_auth.then_some(ExtendedKeyUsagePurpose::ServerAuth));
    Ok(p.signed_by(&key.pair, &ca.cert, &ca_key.pair)?.pem())
}

} // verus!
