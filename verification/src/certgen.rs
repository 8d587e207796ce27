//! A small private authority: it signs one certificate for the gateway and one for every
//! tenant.
use crate::authority::{
    ca_name, ca_readable, certifies, holds_key, new_key, public_half, read_ca, read_key,
    rebuild_ca, sans_of, sign_self, sign_with, subject_types, types_writable, Authority, CaParams,
    CertSpec, Key, MAX_PEM,
};
use crate::text::{copy_texts, texts};
use crate::tlsauth::pem_certs;
use crate::x509::common_name;
use vstd::prelude::*;

verus! {

// ── What is signed ───────────────────────────────────────────────────────────

/// A certificate and its private key, as texts.
pub struct Pem {
    pub cert_pem: String,
    pub key_pem: String,
}

/// Why a certificate is not issued.
pub enum CertError {
    /// A certificate for a server needs a host name or an address.
    NoSan,
    /// The key of the authority cannot be read.
    CaKey(rcgen::Error),
    /// The certificate of the authority cannot be read.
    CaCert(rcgen::Error),
    /// The subject of the authority has an entry of a type that cannot be written.
    CaSubject,
    /// The authority cannot be used.
    Ca(rcgen::Error),
    /// No key was made.
    Key(rcgen::Error),
    /// The certificate was not signed.
    Sign(rcgen::Error),
}

/// What the certificate of an authority says.
pub fn ca_spec(common_name: &str) -> (r: CertSpec)
    ensures
        is_ca_spec(r, common_name@),
{
    CertSpec {
        common_name: common_name.to_owned(),
        sans: Vec::new(),
        is_ca: true,
        key_cert_sign: true,
        crl_sign: true,
        digital_signature: true,
        client_auth: false,
        server_auth: false,
    }
}

/// What the certificate of a tenant says. The tenant is its common name.
pub fn client_spec(tenant: &str) -> (r: CertSpec)
    ensures
        is_client_spec(r, tenant@),
{
    CertSpec {
        common_name: tenant.to_owned(),
        sans: Vec::new(),
        is_ca: false,
        key_cert_sign: false,
        crl_sign: false,
        digital_signature: true,
        client_auth: true,
        server_auth: false,
    }
}

/// What the certificate of the gateway says. The first of its names is the common name.
pub fn server_spec(sans: &[String]) -> (r: CertSpec)
    requires
        sans@.len() > 0,
    ensures
        is_server_spec(r, texts(sans@)),
{
    CertSpec {
        common_name: sans[0].clone(),
        sans: copy_texts(sans),
        is_ca: false,
        key_cert_sign: false,
        crl_sign: false,
        digital_signature: true,
        client_auth: false,
        server_auth: true,
    }
}

/// Whether a certificate and its key were issued as `spec` says: the certificate is for the
/// key, says what `spec` says, and is signed by the authority with the certificate and key
/// `ca`, or with its own key.
pub open spec fn issued(p: Pem, spec: CertSpec, ca: Option<(Seq<char>, Seq<char>)>) -> bool {
    &&& holds_key(p.key_pem@)
    &&& match ca {
        None => certifies(
            p.cert_pem@,
            spec,
            sans_of(texts(spec.sans@)),
            public_half(p.key_pem@),
            public_half(p.key_pem@),
            None,
        ),
        Some((cert, key)) => certifies(
            p.cert_pem@,
            spec,
            sans_of(texts(spec.sans@)),
            public_half(p.key_pem@),
            public_half(key),
            Some(ca_name(cert)),
        ),
    }
}

/// Whether `spec` is that of an authority with the common name `cn`.
pub open spec fn is_ca_spec(spec: CertSpec, cn: Seq<char>) -> bool {
    &&& spec.common_name@ == cn
    &&& spec.sans@.len() == 0
    &&& spec.is_ca && spec.key_cert_sign && spec.crl_sign && spec.digital_signature
    &&& !spec.client_auth && !spec.server_auth
}

/// Whether `spec` is that of a tenant.
pub open spec fn is_client_spec(spec: CertSpec, tenant: Seq<char>) -> bool {
    &&& spec.common_name@ == tenant
    &&& spec.sans@.len() == 0
    &&& !spec.is_ca && !spec.key_cert_sign && !spec.crl_sign && spec.digital_signature
    &&& spec.client_auth && !spec.server_auth
}

/// Whether `spec` is that of a gateway that is reached under `sans`.
pub open spec fn is_server_spec(spec: CertSpec, sans: Seq<Seq<char>>) -> bool {
    &&& spec.common_name@ == sans[0]
    &&& texts(spec.sans@) == sans
    &&& !spec.is_ca && !spec.key_cert_sign && !spec.crl_sign && spec.digital_signature
    &&& !spec.client_auth && spec.server_auth
}

/// Whether an authority can be used: its certificate can be read, and its subject written.
pub open spec fn ca_usable(ca_cert_pem: Seq<char>) -> bool {
    ca_readable(ca_cert_pem) && types_writable(subject_types(ca_cert_pem))
}

/// Whether an error is one of issuing a certificate. The key of the authority is read first;
/// a certificate of the authority that cannot be read or used is told apart.
pub open spec fn issue_error(e: CertError, ca_cert_pem: Seq<char>) -> bool {
    &&& !(e is NoSan)
    &&& e is CaCert ==> !ca_readable(ca_cert_pem)
    &&& e is CaSubject ==> ca_readable(ca_cert_pem) && !ca_usable(ca_cert_pem)
    &&& !ca_readable(ca_cert_pem) ==> e is CaKey || e is CaCert
    &&& ca_readable(ca_cert_pem) && !ca_usable(ca_cert_pem) ==> e is CaKey || e is CaSubject
}

// ── Issuing ──────────────────────────────────────────────────────────────────

/// Makes a new authority.
pub fn generate_ca(common_name: &str) -> (r: Result<Pem, CertError>)
    ensures
        r is Ok ==> exists|spec: CertSpec| #[trigger]
            issued(r->Ok_0, spec, None) && is_ca_spec(spec, common_name@),
        r is Err ==> r->Err_0 is Key || r->Err_0 is Sign,
{
    let (key, key_pem): (Key, String) = match new_key() {
        Ok(k) => k,
        Err(e) => {
            return Err(CertError::Key(e));
        },
    };
    let spec: CertSpec = ca_spec(common_name);
    let r: Result<Pem, CertError> = match sign_self(&spec, &key) {
        Ok(cert_pem) => Ok(Pem { cert_pem, key_pem }),
        Err(e) => Err(CertError::Sign(e)),
    };
    assert(r is Ok ==> issued(r->Ok_0, spec, None));
    r
}

fn load_ca(ca_cert_pem: &str, ca_key_pem: &str) -> (r: Result<(Authority, Key), CertError>)
    ensures
        match r {
            Ok((ca, key)) => ca_usable(ca_cert_pem@) && ca.text() == ca_cert_pem@ && key.text()
                == ca_key_pem@,
            Err(e) => issue_error(e, ca_cert_pem@) && (e is CaKey || e is CaCert || e is CaSubject
                || e is Ca),
        },
{
    let key: Key = match read_key(ca_key_pem) {
        Ok(k) => k,
        Err(e) => {
            return Err(CertError::CaKey(e));
        },
    };
    let params: CaParams = match read_ca(ca_cert_pem) {
        Ok(p) => p,
        Err(e) => {
            return Err(CertError::CaCert(e));
        },
    };
    if !params.is_writable() {
        return Err(CertError::CaSubject);
    }
    match rebuild_ca(params, &key) {
        Ok(ca) => Ok((ca, key)),
        Err(e) => Err(CertError::Ca(e)),
    }
}

/// Issues what `spec` says, signed by an authority.
pub fn issue(ca_cert_pem: &str, ca_key_pem: &str, spec: &CertSpec) -> (r: Result<Pem, CertError>)
    ensures
        match r {
            Ok(p) => ca_usable(ca_cert_pem@) && issued(
                p,
                *spec,
                Some((ca_cert_pem@, ca_key_pem@)),
            ),
            Err(e) => issue_error(e, ca_cert_pem@),
        },
{
    let (ca, ca_key): (Authority, Key) = match load_ca(ca_cert_pem, ca_key_pem) {
        Ok(x) => x,
        Err(e) => {
            return Err(e);
        },
    };
    let (key, key_pem): (Key, String) = match new_key() {
        Ok(k) => k,
        Err(e) => {
            return Err(CertError::Key(e));
        },
    };
    match sign_with(spec, &key, &ca, &ca_key) {
        Ok(cert_pem) => Ok(Pem { cert_pem, key_pem }),
        Err(e) => Err(CertError::Sign(e)),
    }
}

/// Issues the certificate of a tenant.
pub fn issue_client(ca_cert_pem: &str, ca_key_pem: &str, tenant: &str) -> (r: Result<
    Pem,
    CertError,
>)
    ensures
        match r {
            Ok(p) => ca_usable(ca_cert_pem@) && exists|spec: CertSpec| #[trigger]
                issued(p, spec, Some((ca_cert_pem@, ca_key_pem@))) && is_client_spec(
                    spec,
                    tenant@,
                ),
            Err(e) => issue_error(e, ca_cert_pem@),
        },
{
    issue(ca_cert_pem, ca_key_pem, &client_spec(tenant))
}

/// Issues the certificate of the gateway. `sans` are the host names and addresses under
/// which agents reach it.
pub fn issue_server(ca_cert_pem: &str, ca_key_pem: &str, sans: &[String]) -> (r: Result<
    Pem,
    CertError,
>)
    ensures
        r is Err && r->Err_0 is NoSan <==> sans@.len() == 0,
        match r {
            Ok(p) => ca_usable(ca_cert_pem@) && exists|spec: CertSpec| #[trigger]
                issued(p, spec, Some((ca_cert_pem@, ca_key_pem@))) && is_server_spec(
                    spec,
                    texts(sans@),
                ),
            Err(e) => e is NoSan || issue_error(e, ca_cert_pem@),
        },
{
    if sans.len() == 0 {
        return Err(CertError::NoSan);
    }
    assert(texts(sans@)[0] == sans@[0]@);
    issue(ca_cert_pem, ca_key_pem, &server_spec(sans))
}

/// The certificate of a tenant tells who the tenant is: whatever the tenant, the gateway reads
/// its common name back from the certificate in the text. Up to `MAX_PEM` characters the text
/// can be read for certain.
pub proof fn law_certificate_names_its_tenant(
    p: Pem,
    spec: CertSpec,
    ca: (Seq<char>, Seq<char>),
    tenant: Seq<char>,
)
    requires
        issued(p, spec, Some(ca)),
        is_client_spec(spec, tenant),
    ensures
        p.cert_pem@.len() <= MAX_PEM ==> pem_certs(p.cert_pem@) is Some,
        pem_certs(p.cert_pem@) is Some ==> {
            &&& pem_certs(p.cert_pem@)->0.len() == 1
            &&& common_name(pem_certs(p.cert_pem@)->0[0]) == Some(Some(tenant))
        },
{
}

} // verus!
