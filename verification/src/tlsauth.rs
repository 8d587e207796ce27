//! The certificates of the agent and the gateway, and what TLS makes of them.
//!
//! Both sides prove who they are. The gateway takes only clients whose certificate was
//! signed by its own authority, and knows them by the common name in it.
use crate::tlsconf::{build_client, build_server, ClientTls, Facts, ServerFault, ServerTls};
use crate::x509::{common_name, read_common_name};
use vstd::prelude::*;

verus! {

// ── What other crates are trusted with ───────────────────────────────────────

/// An error of the standard library's readers.
#[verifier::external_type_specification]
#[verifier::external_body]
pub struct ExIoError(std::io::Error);

/// An error of rustls.
#[verifier::external_type_specification]
#[verifier::external_body]
pub struct ExTlsError(rustls::Error);

/// A set of trusted authorities.
#[verifier::external_type_specification]
#[verifier::external_body]
pub struct ExRootCertStore(rustls::RootCertStore);

/// The certificates that `rustls_pemfile::certs` finds in a text, in their order, or none
/// where the text is broken.
pub uninterp spec fn pem_certs(pem: Seq<char>) -> Option<Seq<Seq<u8>>>;

/// The bytes of several certificates.
pub open spec fn bytes_of(v: Seq<Vec<u8>>) -> Seq<Seq<u8>> {
    v.map_values(|d: Vec<u8>| d@)
}

/// `rustls_pemfile::certs` finds the certificates in a text, in their order, and stops at
/// the first section that is broken. What it finds depends on the text alone.
#[verifier::external_body]
fn certs_in_pem(pem: &str) -> (r: Result<Vec<Vec<u8>>, std::io::Error>)
    ensures
        match pem_certs(pem@) {
            Some(ders) => r is Ok && bytes_of(r->Ok_0@) == ders,
            None => r is Err,
        },
{
    rustls_pemfile::certs(&mut pem.as_bytes()).map(|c| c.map(|d| d.to_vec())).collect()
}

/// In which form a private key is stored.
#[derive(Clone, Copy, PartialEq, Eq, Debug, Structural)]
pub enum KeyKind {
    Pkcs1,
    Sec1,
    Pkcs8,
}

/// A private key.
pub struct KeyDer {
    pub kind: KeyKind,
    pub der: Vec<u8>,
}

/// The first private key that `rustls_pemfile::private_key` finds in a text, if it finds
/// one, or nothing where the text is broken.
pub uninterp spec fn pem_key(pem: Seq<char>) -> Option<Option<(KeyKind, Seq<u8>)>>;

/// `rustls_pemfile::private_key` finds the first private key in a text. What it finds
/// depends on the text alone.
#[verifier::external_body]
fn key_in_pem(pem: &str) -> (r: Result<Option<KeyDer>, std::io::Error>)
    ensures
        match pem_key(pem@) {
            Some(Some((kind, der))) => r is Ok && r->Ok_0 is Some && ({
                let key = r->Ok_0->0;
                key.kind == kind && key.der@ == der
            }),
            Some(None) => r is Ok && r->Ok_0 is None,
            None => r is Err,
        },
{
    let key = rustls_pemfile::private_key(&mut pem.as_bytes())?;
    Ok(key.map(|k| KeyDer {
        kind: match &k {
            rustls::pki_types::PrivateKeyDer::Pkcs1(_) => KeyKind::Pkcs1,
            rustls::pki_types::PrivateKeyDer::Sec1(_) => KeyKind::Sec1,
            _ => KeyKind::Pkcs8,
        },
        der: k.secret_der().to_vec(),
    }))
}

/// What an authority is trusted by: its subject, its public key, and the names that it is
/// confined to.
pub type Anchor = (Seq<u8>, Seq<u8>, Option<Seq<u8>>);

/// What rustls takes from the certificate of an authority, if it can read it.
pub uninterp spec fn anchor_of(der: Seq<u8>) -> Option<(Seq<u8>, Seq<u8>, Option<Seq<u8>>)>;

/// The authorities that a store holds, in the order in which they were added.
pub uninterp spec fn anchors_in(store: rustls::RootCertStore) -> Seq<
    (Seq<u8>, Seq<u8>, Option<Seq<u8>>),
>;

/// `rustls::RootCertStore::empty` holds no authority.
#[verifier::external_body]
fn empty_store() -> (r: rustls::RootCertStore)
    ensures
        anchors_in(r).len() == 0,
{
    rustls::RootCertStore::empty()
}

/// `rustls::RootCertStore::add` puts an authority behind those that the store holds, and
/// leaves the store alone where it cannot read the certificate.
#[verifier::external_body]
fn add_root(store: &mut rustls::RootCertStore, der: Vec<u8>) -> (r: Result<(), rustls::Error>)
    ensures
        match anchor_of(der@) {
            Some(a) => r is Ok && anchors_in(*final(store)) == anchors_in(*old(store)).push(a),
            None => r is Err && anchors_in(*final(store)) == anchors_in(*old(store)),
        },
{
    store.add(rustls::pki_types::CertificateDer::from(der))
}

/// `rustls::crypto::ring::default_provider` becomes the cryptography of the process, unless
/// one was installed before. Called once at the start, before a configuration is made.
#[verifier::external_body]
pub fn install_crypto_provider() {
    let _ = rustls::crypto::ring::default_provider().install_default();
}

// ── Reading certificates and keys ────────────────────────────────────────────

/// Why certificates or keys cannot be used.
pub enum TlsError {
    /// A text with certificates is broken.
    CertificatePem(std::io::Error),
    /// A text holds no certificate.
    NoCertificate,
    /// A text with a key is broken.
    KeyPem(std::io::Error),
    /// A text holds no key.
    NoKey,
    /// The certificate of an authority cannot be read.
    Authority(rustls::Error),
    /// Clients cannot be verified.
    Verifier,
    /// The certificate or the key cannot be used.
    Config(rustls::Error),
    /// The certificate of a peer cannot be read.
    PeerCertificate(String),
    /// The certificate of a peer has no common name.
    NoCommonName,
}

/// Reads the certificates in a text. There has to be at least one.
pub fn load_certs(pem: &str) -> (r: Result<Vec<Vec<u8>>, TlsError>)
    ensures
        match pem_certs(pem@) {
            None => r is Err && r->Err_0 is CertificatePem,
            Some(ders) => if ders.len() == 0 {
                r is Err && r->Err_0 is NoCertificate
            } else {
                r is Ok && bytes_of(r->Ok_0@) == ders
            },
        },
{
    match certs_in_pem(pem) {
        Err(e) => Err(TlsError::CertificatePem(e)),
        Ok(certs) => {
            assert(bytes_of(certs@).len() == certs@.len());
            if certs.len() == 0 {
                Err(TlsError::NoCertificate)
            } else {
                Ok(certs)
            }
        },
    }
}

/// Reads the first private key in a text. There has to be one.
pub fn load_key(pem: &str) -> (r: Result<KeyDer, TlsError>)
    ensures
        match pem_key(pem@) {
            None => r is Err && r->Err_0 is KeyPem,
            Some(None) => r is Err && r->Err_0 is NoKey,
            Some(Some((kind, der))) => r is Ok && r->Ok_0.kind == kind && r->Ok_0.der@ == der,
        },
{
    match key_in_pem(pem) {
        Err(e) => Err(TlsError::KeyPem(e)),
        Ok(None) => Err(TlsError::NoKey),
        Ok(Some(k)) => Ok(k),
    }
}

/// What rustls takes from the certificates of several authorities.
pub open spec fn anchors_of(ders: Seq<Seq<u8>>) -> Option<Seq<Anchor>>
    decreases ders.len(),
{
    if ders.len() == 0 {
        Some(Seq::empty())
    } else {
        match (anchors_of(ders.drop_last()), anchor_of(ders.last())) {
            (Some(s), Some(a)) => Some(s.push(a)),
            _ => None,
        }
    }
}

/// The authorities in a text, if all of them can be read.
pub open spec fn authorities(ca_pem: Seq<char>) -> Option<Seq<Anchor>> {
    match pem_certs(ca_pem) {
        Some(ders) => if ders.len() == 0 {
            None
        } else {
            anchors_of(ders)
        },
        None => None,
    }
}

/// One authority that cannot be read spoils all of them.
proof fn lemma_anchors_prefix(ders: Seq<Seq<u8>>, n: int)
    requires
        0 <= n <= ders.len(),
        anchors_of(ders.take(n)) is None,
    ensures
        anchors_of(ders) is None,
    decreases ders.len() - n,
{
    if n < ders.len() {
        assert(ders.take(n + 1).drop_last() =~= ders.take(n));
        lemma_anchors_prefix(ders, n + 1);
    } else {
        assert(ders.take(n) =~= ders);
    }
}

/// Trusts the authorities in a text.
pub fn root_store(ca_pem: &str) -> (r: Result<rustls::RootCertStore, TlsError>)
    ensures
        match r {
            Ok(store) => authorities(ca_pem@) == Some(anchors_in(store)) && anchors_in(store).len()
                > 0,
            Err(e) => {
                &&& authorities(ca_pem@) is None
                &&& (e is CertificatePem <==> pem_certs(ca_pem@) is None)
                &&& (e is NoCertificate <==> pem_certs(ca_pem@) is Some && pem_certs(
                    ca_pem@,
                )->0.len() == 0)
                &&& (e is CertificatePem || e is NoCertificate || e is Authority)
            },
        },
{
    let certs: Vec<Vec<u8>> = match load_certs(ca_pem) {
        Ok(c) => c,
        Err(e) => {
            return Err(e);
        },
    };
    let ghost ders = bytes_of(certs@);
    let mut store: rustls::RootCertStore = empty_store();
    assert(ders.take(0) =~= Seq::empty());
    assert(anchors_in(store) =~= Seq::empty());
    let mut i: usize = 0;
    while i < certs.len()
        invariant
            i <= certs@.len(),
            ders == bytes_of(certs@),
            pem_certs(ca_pem@) == Some(ders),
            ders.len() > 0,
            anchors_of(ders.take(i as int)) == Some(anchors_in(store)),
            anchors_in(store).len() == i,
        decreases certs@.len() - i,
    {
        let ghost now = ders.take(i + 1);
        assert(now.drop_last() =~= ders.take(i as int));
        let der: Vec<u8> = certs[i].clone();
        assert(der@ =~= certs@[i as int]@);
        assert(now.last() == der@);
        match add_root(&mut store, der) {
            Ok(_) => {},
            Err(e) => {
                proof {
                    lemma_anchors_prefix(ders, i + 1);
                }
                return Err(TlsError::Authority(e));
            },
        }
        i = i + 1;
    }
    assert(ders.take(i as int) =~= ders);
    Ok(store)
}

// ── Configurations ───────────────────────────────────────────────────────────

/// Whom one side of a connection trusts, and what it presents itself.
pub struct Identity {
    pub store: rustls::RootCertStore,
    pub certs: Vec<Vec<u8>>,
    pub key: KeyDer,
}

/// Whether an error is that of reading the authorities, the certificates and the key, in
/// this order.
pub open spec fn identity_error(
    e: TlsError,
    ca_pem: Seq<char>,
    cert_pem: Seq<char>,
    key_pem: Seq<char>,
) -> bool {
    if pem_certs(ca_pem) is None {
        e is CertificatePem
    } else if pem_certs(ca_pem)->0.len() == 0 {
        e is NoCertificate
    } else if authorities(ca_pem) is None {
        e is Authority
    } else if pem_certs(cert_pem) is None {
        e is CertificatePem
    } else if pem_certs(cert_pem)->0.len() == 0 {
        e is NoCertificate
    } else if pem_key(key_pem) is None {
        e is KeyPem
    } else {
        e is NoKey && pem_key(key_pem)->0 is None
    }
}

/// Whether `id` is what the texts hold.
pub open spec fn identity_shows(
    id: Identity,
    ca_pem: Seq<char>,
    cert_pem: Seq<char>,
    key_pem: Seq<char>,
) -> bool {
    &&& authorities(ca_pem) == Some(anchors_in(id.store))
    &&& anchors_in(id.store).len() > 0
    &&& pem_certs(cert_pem) == Some(bytes_of(id.certs@))
    &&& id.certs@.len() > 0
    &&& pem_key(key_pem) == Some(Some((id.key.kind, id.key.der@)))
}

/// Reads the authorities in `ca_pem`, and the certificates and the key of one side.
pub fn load_identity(ca_pem: &str, cert_pem: &str, key_pem: &str) -> (r: Result<
    Identity,
    TlsError,
>)
    ensures
        match r {
            Ok(id) => identity_shows(id, ca_pem@, cert_pem@, key_pem@),
            Err(e) => identity_error(e, ca_pem@, cert_pem@, key_pem@),
        },
{
    let store: rustls::RootCertStore = match root_store(ca_pem) {
        Ok(s) => s,
        Err(e) => {
            return Err(e);
        },
    };
    let certs: Vec<Vec<u8>> = match load_certs(cert_pem) {
        Ok(c) => c,
        Err(e) => {
            return Err(e);
        },
    };
    assert(bytes_of(certs@).len() == certs@.len());
    match load_key(key_pem) {
        Ok(key) => Ok(Identity { store, certs, key }),
        Err(e) => Err(e),
    }
}

/// Whether `f` is what the texts hold: the authorities in `ca_pem` are trusted, and the
/// certificates and the key of the side are presented.
pub open spec fn facts_show(
    f: Facts,
    ca_pem: Seq<char>,
    cert_pem: Seq<char>,
    key_pem: Seq<char>,
) -> bool {
    &&& authorities(ca_pem) == Some(f.trusts)
    &&& f.trusts.len() > 0
    &&& pem_certs(cert_pem) == Some(f.chain)
    &&& f.chain.len() > 0
    &&& pem_key(key_pem) == Some(Some(f.key))
}

/// Whether all that one side needs can be read.
pub open spec fn identity_readable(
    ca_pem: Seq<char>,
    cert_pem: Seq<char>,
    key_pem: Seq<char>,
) -> bool {
    &&& authorities(ca_pem) is Some
    &&& pem_certs(cert_pem) is Some
    &&& pem_certs(cert_pem)->0.len() > 0
    &&& pem_key(key_pem) is Some
    &&& pem_key(key_pem)->0 is Some
}

/// How the gateway talks TLS: it takes only clients that an authority of `ca_pem` signed.
pub fn server_config(ca_pem: &str, server_cert_pem: &str, server_key_pem: &str) -> (r: Result<
    ServerTls,
    TlsError,
>)
    ensures
        r is Ok ==> facts_show(r->Ok_0.facts(), ca_pem@, server_cert_pem@, server_key_pem@),
        r is Err ==> if identity_readable(ca_pem@, server_cert_pem@, server_key_pem@) {
            r->Err_0 is Config
        } else {
            identity_error(r->Err_0, ca_pem@, server_cert_pem@, server_key_pem@)
        },
{
    match load_identity(ca_pem, server_cert_pem, server_key_pem) {
        Err(e) => Err(e),
        Ok(id) => match build_server(id) {
            Ok(c) => Ok(c),
            Err(ServerFault::NoAuthority) => Err(TlsError::Verifier),
            Err(ServerFault::Certificate(e)) => Err(TlsError::Config(e)),
        },
    }
}

/// How the agent talks TLS: it takes only servers that an authority of `ca_pem` signed.
pub fn client_config(ca_pem: &str, client_cert_pem: &str, client_key_pem: &str) -> (r: Result<
    ClientTls,
    TlsError,
>)
    ensures
        r is Ok ==> facts_show(r->Ok_0.facts(), ca_pem@, client_cert_pem@, client_key_pem@),
        r is Err ==> if identity_readable(ca_pem@, client_cert_pem@, client_key_pem@) {
            r->Err_0 is Config
        } else {
            identity_error(r->Err_0, ca_pem@, client_cert_pem@, client_key_pem@)
        },
{
    match load_identity(ca_pem, client_cert_pem, client_key_pem) {
        Err(e) => Err(e),
        Ok(id) => match build_client(id) {
            Ok(c) => Ok(c),
            Err(e) => Err(TlsError::Config(e)),
        },
    }
}

// ── Who a client is ──────────────────────────────────────────────────────────

/// The tenant that a certificate belongs to: the common name of its subject.
pub fn tenant_from_cert(cert: &[u8]) -> (r: Result<String, TlsError>)
    ensures
        match common_name(cert@) {
            None => r is Err && r->Err_0 is PeerCertificate,
            Some(None) => r is Err && r->Err_0 is NoCommonName,
            Some(Some(cn)) => r is Ok && r->Ok_0@ == cn,
        },
{
    match read_common_name(cert) {
        Err(e) => Err(TlsError::PeerCertificate(e)),
        Ok(None) => Err(TlsError::NoCommonName),
        Ok(Some(cn)) => Ok(cn),
    }
}

} // verus!
