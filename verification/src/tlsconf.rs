//! How both sides talk TLS, as rustls is told.
//!
//! What rustls holds cannot be looked into, so what a configuration was made from is kept
//! beside it.
use crate::tlsauth::{anchors_in, bytes_of, Anchor, Identity, KeyKind};
use rustls::pki_types::{CertificateDer, PrivateKeyDer};
use std::sync::Arc;
use vstd::prelude::*;

verus! {

/// How a server talks TLS.
#[verifier::external_type_specification]
#[verifier::external_body]
pub struct ExServerConfig(rustls::ServerConfig);

/// How a client talks TLS.
#[verifier::external_type_specification]
#[verifier::external_body]
pub struct ExClientConfig(rustls::ClientConfig);

/// What a configuration is made from: the authorities that are trusted, the certificates that
/// are presented, and the key to the first of them.
pub struct Facts {
    pub trusts: Seq<Anchor>,
    pub chain: Seq<Seq<u8>>,
    pub key: (KeyKind, Seq<u8>),
}

pub open spec fn facts_of(id: Identity) -> Facts {
    Facts {
        trusts: anchors_in(id.store),
        chain: bytes_of(id.certs@),
        key: (id.key.kind, id.key.der@),
    }
}

/// How a server talks TLS. A client has to present a certificate that one of the authorities
/// signed.
pub struct ServerTls {
    config: Arc<rustls::ServerConfig>,
    facts: Ghost<Facts>,
}

impl ServerTls {
    /// What the configuration was made from.
    pub closed spec fn facts(self) -> Facts {
        self.facts@
    }

    pub closed spec fn held(self) -> Arc<rustls::ServerConfig> {
        self.config
    }

    /// The configuration, for rustls.
    pub fn into_config(self) -> (r: Arc<rustls::ServerConfig>)
        ensures
            r == self.held(),
    {
        self.config
    }
}

/// How a client talks TLS. A server has to present a certificate that one of the authorities
/// signed.
pub struct ClientTls {
    config: Arc<rustls::ClientConfig>,
    facts: Ghost<Facts>,
}

impl ClientTls {
    /// What the configuration was made from.
    pub closed spec fn facts(self) -> Facts {
        self.facts@
    }

    pub closed spec fn held(self) -> Arc<rustls::ClientConfig> {
        self.config
    }

    /// The configuration, for rustls.
    pub fn into_config(self) -> (r: Arc<rustls::ClientConfig>)
        ensures
            r == self.held(),
    {
        self.config
    }
}

/// Why rustls does not make a configuration for a server.
pub enum ServerFault {
    /// There is no authority that a client could be signed by.
    NoAuthority,
    /// The certificate or the key of the server cannot be used.
    Certificate(rustls::Error),
}

/// `rustls::ServerConfig` with a `WebPkiClientVerifier`: every client has to present a
/// certificate that one of the authorities signed. Without an authority there is no such
/// verifier. Whether the certificate and the key are taken depends also on the
/// cryptography that the process has installed; that is not stated.
#[verifier::external_body]
pub(crate) fn build_server(id: Identity) -> (r: Result<ServerTls, ServerFault>)
    ensures
        r is Err && r->Err_0 is NoAuthority <==> anchors_in(id.store).len() == 0,
        r is Ok ==> r->Ok_0.facts() == facts_of(id),
{
    let facts = Ghost(facts_of(id));
    let verifier = rustls::server::WebPkiClientVerifier::builder(Arc::new(id.store)).build();
    let verifier = verifier.map_err(|_| ServerFault::NoAuthority)?;
    let chain = id.certs.into_iter().map(CertificateDer::from).collect();
    let key = match id.key.kind {
        KeyKind::Pkcs1 => PrivateKeyDer::Pkcs1(id.key.der.into()),
        KeyKind::Sec1 => PrivateKeyDer::Sec1(id.key.der.into()),
        KeyKind::Pkcs8 => PrivateKeyDer::Pkcs8(id.key.der.into()),
    };
    let builder = rustls::ServerConfig::builder().with_client_cert_verifier(verifier);
    let config = builder.with_single_cert(chain, key).map_err(ServerFault::Certificate)?;
    Ok(ServerTls { config: Arc::new(config), facts })
}

/// `rustls::ClientConfig` that trusts the authorities of the store and presents a
/// certificate. Whether the certificate and the key are taken depends also on the
/// cryptography that the process has installed; that is not stated.
#[verifier::external_body]
pub(crate) fn build_client(id: Identity) -> (r: Result<ClientTls, rustls::Error>)
    ensures
        r is Ok ==> r->Ok_0.facts() == facts_of(id),
{
    let facts = Ghost(facts_of(id));
    let chain = id.certs.into_iter().map(CertificateDer::from).collect();
    let key = match id.key.kind {
        KeyKind::Pkcs1 => PrivateKeyDer::Pkcs1(id.key.der.into()),
        KeyKind::Sec1 => PrivateKeyDer::Sec1(id.key.der.into()),
        KeyKind::Pkcs8 => PrivateKeyDer::Pkcs8(id.key.der.into()),
    };
    let builder = rustls::ClientConfig::builder().with_root_certificates(id.store);
    let config = builder.with_client_auth_cert(chain, key)?;
    Ok(ClientTls { config: Arc::new(config), facts })
}

} // verus!
