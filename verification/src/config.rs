//! Plain configuration data for server pseudo-nodes. Loading the material is
//! the embedding's concern; the types only carry it.

use vstd::prelude::*;

verus! {

/// An opaque certificate in PEM form.
#[derive(Clone, Debug)]
pub struct Certificate {
    pub pem: Vec<u8>,
}

impl Default for Certificate {
    fn default() -> (r: Self)
        ensures
            r.pem@ == Seq::<u8>::empty(),
    {
        let r = Certificate { pem: Vec::new() };
        proof {
            assert(r.pem@ =~= Seq::<u8>::empty());
        }
        r
    }
}

/// TLS identity material for server pseudo-nodes.
#[derive(Clone, Debug)]
pub struct TlsConfig {
    pub certificate: Vec<u8>,
    pub private_key: Vec<u8>,
}

impl Default for TlsConfig {
    fn default() -> (r: Self)
        ensures
            r.certificate@ == Seq::<u8>::empty(),
            r.private_key@ == Seq::<u8>::empty(),
    {
        let r = TlsConfig { certificate: Vec::new(), private_key: Vec::new() };
        proof {
            assert(r.certificate@ =~= Seq::<u8>::empty());
            assert(r.private_key@ =~= Seq::<u8>::empty());
        }
        r
    }
}

/// Configuration options related to HTTP pseudo-nodes.
#[derive(Clone, Debug)]
pub struct HttpConfiguration {
    /// TLS identity to use for all HTTP server nodes.
    pub tls_config: TlsConfig,
    /// Root TLS certificate to use for all HTTP client nodes.
    pub http_client_root_tls_certificate: Option<Certificate>,
}

impl Default for HttpConfiguration {
    fn default() -> (r: Self)
        ensures
            r.http_client_root_tls_certificate is None,
    {
        HttpConfiguration {
            tls_config: TlsConfig { certificate: Vec::new(), private_key: Vec::new() },
            http_client_root_tls_certificate: None,
        }
    }
}

} // verus!
