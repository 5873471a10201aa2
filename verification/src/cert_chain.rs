//! The certificate chain that a client trusts, read from PEM text.

use vstd::prelude::*;

verus! {

/// Why no certificate chain could be taken from PEM text.
#[derive(Debug, Clone, Copy, PartialEq, Eq, Structural)]
pub enum CertChainError {
    /// A PEM section could not be read.
    Parse,
    /// The text holds no certificate.
    NoCertificates,
}

/// The DER bytes of the certificates in PEM text, in order, as `rustls_pemfile::certs`
/// reads them; `None` where it reports an error.
pub uninterp spec fn spec_pem_certs(pem: Seq<u8>) -> Option<Seq<Seq<u8>>>;

/// Calls `rustls_pemfile::certs` on `pem` and collects what it yields. Trusted: the
/// result is the crate's reading of these bytes alone (named `spec_pem_certs`); the
/// crate skips PEM sections that are not certificates and stops at the first error.
#[verifier::external_body]
fn pem_certs(pem: &[u8]) -> (res: Option<Vec<Vec<u8>>>)
    ensures
        match spec_pem_certs(pem@) {
            None => res is None,
            Some(cs) => res matches Some(v) && v@.map_values(|c: Vec<u8>| c@) == cs,
        },
{
    let mut reader: &[u8] = pem;
    rustls_pemfile::certs(&mut reader).map(|r| r.map(|c| c.as_ref().to_vec())).collect::<
        Result<Vec<Vec<u8>>, _>,
    >().ok()
}

/// What [`cert_chain_from_pem`] gives for PEM text whose reading is `certs`.
pub open spec fn spec_cert_chain(certs: Option<Seq<Seq<u8>>>) -> Result<Seq<Seq<u8>>, CertChainError> {
    match certs {
        None => Err(CertChainError::Parse),
        Some(cs) => if cs.len() == 0 {
            Err(CertChainError::NoCertificates)
        } else {
            Ok(cs)
        },
    }
}

/// The chain taken from what the PEM reader returned: an error where it could not
/// read the text, and where the text holds no certificate; otherwise every
/// certificate, in order.
pub fn check_cert_chain(certs: Option<Vec<Vec<u8>>>) -> (res: Result<Vec<Vec<u8>>, CertChainError>)
    ensures
        match certs {
            None => res == Err::<Vec<Vec<u8>>, CertChainError>(CertChainError::Parse),
            Some(v) => if v@.len() == 0 {
                res == Err::<Vec<Vec<u8>>, CertChainError>(CertChainError::NoCertificates)
            } else {
                res matches Ok(w) && w@ == v@
            },
        },
{
    match certs {
        None => Err(CertChainError::Parse),
        Some(chain) => {
            if chain.len() == 0 {
                Err(CertChainError::NoCertificates)
            } else {
                Ok(chain)
            }
        },
    }
}

/// The certificates in PEM text, in order: an error where the text cannot be read,
/// and where it holds no certificate.
pub fn cert_chain_from_pem(pem: &[u8]) -> (res: Result<Vec<Vec<u8>>, CertChainError>)
    ensures
        match res {
            Ok(v) => spec_cert_chain(spec_pem_certs(pem@)) == Ok::<Seq<Seq<u8>>, CertChainError>(
                v@.map_values(|c: Vec<u8>| c@),
            ),
            Err(e) => spec_cert_chain(spec_pem_certs(pem@)) == Err::<Seq<Seq<u8>>, CertChainError>(e),
        },
{
    check_cert_chain(pem_certs(pem))
}

} // verus!
