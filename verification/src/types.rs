use vstd::prelude::*;

verus! {

/// An opaque principal: a subject, an issuer, or the admin.  The host's
/// authentication layer proves that a caller controls an identity before an
/// operation runs; this library only compares the identities it is handed.
#[derive(Clone, Copy, PartialEq, Eq, Structural, Debug, Hash)]
pub struct Identity {
    pub id: u64,
}

/// Why an operation was refused.  Every refused operation leaves the
/// registry unchanged.
#[derive(Clone, Copy, PartialEq, Eq, Structural, Debug)]
pub enum RegistryError {
    /// An admin-gated operation ran before `initialize`.
    NotInitialized,
    /// `initialize` ran a second time.
    AlreadyInitialized,
    /// The caller is not the identity the operation requires.
    Authentication,
    /// `mint_certificate` was called for an issuer outside the authorized set.
    UnauthorizedIssuer,
}

/// An immutable attestation that `issuer` recognized a subject for the event
/// named `event_id` (displayed as `event_name`) on `date_issued`.
#[derive(Debug)]
pub struct Certificate {
    pub issuer: Identity,
    pub event_id: String,
    pub event_name: String,
    pub date_issued: u64,
}

/// The mathematical value of a `Certificate`: its strings as character
/// sequences.
pub struct CertificateView {
    pub issuer: Identity,
    pub event_id: Seq<char>,
    pub event_name: Seq<char>,
    pub date_issued: u64,
}

impl View for Certificate {
    type V = CertificateView;

    open spec fn view(&self) -> CertificateView {
        CertificateView {
            issuer: self.issuer,
            event_id: self.event_id@,
            event_name: self.event_name@,
            date_issued: self.date_issued,
        }
    }
}

impl Clone for Certificate {
    fn clone(&self) -> (r: Self)
        ensures
            r@ == self@,
    {
        Certificate {
            issuer: self.issuer,
            event_id: self.event_id.clone(),
            event_name: self.event_name.clone(),
            date_issued: self.date_issued,
        }
    }
}

} // verus!
