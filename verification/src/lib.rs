//! An authorization-gated issuance registry.
//!
//! A small set of issuers, managed by a single admin, may mint immutable
//! certificate records attributed to a subject; anyone may retrieve or verify
//! those records.  The registry is an explicit value owned by the caller: the
//! host that persists it, proves who a caller is, and serializes operations is
//! an external collaborator, and hands each operation the authenticated
//! caller identity as a plain value.

pub mod laws;
pub mod registry;
pub mod types;

pub use registry::CertificateContract;
pub use registry::SubjectEntry;
pub use types::Certificate;
pub use types::CertificateView;
pub use types::Identity;
pub use types::RegistryError;
