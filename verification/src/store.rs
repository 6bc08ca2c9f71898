//! Durable storage of the highest observed certificates.
//!
//! The interface is implemented outside the library by a file-backed
//! store; the certificate bytes written and read are the canonical
//! encodings of the wire module.

use vstd::prelude::*;

use crate::wire::QuorumCert;
use crate::wire::TimeoutCert;

verus! {

/// Loads and best-effort saves of the highest quorum and timeout
/// certificates.
pub trait QcTcStore {
    fn load_high_qc(&self) -> Option<QuorumCert>;

    fn save_high_qc(&mut self, qc: &QuorumCert);

    fn load_high_tc(&self) -> Option<TimeoutCert>;

    fn save_high_tc(&mut self, tc: &TimeoutCert);
}

} // verus!
