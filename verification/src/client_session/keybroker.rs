//! SNP hardware-evidence providers for the key-broker session.

use vstd::prelude::*;

use crate::client_session::ClientTee;
use crate::codec::{bytes_of, hex_encode, hex_of};

verus! {

/// Supported SNP hardware generations.
#[derive(Debug, Clone, Copy, PartialEq, Eq, Structural)]
pub enum SnpGeneration {
    Milan,
    Genoa,
}

impl SnpGeneration {
    /// Lowercase wire name of the generation.
    pub open spec fn spec_name(&self) -> Seq<u8> {
        match self {
            SnpGeneration::Milan => bytes_of("milan"@),
            SnpGeneration::Genoa => bytes_of("genoa"@),
        }
    }

    /// Lowercase wire name of the generation.
    pub fn name(&self) -> (r: String)
        ensures
            bytes_of(r@) == self.spec_name(),
    {
        match self {
            SnpGeneration::Milan => "milan".to_owned(),
            SnpGeneration::Genoa => "genoa".to_owned(),
        }
    }
}

/// The SNP evidence document: generation name and hex-encoded report.
pub open spec fn spec_evidence_doc(gen: Seq<u8>, report: Seq<u8>) -> Seq<u8> {
    bytes_of("{\"gen\":\""@) + gen + bytes_of("\",\"report\":\""@) + hex_of(report) + bytes_of(
        "\"}"@,
    )
}

/// An SNP evidence provider: holds the raw hardware report bytes and
/// serializes them for the attestation document.
pub struct KeybrokerClientSnp {
    gen: SnpGeneration,
    report: Vec<u8>,
}

impl KeybrokerClientSnp {
    /// The generation this provider reports.
    pub closed spec fn spec_gen(&self) -> SnpGeneration {
        self.gen
    }

    /// The raw report bytes stored so far; empty until `update_report`.
    pub closed spec fn spec_report(&self) -> Seq<u8> {
        self.report@
    }

    /// A provider with no report bytes yet: its evidence then carries an
    /// empty report field, which the broker, not this client, rejects.
    pub fn new(gen: SnpGeneration) -> (r: KeybrokerClientSnp)
        ensures
            r.spec_gen() == gen,
            r.spec_report() == Seq::<u8>::empty(),
    {
        let report: Vec<u8> = Vec::new();
        proof {
            assert(report@ =~= Seq::<u8>::empty());
        }
        KeybrokerClientSnp { gen, report }
    }

    /// Store raw hardware report bytes, overwriting any earlier ones.  The
    /// bytes are not validated here: appraising them is the broker's job.
    pub fn update_report(&mut self, report: &[u8])
        ensures
            final(self).spec_report() == report@,
            final(self).spec_gen() == old(self).spec_gen(),
    {
        self.report = vstd::slice::slice_to_vec(report);
    }
}

impl ClientTee for KeybrokerClientSnp {
    open spec fn spec_version(&self) -> Seq<u8> {
        bytes_of("0.1.0"@)
    }

    open spec fn spec_tee(&self) -> Seq<u8> {
        bytes_of("snp"@)
    }

    open spec fn spec_extra_params(&self) -> Seq<u8> {
        bytes_of("\"\""@)
    }

    open spec fn spec_evidence(&self) -> Seq<u8> {
        spec_evidence_doc(self.spec_gen().spec_name(), self.spec_report())
    }

    fn version(&self) -> (r: Vec<u8>) {
        let mut out: Vec<u8> = Vec::new();
        out.extend_from_slice("0.1.0".as_bytes());
        proof {
            assert(out@ =~= bytes_of("0.1.0"@));
        }
        out
    }

    fn tee(&self) -> (r: Vec<u8>) {
        let mut out: Vec<u8> = Vec::new();
        out.extend_from_slice("snp".as_bytes());
        proof {
            assert(out@ =~= bytes_of("snp"@));
        }
        out
    }

    fn extra_params(&self) -> (r: Vec<u8>) {
        let mut out: Vec<u8> = Vec::new();
        out.extend_from_slice("\"\"".as_bytes());
        proof {
            assert(out@ =~= bytes_of("\"\""@));
        }
        out
    }

    fn evidence(&self) -> (r: Vec<u8>) {
        let mut out: Vec<u8> = Vec::new();
        out.extend_from_slice("{\"gen\":\"".as_bytes());
        let name = self.gen.name();
        out.extend_from_slice(name.as_str().as_bytes());
        out.extend_from_slice("\",\"report\":\"".as_bytes());
        let hx = hex_encode(self.report.as_slice());
        out.extend_from_slice(hx.as_slice());
        out.extend_from_slice("\"}".as_bytes());
        proof {
            assert(out@ =~= spec_evidence_doc(self.spec_gen().spec_name(), self.spec_report()));
        }
        out
    }
}

} // verus!
