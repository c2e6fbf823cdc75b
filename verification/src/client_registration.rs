//! Pre-attestation workload registration.
//!
//! The registration payload carries an appraisal policy, its queries, the
//! shared resources, and a `reference` field.  The reference is a string
//! that itself contains a serialized JSON document wrapping the expected
//! measurement as lowercase hex — the double encoding is part of the wire
//! contract.

use vstd::prelude::*;

use crate::codec::{bytes_of, escape_json, hex_encode, hex_of, json_escaped, utf8_to_string};
use vstd::utf8::valid_utf8;

verus! {

/// Errors of the registration subsystem.
#[derive(Debug, Clone, Copy, PartialEq, Eq, Structural)]
pub enum CRError {
    /// A value could not be serialized for the wire.
    Encoding,
}

/// The reference document: the measurement as lowercase hex, wrapped in
/// its own little JSON document.
pub open spec fn spec_reference(measurement: Seq<u8>) -> Seq<u8> {
    bytes_of("{\"measurement\":\""@) + hex_of(measurement) + bytes_of("\"}"@)
}

/// One quoted, escaped string of a JSON string array.
pub open spec fn spec_quoted(q: Seq<u8>) -> Seq<u8> {
    bytes_of("\""@) + json_escaped(q) + bytes_of("\""@)
}

/// The members of a JSON string array, one quoted escaped string after
/// another, commas in between.
pub open spec fn spec_string_list(qs: Seq<Seq<u8>>) -> Seq<u8>
    decreases qs.len(),
{
    if qs.len() == 0 {
        Seq::empty()
    } else if qs.len() == 1 {
        spec_quoted(qs[0])
    } else {
        spec_quoted(qs[0]) + bytes_of(","@) + spec_string_list(qs.skip(1))
    }
}

/// Appending one more string to the array appends a comma (unless the
/// array was empty) and the quoted escaped string.
proof fn lemma_string_list_push(qs: Seq<Seq<u8>>, x: Seq<u8>)
    ensures
        qs.len() == 0 ==> spec_string_list(qs.push(x)) == spec_quoted(x),
        qs.len() > 0 ==> spec_string_list(qs.push(x)) == spec_string_list(qs) + bytes_of(","@)
            + spec_quoted(x),
    decreases qs.len(),
{
    if qs.len() == 0 {
        assert(qs.push(x)[0] == x);
        assert(qs.push(x).len() == 1);
    } else {
        assert(qs.push(x)[0] == qs[0]);
        assert(qs.push(x).skip(1) =~= qs.skip(1).push(x));
        lemma_string_list_push(qs.skip(1), x);
        if qs.len() == 1 {
            assert(spec_string_list(qs.push(x)) =~= spec_string_list(qs) + bytes_of(","@)
                + spec_quoted(x));
        } else {
            assert(spec_string_list(qs.push(x)) =~= spec_string_list(qs) + bytes_of(","@)
                + spec_quoted(x));
        }
    }
}

/// The full registration document.
pub open spec fn spec_registration_doc(
    policy: Seq<u8>,
    queries: Seq<Seq<u8>>,
    reference: Seq<u8>,
    resources: Seq<u8>,
) -> Seq<u8> {
    bytes_of("{\"policy\":\""@) + json_escaped(policy) + bytes_of("\",\"queries\":["@)
        + spec_string_list(queries) + bytes_of("],\"reference\":\""@) + json_escaped(reference)
        + bytes_of("\",\"resources\":\""@) + json_escaped(resources) + bytes_of("\"}"@)
}

/// Builder of the policy-based registration payload.  The reference
/// document is kept as bytes until it is embedded.
pub struct ClientRegistration {
    policy: String,
    queries: Vec<String>,
    reference: Vec<u8>,
    resources: String,
}

impl ClientRegistration {
    /// Policy text, as bytes.
    pub closed spec fn spec_policy(&self) -> Seq<u8> {
        bytes_of(self.policy@)
    }

    /// Query strings, as bytes.
    pub closed spec fn spec_queries(&self) -> Seq<Seq<u8>> {
        self.queries@.map_values(|q: String| bytes_of(q@))
    }

    /// The reference document stored by the last `register` call; empty
    /// before the first call.
    pub closed spec fn spec_reference_field(&self) -> Seq<u8> {
        self.reference@
    }

    /// Resources text, as bytes.
    pub closed spec fn spec_resources(&self) -> Seq<u8> {
        bytes_of(self.resources@)
    }

    /// A builder with an empty reference field.
    pub fn new(policy: String, queries: Vec<String>, resources: String) -> (r: ClientRegistration)
        ensures
            r.spec_policy() == bytes_of(policy@),
            r.spec_queries() == queries@.map_values(|q: String| bytes_of(q@)),
            r.spec_reference_field() == Seq::<u8>::empty(),
            r.spec_resources() == bytes_of(resources@),
    {
        let reference: Vec<u8> = Vec::new();
        proof {
            assert(reference@ =~= Seq::<u8>::empty());
        }
        ClientRegistration { policy, queries, reference, resources }
    }

    /// Fill the reference field from the expected measurement and emit the
    /// registration document.  Deterministic in the measurement: calling
    /// it again with the same bytes stores and returns the same values.
    pub fn register(&mut self, measurement: &[u8]) -> (r: Result<String, CRError>)
        ensures
            final(self).spec_reference_field() == spec_reference(measurement@),
            final(self).spec_policy() == old(self).spec_policy(),
            final(self).spec_queries() == old(self).spec_queries(),
            final(self).spec_resources() == old(self).spec_resources(),
            match r {
                Ok(doc) => bytes_of(doc@) == spec_registration_doc(
                    old(self).spec_policy(),
                    old(self).spec_queries(),
                    spec_reference(measurement@),
                    old(self).spec_resources(),
                ),
                Err(e) => e == CRError::Encoding && !valid_utf8(
                    spec_registration_doc(
                        old(self).spec_policy(),
                        old(self).spec_queries(),
                        spec_reference(measurement@),
                        old(self).spec_resources(),
                    ),
                ),
            },
    {
        let mut refdoc: Vec<u8> = Vec::new();
        refdoc.extend_from_slice("{\"measurement\":\"".as_bytes());
        let hx = hex_encode(measurement);
        refdoc.extend_from_slice(hx.as_slice());
        refdoc.extend_from_slice("\"}".as_bytes());
        proof {
            assert(refdoc@ =~= spec_reference(measurement@));
        }
        self.reference = refdoc;

        let mut doc: Vec<u8> = Vec::new();
        doc.extend_from_slice("{\"policy\":\"".as_bytes());
        let ep = escape_json(self.policy.as_str().as_bytes());
        doc.extend_from_slice(ep.as_slice());
        doc.extend_from_slice("\",\"queries\":[".as_bytes());
        let ghost sself = *self;
        let ghost qv = self.spec_queries();
        let mut i: usize = 0;
        let ghost doc0 = doc@;
        proof {
            assert(qv.take(0) =~= Seq::<Seq<u8>>::empty());
            assert(doc@ =~= doc0 + spec_string_list(qv.take(0)));
        }
        while i < self.queries.len()
            invariant
                *self == sself,
                qv == sself.spec_queries(),
                i <= self.queries@.len(),
                qv.len() == self.queries@.len(),
                forall|j: int| 0 <= j < qv.len() ==> qv[j] == bytes_of(self.queries@[j]@),
                doc@ == doc0 + spec_string_list(qv.take(i as int)),
            decreases self.queries@.len() - i,
        {
            proof {
                lemma_string_list_push(qv.take(i as int), qv[i as int]);
                assert(qv.take(i as int).push(qv[i as int]) =~= qv.take(i as int + 1));
            }
            if i > 0 {
                doc.extend_from_slice(",".as_bytes());
            }
            doc.extend_from_slice("\"".as_bytes());
            let eq = escape_json(self.queries[i].as_str().as_bytes());
            doc.extend_from_slice(eq.as_slice());
            doc.extend_from_slice("\"".as_bytes());
            proof {
                assert(doc@ =~= doc0 + spec_string_list(qv.take(i as int + 1)));
            }
            i += 1;
        }
        proof {
            assert(qv.take(qv.len() as int) =~= qv);
        }
        doc.extend_from_slice("],\"reference\":\"".as_bytes());
        let er = escape_json(self.reference.as_slice());
        doc.extend_from_slice(er.as_slice());
        doc.extend_from_slice("\",\"resources\":\"".as_bytes());
        let es = escape_json(self.resources.as_str().as_bytes());
        doc.extend_from_slice(es.as_slice());
        doc.extend_from_slice("\"}".as_bytes());
        proof {
            assert(doc@ =~= spec_registration_doc(
                old(self).spec_policy(),
                old(self).spec_queries(),
                spec_reference(measurement@),
                old(self).spec_resources(),
            ));
        }
        match utf8_to_string(doc) {
            Some(s) => Ok(s),
            None => Err(CRError::Encoding),
        }
    }
}

} // verus!
