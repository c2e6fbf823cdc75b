//! The attestation session state machine.
//!
//! A session walks `Created -> Requested -> Challenged -> Attested`: it
//! emits the session-open request document, consumes the broker's
//! challenge, emits the attestation document binding the ephemeral RSA
//! public key and the hardware evidence, and — independently of the
//! handshake phase — decrypts the JWE-style envelope in which the broker
//! releases the secret.

use vstd::prelude::*;

use crate::codec::{
    b64url_decode, b64url_encode, b64url_of, b64url_parse, be_val, bytes_of, escape_json,
    json_escaped, lemma_b64_round_trip, lemma_min_be_val, min_be, min_be_bytes, utf8_to_string,
};
use crate::json::{
    bytes_eq, find_member, parse_object, spec_as_string, spec_find, spec_object, JVal, SpecVal,
};
use vstd::string::StringSliceAdditionalSpecFns;
use vstd::utf8::valid_utf8;

pub mod keybroker;

verus! {

/// A handshake step was driven out of order.
#[derive(Debug, Clone, Copy, PartialEq, Eq, Structural)]
pub enum ProtocolError {
    /// `request` on a session that already emitted its request.
    AlreadyRequested,
    /// `challenge` on a session that has not emitted a request.
    NotRequested,
    /// `attestation` on a session that holds no nonce yet.
    NoNonce,
}

/// Errors of the session subsystem.
#[derive(Debug, Clone, Copy, PartialEq, Eq, Structural)]
pub enum CSError {
    /// The handshake was driven out of order.
    Protocol(ProtocolError),
    /// A value could not be serialized for the wire.
    Encoding,
    /// The secret envelope could not be parsed, unwrapped or authenticated.
    Decryption,
}

/// Lifecycle phase of a session.
#[derive(Debug, Clone, Copy, PartialEq, Eq, Structural)]
pub enum Phase {
    Created,
    Requested,
    Challenged,
    Attested,
}

/// The broker's challenge document, already taken apart.
#[derive(Debug, Clone)]
pub struct Challenge {
    /// Opaque value to be bound into the attestation evidence.
    pub nonce: String,
    /// Vendor extra parameters, passed along verbatim.
    pub extra_params: String,
}

/// What `Challenge::from_json` accepts: one JSON object carrying at least
/// the string members `nonce` and `extra-params`.
pub open spec fn spec_challenge_parse(s: Seq<u8>) -> Option<(Seq<u8>, Seq<u8>)> {
    match spec_object(s) {
        None => None,
        Some(ms) => {
            let n = spec_as_string(spec_find(ms, bytes_of("nonce"@)));
            let x = spec_as_string(spec_find(ms, bytes_of("extra-params"@)));
            if n is Some && x is Some {
                Some((n.unwrap(), x.unwrap()))
            } else {
                None
            }
        },
    }
}

impl Challenge {
    /// Parse a challenge document.
    pub fn from_json(doc: &str) -> (r: Result<Challenge, CSError>)
        ensures
            match r {
                Ok(c) => spec_challenge_parse(doc.spec_bytes()) == Some(
                    (bytes_of(c.nonce@), bytes_of(c.extra_params@)),
                ),
                Err(e) => e == CSError::Encoding && (spec_challenge_parse(doc.spec_bytes()) is None
                    || !valid_utf8(spec_challenge_parse(doc.spec_bytes()).unwrap().0)
                    || !valid_utf8(spec_challenge_parse(doc.spec_bytes()).unwrap().1)),
            },
    {
        let bytes = doc.as_bytes();
        let ms = match parse_object(bytes) {
            None => {
                return Err(CSError::Encoding);
            },
            Some(ms) => ms,
        };
        let nonce_b: Vec<u8> = match find_member(&ms, "nonce".as_bytes()) {
            Some(JVal::S(v)) => vstd::slice::slice_to_vec(v.as_slice()),
            _ => {
                return Err(CSError::Encoding);
            },
        };
        let extra_b: Vec<u8> = match find_member(&ms, "extra-params".as_bytes()) {
            Some(JVal::S(v)) => vstd::slice::slice_to_vec(v.as_slice()),
            _ => {
                return Err(CSError::Encoding);
            },
        };
        let nonce = match utf8_to_string(nonce_b) {
            Some(s) => s,
            None => {
                return Err(CSError::Encoding);
            },
        };
        let extra_params = match utf8_to_string(extra_b) {
            Some(s) => s,
            None => {
                return Err(CSError::Encoding);
            },
        };
        Ok(Challenge { nonce, extra_params })
    }
}

/// The session-open request document.
pub open spec fn spec_request_doc(v: Seq<u8>, t: Seq<u8>, x: Seq<u8>) -> Seq<u8> {
    bytes_of("{\"version\":\""@) + json_escaped(v) + bytes_of("\",\"tee\":\""@) + json_escaped(t)
        + bytes_of("\",\"extra-params\":\""@) + json_escaped(x) + bytes_of("\"}"@)
}

/// The attestation document: the public-key triple and the evidence
/// document embedded as a JSON-encoded string.
pub open spec fn spec_attestation_doc(n: Seq<u8>, e: Seq<u8>, ev: Seq<u8>) -> Seq<u8> {
    bytes_of("{\"tee-pubkey\":{\"alg\":\"RSA\",\"kty\":\"RSA\",\"n\":\""@) + json_escaped(n)
        + bytes_of("\",\"e\":\""@) + json_escaped(e) + bytes_of("\"},\"tee-evidence\":\""@)
        + json_escaped(ev) + bytes_of("\"}"@)
}

/// A hardware-evidence capability: one implementation per TEE generation.
/// All values are wire bytes.
pub trait ClientTee {
    /// Protocol version constant.
    spec fn spec_version(&self) -> Seq<u8>;

    /// TEE kind tag.
    spec fn spec_tee(&self) -> Seq<u8>;

    /// Vendor extra parameters (serialized JSON text).
    spec fn spec_extra_params(&self) -> Seq<u8>;

    /// Evidence document (serialized JSON text).
    spec fn spec_evidence(&self) -> Seq<u8>;

    fn version(&self) -> (r: Vec<u8>)
        ensures
            r@ == self.spec_version(),
    ;

    fn tee(&self) -> (r: Vec<u8>)
        ensures
            r@ == self.spec_tee(),
    ;

    fn extra_params(&self) -> (r: Vec<u8>)
        ensures
            r@ == self.spec_extra_params(),
    ;

    fn evidence(&self) -> (r: Vec<u8>)
        ensures
            r@ == self.spec_evidence(),
    ;
}

#[verifier::external_type_specification]
#[verifier::external_body]
pub struct ExRsaPrivateKey(rsa::RsaPrivateKey);

/// One attestation attempt, owning its ephemeral private key.
pub struct ClientSession {
    key: rsa::RsaPrivateKey,
    nonce: Option<String>,
    phase: Phase,
}

/// The SHA-512 digest of a byte string.
pub uninterp spec fn sha512_of(b: Seq<u8>) -> Seq<u8>;

/// Relies on sha2::Sha512: the digest is a function of the input bytes
/// alone and is 64 bytes long.
#[verifier::external_body]
fn sha512(b: &[u8]) -> (r: Vec<u8>)
    ensures
        r@ == sha512_of(b@),
        r@.len() == 64,
{
    let mut h = <sha2::Sha512 as sha2::digest::Digest>::new();
    sha2::digest::Digest::update(&mut h, b);
    let d = sha2::digest::Digest::finalize(h);
    d.to_vec()
}

/// Relies on rsa::RsaPrivateKey::decrypt with OAEP(SHA-256) padding: it
/// either recovers the wrapped bytes or fails; nothing further is assumed
/// of the outcome.
#[verifier::external_body]
fn oaep_unwrap(key: &rsa::RsaPrivateKey, ek: &[u8]) -> (r: Option<Vec<u8>>) {
    match key.decrypt(rsa::Oaep::new::<sha2::Sha256>(), ek) {
        Ok(v) => Some(v),
        Err(_) => None,
    }
}

/// AES-256-GCM opening: `Some` plaintext exactly when the tag
/// authenticates key, nonce, associated data and ciphertext.
pub uninterp spec fn gcm256_open(
    key: Seq<u8>,
    iv: Seq<u8>,
    aad: Seq<u8>,
    ct: Seq<u8>,
    tag: Seq<u8>,
) -> Option<Seq<u8>>;

/// Relies on aes_gcm::Aes256Gcm: decryption is a function of key, nonce,
/// associated data, ciphertext and tag alone, and yields the plaintext
/// only when the authentication tag verifies.
#[verifier::external_body]
fn gcm_decrypt(key: &[u8], iv: &[u8], aad: &[u8], ct: &[u8], tag: &[u8]) -> (r: Option<Vec<u8>>)
    requires
        key@.len() == 32,
        iv@.len() == 12,
        tag@.len() == 16,
    ensures
        match r {
            Some(pt) => gcm256_open(key@, iv@, aad@, ct@, tag@) == Some(pt@),
            None => gcm256_open(key@, iv@, aad@, ct@, tag@) is None,
        },
{
    let cipher = match <aes_gcm::Aes256Gcm as aes_gcm::KeyInit>::new_from_slice(key) {
        Ok(c) => c,
        Err(_) => {
            return None;
        },
    };
    let mut msg = key_to_vec_helper(ct);
    msg.extend_from_slice(tag);
    let payload = aes_gcm::aead::Payload { msg: &msg, aad };
    let nonce = aes_gcm::aead::generic_array::GenericArray::from_slice(iv);
    match aes_gcm::aead::Aead::decrypt(&cipher, nonce, payload) {
        Ok(pt) => Some(pt),
        Err(_) => None,
    }
}

fn key_to_vec_helper(b: &[u8]) -> (r: Vec<u8>)
    ensures
        r@ == b@,
{
    vstd::slice::slice_to_vec(b)
}

/// The five members of a JWE envelope, as transmitted (still base64url
/// text): protected, encrypted_key, iv, ciphertext, tag.
pub open spec fn spec_jwe_parts(s: Seq<u8>) -> Option<
    (Seq<u8>, Seq<u8>, Seq<u8>, Seq<u8>, Seq<u8>),
> {
    match spec_object(s) {
        None => None,
        Some(ms) => {
            let p = spec_as_string(spec_find(ms, bytes_of("protected"@)));
            let k = spec_as_string(spec_find(ms, bytes_of("encrypted_key"@)));
            let iv = spec_as_string(spec_find(ms, bytes_of("iv"@)));
            let ct = spec_as_string(spec_find(ms, bytes_of("ciphertext"@)));
            let tg = spec_as_string(spec_find(ms, bytes_of("tag"@)));
            if p is Some && k is Some && iv is Some && ct is Some && tg is Some {
                Some((p.unwrap(), k.unwrap(), iv.unwrap(), ct.unwrap(), tg.unwrap()))
            } else {
                None
            }
        },
    }
}

/// The protected header this client accepts: RSA-OAEP-256 key wrapping
/// with A256GCM content encryption.
pub open spec fn spec_header_ok(h: Seq<u8>) -> bool {
    match spec_object(h) {
        None => false,
        Some(ms) => spec_as_string(spec_find(ms, bytes_of("alg"@))) == Some(
            bytes_of("RSA-OAEP-256"@),
        ) && spec_as_string(spec_find(ms, bytes_of("enc"@))) == Some(bytes_of("A256GCM"@)),
    }
}

fn check_header(h: &[u8]) -> (r: bool)
    ensures
        r == spec_header_ok(h@),
{
    let ms = match parse_object(h) {
        None => {
            return false;
        },
        Some(ms) => ms,
    };
    let alg_ok: bool = match find_member(&ms, "alg".as_bytes()) {
        Some(JVal::S(v)) => bytes_eq(v.as_slice(), "RSA-OAEP-256".as_bytes()),
        _ => false,
    };
    let enc_ok: bool = match find_member(&ms, "enc".as_bytes()) {
        Some(JVal::S(v)) => bytes_eq(v.as_slice(), "A256GCM".as_bytes()),
        _ => false,
    };
    alg_ok && enc_ok
}

/// A well-formed envelope: all five members present, all base64url, the
/// header supported, and iv and tag of the AEAD's fixed sizes.
pub open spec fn spec_jwe_wf(s: Seq<u8>) -> bool {
    match spec_jwe_parts(s) {
        None => false,
        Some((p, k, iv, ct, tg)) => b64url_parse(p) is Some && b64url_parse(k) is Some
            && b64url_parse(iv) is Some && b64url_parse(ct) is Some && b64url_parse(tg) is Some
            && spec_header_ok(b64url_parse(p).unwrap()) && b64url_parse(iv).unwrap().len() == 12
            && b64url_parse(tg).unwrap().len() == 16,
    }
}

/// The envelope releases `pt` under content-encryption key `cek`.  The
/// associated data is the protected member exactly as transmitted.
pub open spec fn spec_jwe_accepts(s: Seq<u8>, cek: Seq<u8>, pt: Seq<u8>) -> bool {
    spec_jwe_wf(s) && cek.len() == 32 && {
        let (p, k, iv, ct, tg) = spec_jwe_parts(s).unwrap();
        gcm256_open(
            cek,
            b64url_parse(iv).unwrap(),
            p,
            b64url_parse(ct).unwrap(),
            b64url_parse(tg).unwrap(),
        ) == Some(pt)
    }
}

/// Open an envelope whose content-encryption key is already in hand.
pub fn open_envelope(cek: &[u8], protected_b64: &[u8], iv: &[u8], ct: &[u8], tag: &[u8]) -> (r:
    Result<Vec<u8>, CSError>)
    ensures
        match r {
            Ok(pt) => cek@.len() == 32 && iv@.len() == 12 && tag@.len() == 16 && gcm256_open(
                cek@,
                iv@,
                protected_b64@,
                ct@,
                tag@,
            ) == Some(pt@),
            Err(e) => e == CSError::Decryption && (cek@.len() != 32 || iv@.len() != 12
                || tag@.len() != 16 || gcm256_open(cek@, iv@, protected_b64@, ct@, tag@) is None),
        },
{
    if cek.len() != 32 || iv.len() != 12 || tag.len() != 16 {
        return Err(CSError::Decryption);
    }
    match gcm_decrypt(cek, iv, protected_b64, ct, tag) {
        Some(pt) => Ok(pt),
        None => Err(CSError::Decryption),
    }
}

impl ClientSession {
    /// Phase of the handshake.
    pub closed spec fn spec_phase(&self) -> Phase {
        self.phase
    }

    /// The stored nonce, as bytes.
    pub closed spec fn spec_nonce(&self) -> Option<Seq<u8>> {
        match self.nonce {
            Some(ref n) => Some(bytes_of(n@)),
            None => None,
        }
    }

    /// Both sessions hold the same private key.
    pub closed spec fn spec_same_key(&self, other: &ClientSession) -> bool {
        self.key == other.key
    }

    /// A fresh session around an ephemeral private key.
    pub fn new(key: rsa::RsaPrivateKey) -> (r: ClientSession)
        ensures
            r.spec_phase() == Phase::Created,
            r.spec_nonce() is None,
    {
        ClientSession { key, nonce: None, phase: Phase::Created }
    }

    /// The stored nonce, if a challenge has been consumed.
    pub fn nonce(&self) -> (r: Option<&String>)
        ensures
            match r {
                Some(n) => self.spec_nonce() == Some(bytes_of(n@)),
                None => self.spec_nonce() is None,
            },
    {
        self.nonce.as_ref()
    }

    /// Emit the session-open request document.  A session emits exactly
    /// one request; re-requesting is a protocol error.
    pub fn request<T: ClientTee>(&mut self, tee: &T) -> (r: Result<String, CSError>)
        ensures
            old(self).spec_phase() != Phase::Created ==> r == Err::<String, CSError>(
                CSError::Protocol(ProtocolError::AlreadyRequested),
            ) && *final(self) == *old(self),
            old(self).spec_phase() == Phase::Created ==> match r {
                Ok(doc) => bytes_of(doc@) == spec_request_doc(
                    tee.spec_version(),
                    tee.spec_tee(),
                    tee.spec_extra_params(),
                ) && final(self).spec_phase() == Phase::Requested,
                Err(e) => e == CSError::Encoding && !valid_utf8(
                    spec_request_doc(tee.spec_version(), tee.spec_tee(), tee.spec_extra_params()),
                ) && *final(self) == *old(self),
            },
            final(self).spec_nonce() == old(self).spec_nonce(),
            final(self).spec_same_key(old(self)),
    {
        if !matches!(self.phase, Phase::Created) {
            return Err(CSError::Protocol(ProtocolError::AlreadyRequested));
        }
        let v = tee.version();
        let t = tee.tee();
        let x = tee.extra_params();
        let mut doc: Vec<u8> = Vec::new();
        doc.extend_from_slice("{\"version\":\"".as_bytes());
        let ev = escape_json(v.as_slice());
        doc.extend_from_slice(ev.as_slice());
        doc.extend_from_slice("\",\"tee\":\"".as_bytes());
        let et = escape_json(t.as_slice());
        doc.extend_from_slice(et.as_slice());
        doc.extend_from_slice("\",\"extra-params\":\"".as_bytes());
        let ex = escape_json(x.as_slice());
        doc.extend_from_slice(ex.as_slice());
        doc.extend_from_slice("\"}".as_bytes());
        proof {
            assert(doc@ =~= spec_request_doc(
                tee.spec_version(),
                tee.spec_tee(),
                tee.spec_extra_params(),
            ));
        }
        match utf8_to_string(doc) {
            Some(s) => {
                self.phase = Phase::Requested;
                Ok(s)
            },
            None => Err(CSError::Encoding),
        }
    }

    /// Consume the broker's challenge, store its nonce, and hand the nonce
    /// back.  Valid only directly after `request`.
    pub fn challenge(&mut self, doc: Challenge) -> (r: Result<String, CSError>)
        ensures
            old(self).spec_phase() != Phase::Requested ==> r == Err::<String, CSError>(
                CSError::Protocol(ProtocolError::NotRequested),
            ) && *final(self) == *old(self),
            old(self).spec_phase() == Phase::Requested ==> match r {
                Ok(n) => bytes_of(n@) == bytes_of(doc.nonce@) && final(self).spec_phase()
                    == Phase::Challenged && final(self).spec_nonce() == Some(bytes_of(doc.nonce@)),
                Err(_) => false,
            },
            final(self).spec_same_key(old(self)),
    {
        if !matches!(self.phase, Phase::Requested) {
            return Err(CSError::Protocol(ProtocolError::NotRequested));
        }
        let n = doc.nonce.clone();
        self.nonce = Some(doc.nonce);
        self.phase = Phase::Challenged;
        Ok(n)
    }

    /// Emit the attestation document embedding the encoded public-key
    /// triple and the provider's evidence.  Valid only after a challenge
    /// was consumed.
    pub fn attestation<T: ClientTee>(&mut self, key_n: String, key_e: String, tee: &T) -> (r:
        Result<String, CSError>)
        ensures
            old(self).spec_phase() != Phase::Challenged ==> r == Err::<String, CSError>(
                CSError::Protocol(ProtocolError::NoNonce),
            ) && *final(self) == *old(self),
            old(self).spec_phase() == Phase::Challenged ==> match r {
                Ok(doc) => bytes_of(doc@) == spec_attestation_doc(
                    bytes_of(key_n@),
                    bytes_of(key_e@),
                    tee.spec_evidence(),
                ) && final(self).spec_phase() == Phase::Attested,
                Err(e) => e == CSError::Encoding && !valid_utf8(
                    spec_attestation_doc(bytes_of(key_n@), bytes_of(key_e@), tee.spec_evidence()),
                ) && *final(self) == *old(self),
            },
            final(self).spec_nonce() == old(self).spec_nonce(),
            final(self).spec_same_key(old(self)),
    {
        if !matches!(self.phase, Phase::Challenged) {
            return Err(CSError::Protocol(ProtocolError::NoNonce));
        }
        let ev = tee.evidence();
        let mut doc: Vec<u8> = Vec::new();
        doc.extend_from_slice("{\"tee-pubkey\":{\"alg\":\"RSA\",\"kty\":\"RSA\",\"n\":\"".as_bytes());
        let en = escape_json(key_n.as_str().as_bytes());
        doc.extend_from_slice(en.as_slice());
        doc.extend_from_slice("\",\"e\":\"".as_bytes());
        let ee = escape_json(key_e.as_str().as_bytes());
        doc.extend_from_slice(ee.as_slice());
        doc.extend_from_slice("\"},\"tee-evidence\":\"".as_bytes());
        let eev = escape_json(ev.as_slice());
        doc.extend_from_slice(eev.as_slice());
        doc.extend_from_slice("\"}".as_bytes());
        proof {
            assert(doc@ =~= spec_attestation_doc(
                bytes_of(key_n@),
                bytes_of(key_e@),
                tee.spec_evidence(),
            ));
        }
        match utf8_to_string(doc) {
            Some(s) => {
                self.phase = Phase::Attested;
                Ok(s)
            },
            None => Err(CSError::Encoding),
        }
    }

    /// Decrypt the released secret: unwrap the content-encryption key from
    /// `encrypted_key` with RSA-OAEP(SHA-256) under the session's private
    /// key, then open `ciphertext` under `iv`/`tag` with AES-256-GCM, the
    /// protected member (as transmitted) being the associated data.
    pub fn secret(&self, data: String) -> (r: Result<Vec<u8>, CSError>)
        ensures
            match r {
                Ok(pt) => exists|cek: Seq<u8>| spec_jwe_accepts(bytes_of(data@), cek, pt@),
                Err(e) => e == CSError::Decryption,
            },
            !spec_jwe_wf(bytes_of(data@)) ==> r is Err,
    {
        let bytes = data.as_str().as_bytes();
        let ms = match parse_object(bytes) {
            None => {
                return Err(CSError::Decryption);
            },
            Some(ms) => ms,
        };
        let p: Vec<u8> = match find_member(&ms, "protected".as_bytes()) {
            Some(JVal::S(v)) => vstd::slice::slice_to_vec(v.as_slice()),
            _ => {
                return Err(CSError::Decryption);
            },
        };
        let k: Vec<u8> = match find_member(&ms, "encrypted_key".as_bytes()) {
            Some(JVal::S(v)) => vstd::slice::slice_to_vec(v.as_slice()),
            _ => {
                return Err(CSError::Decryption);
            },
        };
        let ivb: Vec<u8> = match find_member(&ms, "iv".as_bytes()) {
            Some(JVal::S(v)) => vstd::slice::slice_to_vec(v.as_slice()),
            _ => {
                return Err(CSError::Decryption);
            },
        };
        let ctb: Vec<u8> = match find_member(&ms, "ciphertext".as_bytes()) {
            Some(JVal::S(v)) => vstd::slice::slice_to_vec(v.as_slice()),
            _ => {
                return Err(CSError::Decryption);
            },
        };
        let tgb: Vec<u8> = match find_member(&ms, "tag".as_bytes()) {
            Some(JVal::S(v)) => vstd::slice::slice_to_vec(v.as_slice()),
            _ => {
                return Err(CSError::Decryption);
            },
        };
        let header = match b64url_decode(p.as_slice()) {
            None => {
                return Err(CSError::Decryption);
            },
            Some(h) => h,
        };
        let ek = match b64url_decode(k.as_slice()) {
            None => {
                return Err(CSError::Decryption);
            },
            Some(v) => v,
        };
        let iv = match b64url_decode(ivb.as_slice()) {
            None => {
                return Err(CSError::Decryption);
            },
            Some(v) => v,
        };
        let ct = match b64url_decode(ctb.as_slice()) {
            None => {
                return Err(CSError::Decryption);
            },
            Some(v) => v,
        };
        let tag = match b64url_decode(tgb.as_slice()) {
            None => {
                return Err(CSError::Decryption);
            },
            Some(v) => v,
        };
        if !check_header(header.as_slice()) {
            return Err(CSError::Decryption);
        }
        if iv.len() != 12 || tag.len() != 16 {
            return Err(CSError::Decryption);
        }
        let cek = match oaep_unwrap(&self.key, ek.as_slice()) {
            None => {
                return Err(CSError::Decryption);
            },
            Some(c) => c,
        };
        if cek.len() != 32 {
            return Err(CSError::Decryption);
        }
        match open_envelope(
            cek.as_slice(),
            p.as_slice(),
            iv.as_slice(),
            ct.as_slice(),
            tag.as_slice(),
        ) {
            Ok(pt) => {
                proof {
                    assert(spec_jwe_accepts(bytes_of(data@), cek@, pt@));
                }
                Ok(pt)
            },
            Err(_) => Err(CSError::Decryption),
        }
    }

    /// Encode an unsigned big-endian integer for a key-exchange document:
    /// minimal big-endian bytes (one zero byte for zero), base64url without
    /// padding.  The encoding is ASCII, so this always succeeds.
    pub fn encode_key(key_be: &[u8]) -> (r: Result<String, CSError>)
        ensures
            r matches Ok(s) && bytes_of(s@) == b64url_of(min_be(key_be@)),
    {
        let m = min_be_bytes(key_be);
        let enc = b64url_encode(m.as_slice());
        proof {
            let e = b64url_of(min_be(key_be@));
            assert forall|j: int| 0 <= j < e.len() implies e[j] < 128 by {
                crate::codec::lemma_sextet_bound(min_be(key_be@), j);
                crate::codec::lemma_b64_char_val(crate::codec::sextet(min_be(key_be@), j));
            }
            crate::codec::lemma_ascii_valid_utf8(e);
        }
        match utf8_to_string(enc) {
            Some(s) => Ok(s),
            None => Err(CSError::Encoding),
        }
    }

    /// Decode a key-exchange integer back to its minimal big-endian bytes.
    pub fn decode_key(s: &str) -> (r: Result<Vec<u8>, CSError>)
        ensures
            match r {
                Ok(v) => b64url_parse(bytes_of(s@)) == Some(v@),
                Err(e) => e == CSError::Encoding && b64url_parse(bytes_of(s@)) is None,
            },
    {
        match b64url_decode(s.as_bytes()) {
            Some(v) => Ok(v),
            None => Err(CSError::Encoding),
        }
    }
}

/// Round trip of the key encoding: for every unsigned integer, given as
/// big-endian bytes `b` — including values whose leading byte is 0x80 or
/// more, and zero — decoding `encode_key`'s output denotes the same
/// integer.
pub proof fn lemma_key_round_trip(b: Seq<u8>)
    ensures
        b64url_parse(b64url_of(min_be(b))) matches Some(m) && be_val(m) == be_val(b),
{
    lemma_b64_round_trip(min_be(b));
    lemma_min_be_val(b);
}

/// The report-data binding: the SHA-512 digest over the nonce bytes, the
/// encoded public-key modulus and the encoded exponent, in that order.
/// The caller writes this digest into the hardware report before asking
/// for evidence, binding key and nonce into the attested measurement.
pub fn report_data(nonce: &str, key_n: &str, key_e: &str) -> (r: Vec<u8>)
    ensures
        r@ == sha512_of(bytes_of(nonce@) + bytes_of(key_n@) + bytes_of(key_e@)),
        r@.len() == 64,
{
    let mut buf: Vec<u8> = Vec::new();
    buf.extend_from_slice(nonce.as_bytes());
    buf.extend_from_slice(key_n.as_bytes());
    buf.extend_from_slice(key_e.as_bytes());
    proof {
        assert(buf@ =~= bytes_of(nonce@) + bytes_of(key_n@) + bytes_of(key_e@));
    }
    sha512(buf.as_slice())
}

} // verus!
