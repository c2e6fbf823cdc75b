//! Attestation session tests: the handshake, the key encoding, the
//! report-data binding, and the secret envelope.

use aes_gcm::aead::{Aead, KeyInit, Payload};
use rsa::{BigUint, RsaPrivateKey, RsaPublicKey};
use sha2::Digest;

use reference_kbc::client_session::keybroker::{KeybrokerClientSnp, SnpGeneration};
use reference_kbc::client_session::{
    report_data, ClientSession, ClientTee, CSError, Challenge, ProtocolError,
};

const KEY_N: &[u8] = b"A9CF8D246F4767E6A29C75FEA49F1D3AC96554FE18AC97D75474C2B8764F1881C29187469E74876E89A6757AFAFC817A554E310FDDCF59DD185B0756DCE75BE60841C73CB4C50B8CF6DFB0BFF10DA40346A1FB6D19F3B0CB98F4D75A24225F1B8E799757CB6653ED747057D8AF561C9682AAB549DA02E828C054E2933855D0CB";
const KEY_D: &[u8] = b"72F3E2DB304D896392DF11ED80E989B2FB1512D53444DA415595F91F404FC90A467997B6D19B96F6D84E0C276572BBFFE1719E3ADC6FFAA8764D6109875F4350B7AE75833C58CA772EFB6EFB7A6037A0E7AFA834632BA79974030886B6F40006FF9854A9CAEF06EED44E4E2FC6257DF8F03729A648A7E10AEB694A8AB9F87FC1";
const KEY_P: &[u8] = b"B69CC5477E7A10CE79A97D1ADA3E150F9C520788B3DCFDE6BED66FF83E1657A8B161DD346B1B57305D44C26E21979999FE46E9E1D890E9CA33C26615E3E8282B";
const KEY_Q: &[u8] = b"EE0DBE5659B190B10F1AD3DBB107AB3E32D8A3FA955ED1491B930C32124D19DE16FD787E8F9C4C2AF7AB58DCB1C153AF44D44826F18F052220229F8CC62309E1";

fn test_key() -> RsaPrivateKey {
    let n = BigUint::parse_bytes(KEY_N, 16).unwrap();
    let e = BigUint::parse_bytes(b"10001", 16).unwrap();
    let d = BigUint::parse_bytes(KEY_D, 16).unwrap();
    let p = BigUint::parse_bytes(KEY_P, 16).unwrap();
    let q = BigUint::parse_bytes(KEY_Q, 16).unwrap();
    RsaPrivateKey::from_components(n, e, d, vec![p, q]).unwrap()
}

#[test]
fn test_session() {
    let mut snp = KeybrokerClientSnp::new(SnpGeneration::Milan);

    let mut cs = ClientSession::new(test_key());

    let request = cs.request(&snp).unwrap();
    let got: serde_json::Value = serde_json::from_str(&request).unwrap();
    let expected: serde_json::Value =
        serde_json::from_str("{\"version\":\"0.1.0\",\"tee\":\"snp\",\"extra-params\":\"\\\"\\\"\"}")
            .unwrap();
    assert_eq!(got, expected);

    let challenge = r#"
        {
            "nonce": "424242",
            "extra-params": ""
        }"#;
    let nonce = cs.challenge(Challenge::from_json(challenge).unwrap()).unwrap();
    assert_eq!(nonce, "424242".to_string());

    let report = [0, 1, 2, 3, 4, 5, 6, 7, 8, 9];
    snp.update_report(&report);

    let k_mod = BigUint::parse_bytes(b"98102316FFB6F426A242A619230E0F274AB9433DA04BB91B1A5792DDA8BC5DB86EE67F0F2E89A57716D1CF4469742BB1A9DD72BDA89CAA90CA7BF4D3D3DB1198BD61F12C7741ADC4426A88D1370412A936EC09340D3171B95AEAEDCE611C1E5F6C9E28EE212AE4C61F752978A596B153174DBF88D1125CA675AA7CFE23A8DD253546C68AEB2EE4A31D7FB66D9C7D665984C951158267A685E9C8D62BA7E62808D2B199926732C4BAF7C91A1630E5CB39CB96287032BA18D2642F743EDD09E0685657CF5063C095A9B05B2AAD214FBDE715644A9DE4C5C35C35BFE678F48A4083DA7D0D6C02604A3F0C9C03FD48E672F30D5B906BDE5958C9F4264A61B452211D", 16).unwrap();
    let k_mod_encoded = ClientSession::encode_key(&k_mod.to_bytes_be()).unwrap();
    let k_exp = BigUint::parse_bytes(b"12345", 10).unwrap();
    let k_exp_encoded = ClientSession::encode_key(&k_exp.to_bytes_be()).unwrap();

    let attestation = cs
        .attestation(k_mod_encoded.clone(), k_exp_encoded.clone(), &snp)
        .unwrap();
    let got: serde_json::Value = serde_json::from_str(&attestation).unwrap();
    let expected_text = format!(
        "{{\"tee-pubkey\":{{\"alg\":\"RSA\",\"kty\":\"RSA\",\"n\":\"{}\",\"e\":\"{}\"}},\"tee-evidence\":\"{{\\\"gen\\\":\\\"milan\\\",\\\"report\\\":\\\"{}\\\"}}\"}}",
        k_mod_encoded,
        k_exp_encoded,
        hex::encode(report),
    );
    let expected: serde_json::Value = serde_json::from_str(&expected_text).unwrap();
    assert_eq!(got, expected);
}

#[test]
fn key_round_trip_zero() {
    // X = 0 encodes as one zero byte.
    let encoded = ClientSession::encode_key(&[]).unwrap();
    assert_eq!(encoded, "AA");
    let decoded = ClientSession::decode_key(&encoded).unwrap();
    assert_eq!(decoded, vec![0u8]);

    let encoded = ClientSession::encode_key(&[0, 0, 0]).unwrap();
    assert_eq!(encoded, "AA");
}

#[test]
fn key_round_trip_high_leading_byte() {
    // X with a leading byte of 0x80 or more survives the round trip.
    let value = [0x80u8, 0x01, 0xFF];
    let encoded = ClientSession::encode_key(&value).unwrap();
    let decoded = ClientSession::decode_key(&encoded).unwrap();
    assert_eq!(decoded, value.to_vec());
}

#[test]
fn key_round_trip_strips_leading_zeros() {
    let encoded = ClientSession::encode_key(&[0, 0, 0x12, 0x34]).unwrap();
    let decoded = ClientSession::decode_key(&encoded).unwrap();
    assert_eq!(decoded, vec![0x12u8, 0x34]);
}

#[test]
fn key_decode_rejects_bad_input() {
    assert_eq!(
        ClientSession::decode_key("ab c"),
        Err(CSError::Encoding)
    );
    assert_eq!(ClientSession::decode_key("abcde"), Err(CSError::Encoding));
}

#[test]
fn handshake_out_of_order() {
    // challenge() before request() is a protocol error.
    let mut cs = ClientSession::new(test_key());
    let ch = Challenge::from_json("{\"nonce\":\"n\",\"extra-params\":\"\"}").unwrap();
    assert_eq!(
        cs.challenge(ch),
        Err(CSError::Protocol(ProtocolError::NotRequested))
    );

    // attestation() before challenge() is a protocol error.
    let mut cs = ClientSession::new(test_key());
    let snp = KeybrokerClientSnp::new(SnpGeneration::Milan);
    assert_eq!(
        cs.attestation("n".to_string(), "e".to_string(), &snp),
        Err(CSError::Protocol(ProtocolError::NoNonce))
    );

    // re-requesting is a protocol error.
    let mut cs = ClientSession::new(test_key());
    cs.request(&snp).unwrap();
    assert_eq!(
        cs.request(&snp),
        Err(CSError::Protocol(ProtocolError::AlreadyRequested))
    );
}

#[test]
fn evidence_document() {
    let mut snp = KeybrokerClientSnp::new(SnpGeneration::Milan);
    snp.update_report(&[0, 1, 2, 3, 4, 5, 6, 7, 8, 9]);
    let ev = String::from_utf8(snp.evidence()).unwrap();
    assert_eq!(ev, "{\"gen\":\"milan\",\"report\":\"00010203040506070809\"}");

    // before update_report the report field is the empty string
    let fresh = KeybrokerClientSnp::new(SnpGeneration::Genoa);
    let ev = String::from_utf8(fresh.evidence()).unwrap();
    assert_eq!(ev, "{\"gen\":\"genoa\",\"report\":\"\"}");
}

#[test]
fn challenge_nonce_binding() {
    // The nonce handed back by challenge() is exactly what the binding
    // digest consumes.
    let mut cs = ClientSession::new(test_key());
    let snp = KeybrokerClientSnp::new(SnpGeneration::Milan);
    cs.request(&snp).unwrap();
    let nonce = cs
        .challenge(Challenge::from_json("{\"nonce\":\"424242\",\"extra-params\":\"\"}").unwrap())
        .unwrap();
    assert_eq!(nonce, "424242");
    assert_eq!(cs.nonce().unwrap().as_str(), "424242");

    let rd = report_data(&nonce, "some-n", "some-e");
    let mut h = sha2::Sha512::new();
    h.update(b"424242");
    h.update(b"some-n");
    h.update(b"some-e");
    let expected: Vec<u8> = h.finalize().to_vec();
    assert_eq!(rd, expected);
    assert_eq!(rd.len(), 64);
}

fn b64url(data: &[u8]) -> String {
    String::from_utf8(reference_kbc::codec::b64url_encode(data)).unwrap()
}

#[test]
fn secret_round_trip() {
    // Encrypt a payload into a valid JWE envelope under the session's
    // public key, then open it through secret().
    let key = test_key();
    let pub_key = RsaPublicKey::from(&key);
    let cs = ClientSession::new(key);

    let payload: [u8; 10] = [9, 8, 7, 6, 5, 4, 3, 2, 1, 0];
    let cek: [u8; 32] = [
        1, 2, 3, 4, 5, 6, 7, 8, 9, 10, 11, 12, 13, 14, 15, 16, 17, 18, 19, 20, 21, 22, 23, 24,
        25, 26, 27, 28, 29, 30, 31, 32,
    ];
    let iv: [u8; 12] = [0, 1, 2, 3, 4, 5, 6, 7, 8, 9, 10, 11];

    let protected_b64 = b64url(b"{\"alg\":\"RSA-OAEP-256\",\"enc\":\"A256GCM\"}");

    let cipher = aes_gcm::Aes256Gcm::new_from_slice(&cek).unwrap();
    let nonce = aes_gcm::aead::generic_array::GenericArray::from_slice(&iv);
    let mut ct_tag = cipher
        .encrypt(
            nonce,
            Payload {
                msg: &payload,
                aad: protected_b64.as_bytes(),
            },
        )
        .unwrap();
    let tag = ct_tag.split_off(ct_tag.len() - 16);

    let mut rng = rand::thread_rng();
    let ek = pub_key
        .encrypt(&mut rng, rsa::Oaep::new::<sha2::Sha256>(), &cek)
        .unwrap();

    let envelope = format!(
        "{{\"protected\":\"{}\",\"encrypted_key\":\"{}\",\"iv\":\"{}\",\"ciphertext\":\"{}\",\"tag\":\"{}\"}}",
        protected_b64,
        b64url(&ek),
        b64url(&iv),
        b64url(&ct_tag),
        b64url(&tag),
    );

    let secret = cs.secret(envelope).unwrap();
    assert_eq!(secret, payload.to_vec());
}

#[test]
fn secret_rejects_damage() {
    let cs = ClientSession::new(test_key());

    // not an envelope at all
    assert_eq!(cs.secret("{}".to_string()), Err(CSError::Decryption));
    assert_eq!(cs.secret("nonsense".to_string()), Err(CSError::Decryption));

    // a field that is not base64url
    let bad = "{\"protected\":\"!!\",\"encrypted_key\":\"\",\"iv\":\"\",\"ciphertext\":\"\",\"tag\":\"\"}";
    assert_eq!(cs.secret(bad.to_string()), Err(CSError::Decryption));
}

#[test]
fn secret_rejects_wrong_tag() {
    // Same envelope as the round trip, with the tag flipped: the AEAD
    // must refuse it.
    let key = test_key();
    let pub_key = RsaPublicKey::from(&key);
    let cs = ClientSession::new(key);

    let payload: [u8; 4] = [1, 2, 3, 4];
    let cek: [u8; 32] = [7u8; 32];
    let iv: [u8; 12] = [3u8; 12];
    let protected_b64 = b64url(b"{\"alg\":\"RSA-OAEP-256\",\"enc\":\"A256GCM\"}");
    let cipher = aes_gcm::Aes256Gcm::new_from_slice(&cek).unwrap();
    let nonce = aes_gcm::aead::generic_array::GenericArray::from_slice(&iv);
    let mut ct_tag = cipher
        .encrypt(
            nonce,
            Payload {
                msg: &payload[..],
                aad: protected_b64.as_bytes(),
            },
        )
        .unwrap();
    let mut tag = ct_tag.split_off(ct_tag.len() - 16);
    tag[0] ^= 0xFF;

    let mut rng = rand::thread_rng();
    let ek = pub_key
        .encrypt(&mut rng, rsa::Oaep::new::<sha2::Sha256>(), &cek)
        .unwrap();

    let envelope = format!(
        "{{\"protected\":\"{}\",\"encrypted_key\":\"{}\",\"iv\":\"{}\",\"ciphertext\":\"{}\",\"tag\":\"{}\"}}",
        protected_b64,
        b64url(&ek),
        b64url(&iv),
        b64url(&ct_tag),
        b64url(&tag),
    );
    assert_eq!(cs.secret(envelope), Err(CSError::Decryption));
}

#[test]
fn challenge_rejects_malformed_documents() {
    assert_eq!(Challenge::from_json("[]").unwrap_err(), CSError::Encoding);
    assert_eq!(Challenge::from_json("{\"nonce\":1}").unwrap_err(), CSError::Encoding);
    assert_eq!(
        Challenge::from_json("{\"nonce\":\"n\"}").unwrap_err(),
        CSError::Encoding
    );
}
