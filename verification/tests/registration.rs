//! Registration payload tests.

use reference_kbc::client_registration::ClientRegistration;

#[test]
fn registration_reference_is_double_encoded() {
    // measurement[0] = 42, measurement[47] = 24, the rest zero
    let mut measurement = [0u8; 48];
    measurement[0] = 42;
    measurement[47] = 24;

    let mut cr = ClientRegistration::new(
        "package policy".to_string(),
        vec!["query-one".to_string(), "query-two".to_string()],
        "resource text".to_string(),
    );
    let doc = cr.register(&measurement).unwrap();

    let v: serde_json::Value = serde_json::from_str(&doc).unwrap();
    let expected_reference = format!("{{\"measurement\":\"{}\"}}", hex::encode(measurement));
    // lowercase hex, wrapped in a JSON document carried as a string value
    assert_eq!(v["reference"].as_str().unwrap(), expected_reference);
    assert!(expected_reference.contains("2a"));
    assert!(!expected_reference.contains("2A"));

    assert_eq!(v["policy"].as_str().unwrap(), "package policy");
    assert_eq!(v["resources"].as_str().unwrap(), "resource text");
    assert_eq!(v["queries"][0].as_str().unwrap(), "query-one");
    assert_eq!(v["queries"][1].as_str().unwrap(), "query-two");
}

#[test]
fn registration_single_byte_measurement() {
    let mut cr = ClientRegistration::new(
        String::new(),
        Vec::new(),
        String::new(),
    );
    let doc = cr.register(&[0u8]).unwrap();
    let v: serde_json::Value = serde_json::from_str(&doc).unwrap();
    assert_eq!(v["reference"].as_str().unwrap(), "{\"measurement\":\"00\"}");
    assert_eq!(v["queries"].as_array().unwrap().len(), 0);
}

#[test]
fn registration_is_deterministic() {
    let mut cr = ClientRegistration::new(
        "p".to_string(),
        vec!["q".to_string()],
        "r".to_string(),
    );
    let first = cr.register(&[1, 2, 3]).unwrap();
    let second = cr.register(&[1, 2, 3]).unwrap();
    assert_eq!(first, second);
}
