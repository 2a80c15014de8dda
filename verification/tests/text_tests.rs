use redflag::bridge::{evm_mint_request_id, mint_mode, rf_mint_request_id, Approval, ApprovalTally, MintMode, MintModeError};
use redflag::node::{validator_application, ApplyRefusal};
use redflag::text::{list_entries_of, trim};

#[test]
fn trimming_and_lists() {
    assert_eq!(trim("  a b \t\n"), "a b");
    assert_eq!(trim("\u{3000}x\u{a0}"), "x");
    assert_eq!(trim("   "), "");
    assert_eq!(list_entries_of(" http://a , ,http://b,"), vec!["http://a".to_string(), "http://b".to_string()]);
    assert!(list_entries_of("").is_empty());
}

#[test]
fn mint_requests_and_approvals() {
    assert_eq!(rf_mint_request_id("bob", 17), "rf-bob-17");
    assert_eq!(evm_mint_request_id("wETH", "bob", 5), "evm-wETH-bob-5");
    match mint_mode("http://a, http://b", None) {
        Ok(MintMode::Threshold(v)) => assert_eq!(v, vec!["http://a".to_string(), "http://b".to_string()]),
        _ => panic!("threshold mode expected"),
    }
    assert!(matches!(mint_mode("", None), Err(MintModeError::SecretMissing)));
    assert!(matches!(mint_mode("", Some("bridge_dev_secret")), Err(MintModeError::SecretInsecure)));
    assert!(matches!(mint_mode("", Some("s")), Ok(MintMode::Secret(_))));

    let mut tally = ApprovalTally::new(3);
    assert_eq!(tally.threshold, 2);
    assert!(!tally.record(None));
    assert!(!tally.record(Some(Approval { signer_pubkey: "k1".into(), signature: "s1".into() })));
    assert!(tally.record(Some(Approval { signer_pubkey: "k2".into(), signature: "s2".into() })));
    assert_eq!(tally.finish().unwrap().len(), 2);
    let short = ApprovalTally::new(4);
    assert_eq!(short.finish().err(), Some((0, 3)));
}

#[test]
fn validator_applications() {
    let addr = "ab".repeat(32);
    assert_eq!(validator_application(" ", &addr, None).err(), Some(ApplyRefusal::MissingFields));
    assert_eq!(validator_application("n", "abcd", None).err(), Some(ApplyRefusal::BadAddress));
    assert_eq!(validator_application("n", &"zz".repeat(32), None).err(), Some(ApplyRefusal::BadAddress));
    let app = validator_application(" node1 ", &addr, None).unwrap();
    assert_eq!(app.name, "node1");
    assert!(!app.verified);
    assert_eq!(app.status(), "pending_unverified");
    let kp = redflag::crypto::SigningKeyPair::generate().unwrap();
    let pk_hex = hex::encode(kp.public_key());
    let sig = kp.sign(format!("node1:{}", pk_hex).as_bytes()).unwrap();
    let app = validator_application("node1", &pk_hex, Some(&hex::encode(sig))).unwrap();
    assert!(app.verified);
    assert_eq!(app.status(), "pending_verified");
}
