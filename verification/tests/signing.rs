use blockchain::blockchain::Block;
use blockchain::blockchain::Record;
use blockchain::blockchain::SignedRecord;
use blockchain::errs::CustomErrs;
use blockchain::gen::encrypt;
use blockchain::gen::generate_key_pair;
use blockchain::gen::sign;
use blockchain::gen::validate;
use blockchain::gen::verify_signature;
use blockchain::utils::Transaction;
use sha2::Digest;
use sha2::Sha256;

#[test]
fn key_pair_shapes() {
    let (public_key, private_key) = generate_key_pair();
    assert_eq!(public_key.len(), 32);
    assert_eq!(private_key.len(), 32);
    let (other_public, _) = generate_key_pair();
    assert_ne!(public_key, other_public);
}

#[test]
fn sign_verify_round_trip() {
    let (public_key, private_key) = generate_key_pair();
    let msg = b"a message to authenticate".to_vec();
    let signature = sign(&msg, &private_key).unwrap();
    assert_eq!(signature.len(), 64);
    assert_eq!(verify_signature(&public_key, &msg, &signature), Ok(()));
}

#[test]
fn signatures_depend_on_the_message() {
    let (_public_key, private_key) = generate_key_pair();
    let sig1 = sign(b"first", &private_key).unwrap();
    let sig2 = sign(b"second", &private_key).unwrap();
    assert_ne!(sig1, sig2);
    let sig1_again = sign(b"first", &private_key).unwrap();
    assert_eq!(sig1, sig1_again);
}

#[test]
fn verify_with_other_key_fails() {
    let (_public_key, private_key) = generate_key_pair();
    let (other_public, _) = generate_key_pair();
    let msg = b"hello".to_vec();
    let signature = sign(&msg, &private_key).unwrap();
    assert_eq!(
        verify_signature(&other_public, &msg, &signature),
        Err(CustomErrs::VerificationDoesNotMatch)
    );
}

#[test]
fn verify_rejects_malformed_inputs() {
    let (public_key, private_key) = generate_key_pair();
    let msg = b"hello".to_vec();
    let signature = sign(&msg, &private_key).unwrap();
    assert_eq!(
        verify_signature(&public_key, &msg, &signature[..63]),
        Err(CustomErrs::InvalidSignature)
    );
    assert_eq!(
        verify_signature(&public_key[..31], &msg, &signature),
        Err(CustomErrs::InvalidPublicKey)
    );
    assert_eq!(sign(&msg, &private_key[..31]), Err(CustomErrs::InvalidPrivateKey));
}

#[test]
fn tampered_payload_fails_verification() {
    let (public_key, private_key) = generate_key_pair();
    let record = Transaction::new("A", "B", "2");
    let signed = record.sign(&private_key, &public_key).unwrap();
    assert_eq!(signed.verify(), Ok(()));
    let tampered = SignedRecord {
        public_key: signed.public_key.clone(),
        signature: signed.signature.clone(),
        record: Transaction::new("A", "B", "3"),
    };
    assert_eq!(tampered.verify(), Err(CustomErrs::VerificationDoesNotMatch));
}

#[test]
fn digest_is_sha256() {
    let empty: [u8; 0] = [];
    let h = encrypt(&empty);
    assert_eq!(h.to_vec(), Sha256::digest(&empty).to_vec());
    assert!(validate(&empty, &h));
    let h2 = encrypt(b"abc");
    assert_eq!(h2.to_vec(), Sha256::digest(b"abc").to_vec());
    assert!(!validate(b"abd", &h2));
}

#[test]
fn canonical_encoding_matches_bincode() {
    let record = Transaction::new("A", "B", "2");
    let expected =
        bincode::serialize(&("A".to_string(), "B".to_string(), "2".to_string())).unwrap();
    assert_eq!(record.canonical_bytes(), expected);
}

#[test]
fn stored_text_is_exact() {
    let record = Transaction::new("A", "B", "2");
    assert_eq!(record.to_text(), "{\"src\":\"A\",\"dst\":\"B\",\"amount\":\"2\"}");
    let escaped = Transaction::new("a\"b", "c\\d", "2");
    assert_eq!(
        escaped.to_text(),
        "{\"src\":\"a\\\"b\",\"dst\":\"c\\\\d\",\"amount\":\"2\"}"
    );
}

#[test]
fn stored_text_round_trips() {
    let record = Transaction::new("a\"b", "c\\d", "42");
    let text = record.to_text();
    let back = Transaction::from_text(&text).unwrap();
    assert_eq!(back.to_text(), text);
    assert_eq!(back.canonical_bytes(), record.canonical_bytes());
    assert!(Transaction::from_text("{\"src\":\"A\"}").is_none());
    assert!(Transaction::from_text("").is_none());
}

#[test]
fn row_texts_are_exact() {
    let (public_key, private_key) = generate_key_pair();
    let record = Transaction::new("A", "B", "2");
    let signed = record.sign(&private_key, &public_key).unwrap();
    let row = signed.to_vec();
    assert_eq!(row.len(), 3);
    assert_eq!(row[0], "{\"src\":\"A\",\"dst\":\"B\",\"amount\":\"2\"}");
    let mut expected_identity = String::from("[");
    for (i, b) in signed.public_key.iter().enumerate() {
        if i > 0 {
            expected_identity.push(',');
        }
        expected_identity.push_str(&b.to_string());
    }
    expected_identity.push(']');
    assert_eq!(row[1], expected_identity);
}

#[test]
fn digest_deterministic_and_order_sensitive() {
    let (public_key, private_key) = generate_key_pair();
    let r1 = Transaction::new("A", "B", "1").sign(&private_key, &public_key).unwrap();
    let r2 = Transaction::new("B", "A", "5").sign(&private_key, &public_key).unwrap();
    let mut b1: Block<Transaction> = Block::new();
    b1.append(r1.duplicate());
    b1.append(r2.duplicate());
    let mut b2: Block<Transaction> = Block::new();
    b2.append(r1.duplicate());
    b2.append(r2.duplicate());
    let mut b3: Block<Transaction> = Block::new();
    b3.append(r2.duplicate());
    b3.append(r1.duplicate());
    let h1 = b1.verify().unwrap().hash;
    let h2 = b2.verify().unwrap().hash;
    let h3 = b3.verify().unwrap().hash;
    assert_eq!(h1, h2);
    assert_ne!(h1, h3);
}
