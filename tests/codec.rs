use squaredb_fm::codec::{DiskEnc, Encryptor};
use squaredb_fm::err::FmError;

#[test]
fn encrypt_then_decrypt_gives_the_text_back() {
    let c = DiskEnc::new("s3cret".to_string());
    let sealed = c.encrypt("{\"item\":\"pen\"}").unwrap();
    assert_ne!(sealed, "{\"item\":\"pen\"}");
    assert!(!sealed.is_empty());
    assert!(!sealed.contains('\n'));
    assert_eq!(c.decrypt(&sealed).unwrap(), "{\"item\":\"pen\"}");
}

#[test]
fn encryption_is_deterministic() {
    let a = Encryptor::new("k1");
    let b = Encryptor::new("k1");
    assert_eq!(a.encrypt("hello"), b.encrypt("hello"));
    assert_ne!(a.encrypt("hello"), a.encrypt("hellp"));
}

#[test]
fn ciphertext_is_base64() {
    let c = Encryptor::new("k");
    let s = c.encrypt("");
    assert_eq!(s.len(), 24);
    assert!(s
        .chars()
        .all(|ch| ch.is_ascii_alphanumeric() || ch == '+' || ch == '/' || ch == '='));
}

#[test]
fn decrypting_under_another_key_fails() {
    let a = DiskEnc::new("s3cret".to_string());
    let b = DiskEnc::new("other".to_string());
    for text in ["pen", "{\"item\":\"pen\"}", "a longer record that spans blocks"] {
        let sealed = a.encrypt(text).unwrap();
        assert_eq!(b.decrypt(&sealed), Err(FmError::DecryptionError));
    }
}

#[test]
fn decrypting_garbage_fails() {
    let c = DiskEnc::new("k".to_string());
    assert_eq!(c.decrypt("not base64!"), Err(FmError::DecryptionError));
    assert_eq!(c.decrypt("AAAA"), Err(FmError::DecryptionError));
    assert_eq!(Encryptor::new("k").decrypt("%%%"), None);
    assert_eq!(Encryptor::new("k").decrypt(""), None);
    assert_eq!(c.decrypt(""), Err(FmError::DecryptionError));
}
