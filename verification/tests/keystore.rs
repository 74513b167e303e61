use znx::crypto::Keypair;
use znx::keystore::{unlock, Keystore, KeystoreError};

#[test]
fn create_save_load_decrypt_roundtrip() {
    let keypair = Keypair::generate();

    let keystore = Keystore::create(&keypair, "correcto horse battery staple").expect("cifra sin error");
    let saved = keystore.to_raw();

    let loaded = Keystore::from_raw(saved).expect("carga sin error");
    assert_eq!(loaded.address, keypair.address());

    let decrypted = loaded.decrypt("correcto horse battery staple").expect("descifra con la contraseña correcta");
    assert_eq!(decrypted.address(), keypair.address());
    assert_eq!(decrypted.public_key(), keypair.public_key());
}

#[test]
fn to_json_then_from_json_roundtrip_decrypts() {
    let keypair = Keypair::generate();
    let keystore = Keystore::create(&keypair, "contraseña-de-test").expect("cifra sin error");

    let raw = keystore.to_raw();
    let parsed = Keystore::from_raw(raw).expect("parsea sin error");
    assert_eq!(parsed.address, keypair.address());

    let decrypted = parsed.decrypt("contraseña-de-test").expect("descifra con la contraseña correcta");
    assert_eq!(decrypted.address(), keypair.address());
}

#[test]
fn wrong_password_fails_to_decrypt() {
    let keypair = Keypair::generate();

    let saved = Keystore::create(&keypair, "la-correcta").expect("cifra sin error").to_raw();

    let loaded = Keystore::from_raw(saved).expect("carga sin error");
    assert!(matches!(loaded.decrypt("otra-distinta"), Err(KeystoreError::WrongPassword)));
}

#[test]
fn ciphertext_does_not_decrypt_under_a_different_address_aad() {
    let keypair_a = Keypair::generate();
    let keypair_b = Keypair::generate();

    let mut keystore = Keystore::create(&keypair_a, "una-contraseña").expect("cifra sin error");
    keystore.address = keypair_b.address();

    assert!(matches!(keystore.decrypt("una-contraseña"), Err(KeystoreError::WrongPassword)));
}

fn fixed() -> Keystore {
    let keypair = Keypair::from_secret_bytes([7u8; 32]);
    Keystore::create_with(&keypair, "clave", [1u8; 16], [2u8; 24]).expect("cifra sin error")
}

#[test]
fn a_keystore_depends_on_its_salt_and_nonce_alone() {
    assert_eq!(fixed().to_raw(), fixed().to_raw());
    let keypair = Keypair::from_secret_bytes([7u8; 32]);
    let other = Keystore::create_with(&keypair, "clave", [1u8; 16], [3u8; 24]).expect("cifra sin error");
    assert_ne!(other.to_raw().ciphertext, fixed().to_raw().ciphertext);
    let other = Keystore::create_with(&keypair, "clave", [4u8; 16], [2u8; 24]).expect("cifra sin error");
    assert_ne!(other.to_raw().ciphertext, fixed().to_raw().ciphertext);
}

#[test]
fn a_written_keystore_names_its_parameters() {
    let raw = fixed().to_raw();
    assert_eq!(raw.version, 1);
    assert_eq!(raw.kdf, "argon2id");
    assert_eq!(raw.cipher, "xchacha20poly1305");
    assert_eq!(raw.kdf_m_cost_kib, 19_456);
    assert_eq!(raw.kdf_t_cost, 2);
    assert_eq!(raw.kdf_p_cost, 1);
    assert_eq!(raw.kdf_salt, "01".repeat(16));
    assert_eq!(raw.nonce, "02".repeat(24));
    assert_eq!(raw.address, Keypair::from_secret_bytes([7u8; 32]).address().to_bech32());
    assert_ne!(raw.ciphertext, "07".repeat(32));
    assert_eq!(raw.ciphertext.len(), 96);
}

#[test]
fn a_keystore_with_a_wrong_field_is_refused() {
    let mut raw = fixed().to_raw();
    raw.address = "znx1".to_string();
    assert!(matches!(Keystore::from_raw(raw), Err(KeystoreError::Address(_))));

    let mut raw = fixed().to_raw();
    raw.public_key = "zz".to_string();
    assert!(matches!(Keystore::from_raw(raw), Err(KeystoreError::InvalidHex(m)) if m == "public_key"));

    let mut raw = fixed().to_raw();
    raw.kdf_salt = "00".to_string();
    assert!(
        matches!(Keystore::from_raw(raw), Err(KeystoreError::InvalidHex(m)) if m == "kdf_salt tiene que ser de 16 bytes")
    );

    let mut raw = fixed().to_raw();
    raw.nonce = "0".to_string();
    assert!(matches!(Keystore::from_raw(raw), Err(KeystoreError::InvalidHex(m)) if m == "nonce"));

    let mut raw = fixed().to_raw();
    raw.ciphertext = "xy".to_string();
    assert!(matches!(Keystore::from_raw(raw), Err(KeystoreError::InvalidHex(m)) if m == "ciphertext"));
}

#[test]
fn costs_that_argon2_does_not_take_are_reported() {
    let mut raw = fixed().to_raw();
    raw.kdf_t_cost = 0;
    let keystore = Keystore::from_raw(raw).expect("carga sin error");
    assert!(keystore.lanes_fit());
    assert!(matches!(keystore.decrypt("clave"), Err(KeystoreError::Kdf(_))));

    let mut raw = fixed().to_raw();
    raw.kdf_p_cost = u32::MAX;
    assert!(!Keystore::from_raw(raw).expect("carga sin error").lanes_fit());
}

#[test]
fn only_the_secret_of_the_public_key_unlocks() {
    let keypair = Keypair::from_secret_bytes([7u8; 32]);
    let public_key = keypair.public_key().to_bytes();
    assert!(matches!(unlock(None, &public_key), Err(KeystoreError::WrongPassword)));
    assert!(matches!(unlock(Some(vec![7u8; 31]), &public_key), Err(KeystoreError::WrongPassword)));
    assert!(matches!(unlock(Some(vec![8u8; 32]), &public_key), Err(KeystoreError::WrongPassword)));
    let unlocked = unlock(Some(vec![7u8; 32]), &public_key);
    assert_eq!(unlocked.ok().map(|k| k.secret_bytes()), Some([7u8; 32]));
}
