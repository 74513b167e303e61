use znx::crypto::{
    address_from_public_key_bytes, hash, public_key_from_bytes, verify, verify_raw, Address,
    CryptoError, Keypair,
    ADDRESS_LEN,
};

#[test]
fn sign_and_verify_roundtrip() {
    let kp = Keypair::generate();
    let msg = b"transferencia de prueba";
    let sig = kp.sign(msg);
    assert!(verify(&kp.public_key(), msg, &sig).is_ok());
}

#[test]
fn verify_rejects_tampered_message() {
    let kp = Keypair::generate();
    let sig = kp.sign(b"monto: 100");
    assert!(verify(&kp.public_key(), b"monto: 100000", &sig).is_err());
}

#[test]
fn verify_rejects_wrong_key() {
    let kp1 = Keypair::generate();
    let kp2 = Keypair::generate();
    let sig = kp1.sign(b"hola");
    assert!(verify(&kp2.public_key(), b"hola", &sig).is_err());
}

#[test]
fn address_is_deterministic() {
    let kp = Keypair::generate();
    let a1 = kp.address();
    let a2 = Address::from_public_key(&kp.public_key());
    assert_eq!(a1, a2);
}

#[test]
fn address_bech32_roundtrip() {
    let kp = Keypair::generate();
    let addr = kp.address();
    let encoded = addr.to_bech32();
    assert!(encoded.starts_with("znx1"));
    let decoded = Address::from_bech32(&encoded).expect("decodifica");
    assert_eq!(addr, decoded);
}

#[test]
fn address_from_bech32_rejects_wrong_hrp() {
    let hrp = bech32::Hrp::parse("bc").unwrap();
    let bogus = bech32::encode::<bech32::Bech32>(hrp, &[0u8; ADDRESS_LEN]).unwrap();
    assert!(matches!(
        Address::from_bech32(&bogus),
        Err(CryptoError::UnexpectedHrp { .. })
    ));
}

#[test]
fn secret_bytes_roundtrip_produces_same_keypair() {
    let kp1 = Keypair::generate();
    let secret = kp1.secret_bytes();
    let kp2 = Keypair::from_secret_bytes(secret);
    assert_eq!(kp1.public_key(), kp2.public_key());
    assert_eq!(kp1.address(), kp2.address());
}

#[test]
fn verify_raw_roundtrip() {
    let kp = Keypair::generate();
    let msg = b"transferencia de prueba";
    let sig = kp.sign(msg);
    assert!(verify_raw(&kp.public_key().to_bytes(), msg, &sig.to_bytes()).is_ok());
}

#[test]
fn verify_raw_rejects_tampered_message() {
    let kp = Keypair::generate();
    let sig = kp.sign(b"monto: 100");
    assert!(verify_raw(&kp.public_key().to_bytes(), b"monto: 100000", &sig.to_bytes()).is_err());
}

#[test]
fn address_from_public_key_bytes_matches_typed_derivation() {
    let kp = Keypair::generate();
    let via_bytes = address_from_public_key_bytes(&kp.public_key().to_bytes()).expect("pubkey válida");
    assert_eq!(via_bytes, kp.address());
}

#[test]
fn hash_is_deterministic_and_avalanches() {
    let h1 = hash(b"zendx");
    let h2 = hash(b"zendx");
    let h3 = hash(b"zendY");
    assert_eq!(h1, h2);
    assert_ne!(h1, h3);
}

fn bytes_of<const N: usize>(text: &str) -> [u8; N] {
    hex::decode(text).unwrap().try_into().unwrap()
}

#[test]
fn known_digests_and_signatures() {
    assert_eq!(hash(b""), bytes_of("af1349b9f5f9a1a6a0404dea36dcc9499bcb25c9adc112b7cc9a93cae41f3262"));

    let pair = Keypair::from_secret_bytes(bytes_of(
        "9d61b19deffd5a60ba844af492ec2cc44449c5697b326919703bac031cae7f60",
    ));
    assert_eq!(
        pair.public_key().to_bytes(),
        bytes_of("d75a980182b10ab7d54bfed3c964073a0ee172f3daa62325af021a68f707511a")
    );
    assert_eq!(
        pair.sign(b"").to_bytes(),
        bytes_of(
            "e5564300c360ac729086e2cc806e828a84877f1eb8e5d974d873e065224901555fb8821590a33bacc61e39701cf9b46bd25bf5f0595bbe24655141438e7a100b"
        )
    );
}

#[test]
fn an_address_is_the_start_of_the_hash_of_the_key() {
    let pair = Keypair::from_secret_bytes([7u8; 32]);
    let digest = hash(&pair.public_key().to_bytes());
    assert_eq!(pair.address().0[..], digest[..20]);
}

#[test]
fn texts_that_are_no_address_are_refused() {
    assert!(matches!(Address::from_bech32("no es bech32"), Err(CryptoError::AddressDecode(_))));
    let hrp = bech32::Hrp::parse("znx").unwrap();
    let short = bech32::encode::<bech32::Bech32>(hrp, &[0u8; 19]).unwrap();
    assert_eq!(Address::from_bech32(&short), Err(CryptoError::InvalidPublicKeyLength));
    let other = bech32::encode::<bech32::Bech32>(bech32::Hrp::parse("bc").unwrap(), &[0u8; 20]).unwrap();
    assert_eq!(
        Address::from_bech32(&other),
        Err(CryptoError::UnexpectedHrp { expected: "znx".to_string(), found: "bc".to_string() })
    );
    assert_eq!(
        Address::from_decoded(Ok(("znx".to_string(), vec![9u8; 20]))),
        Ok(Address([9u8; 20]))
    );
    assert_eq!(
        Address::from_decoded(Err("roto".to_string())),
        Err(CryptoError::AddressDecode("roto".to_string()))
    );
}

#[test]
fn only_points_of_the_curve_are_public_keys() {
    assert!(public_key_from_bytes(&[0u8; 31]).is_err());
    let pair = Keypair::generate();
    let bytes = pair.public_key().to_bytes();
    assert_eq!(public_key_from_bytes(&bytes), Ok(pair.public_key()));
    let mut off_curve = [0u8; 32];
    off_curve[0] = 2;
    assert_eq!(public_key_from_bytes(&off_curve), Err(CryptoError::InvalidPublicKeyLength));
    assert!(address_from_public_key_bytes(&off_curve).is_err());
    assert_eq!(verify_raw(&off_curve, b"hola", &[0u8; 64]), Err(CryptoError::InvalidPublicKeyLength));
    assert_eq!(verify_raw(&bytes, b"hola", &[0u8; 64]), Err(CryptoError::InvalidSignature));
}

#[test]
fn generated_keys_differ() {
    assert_ne!(Keypair::generate().secret_bytes(), Keypair::generate().secret_bytes());
}
