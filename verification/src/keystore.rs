//! The encrypted keystore: a secret key locked with a password.
//!
//! The key that locks it is derived from the password with Argon2id; the secret is sealed with
//! XChaCha20-Poly1305, with the address as associated data, so that a sealed secret cannot be
//! moved to another address unnoticed. Address and public key are kept in the clear.

use vstd::prelude::*;
use vstd::utf8::encode_utf8;

use crate::bytes::{array_of, lemma_array_ext, lemma_array_of, same_array, to_array};
use crate::crypto::{
    address_of_key, bech32_text, ed25519_public_key, result_view, Address, CryptoError,
    CryptoErrorView, Keypair, ADDRESS_HRP,
};
use crate::genesis::address_of_text;
use crate::text::{
    decimal, decimal_text, decoding_inverts_hex, hex_decode, hex_encode, hex_text, unhexed,
};

verus! {

/// The memory that deriving a key takes, in KiB.
pub const KDF_M_COST_KIB: u32 = 19_456;

/// The passes that deriving a key takes.
pub const KDF_T_COST: u32 = 2;

/// The lanes over which deriving a key is spread.
pub const KDF_P_COST: u32 = 1;

/// Why a keystore could not be made, read or opened.
#[derive(Debug, Clone, PartialEq, Eq)]
pub enum KeystoreError {
    Address(CryptoError),
    InvalidHex(String),
    Kdf(String),
    WrongPassword,
}

/// [`KeystoreError`] with its texts as sequences.
#[verifier::ext_equal]
pub enum KeystoreErrorView {
    Address(CryptoErrorView),
    InvalidHex(Seq<char>),
    Kdf(Seq<char>),
    WrongPassword,
}

impl View for KeystoreError {
    type V = KeystoreErrorView;

    open spec fn view(&self) -> KeystoreErrorView {
        match *self {
            KeystoreError::Address(e) => KeystoreErrorView::Address(e@),
            KeystoreError::InvalidHex(t) => KeystoreErrorView::InvalidHex(t@),
            KeystoreError::Kdf(t) => KeystoreErrorView::Kdf(t@),
            KeystoreError::WrongPassword => KeystoreErrorView::WrongPassword,
        }
    }
}

/// A keystore as the file gives it.
#[derive(Debug, Clone, PartialEq, Eq)]
pub struct RawKeystore {
    pub version: u8,
    pub address: String,
    pub public_key: String,
    pub kdf: String,
    pub kdf_salt: String,
    pub kdf_m_cost_kib: u32,
    pub kdf_t_cost: u32,
    pub kdf_p_cost: u32,
    pub cipher: String,
    pub nonce: String,
    pub ciphertext: String,
}

/// [`RawKeystore`] with its texts as sequences.
#[verifier::ext_equal]
pub struct RawKeystoreView {
    pub version: u8,
    pub address: Seq<char>,
    pub public_key: Seq<char>,
    pub kdf: Seq<char>,
    pub kdf_salt: Seq<char>,
    pub kdf_m_cost_kib: u32,
    pub kdf_t_cost: u32,
    pub kdf_p_cost: u32,
    pub cipher: Seq<char>,
    pub nonce: Seq<char>,
    pub ciphertext: Seq<char>,
}

impl View for RawKeystore {
    type V = RawKeystoreView;

    open spec fn view(&self) -> RawKeystoreView {
        RawKeystoreView {
            version: self.version,
            address: self.address@,
            public_key: self.public_key@,
            kdf: self.kdf@,
            kdf_salt: self.kdf_salt@,
            kdf_m_cost_kib: self.kdf_m_cost_kib,
            kdf_t_cost: self.kdf_t_cost,
            kdf_p_cost: self.kdf_p_cost,
            cipher: self.cipher@,
            nonce: self.nonce@,
            ciphertext: self.ciphertext@,
        }
    }
}

/// A secret key, locked with a password.
#[derive(Debug, Clone)]
pub struct Keystore {
    pub address: Address,
    public_key: [u8; 32],
    salt: [u8; 16],
    m_cost_kib: u32,
    t_cost: u32,
    p_cost: u32,
    nonce: [u8; 24],
    ciphertext: Vec<u8>,
}

/// [`Keystore`] with its sealed secret as a sequence.
#[verifier::ext_equal]
pub struct KeystoreView {
    pub address: Address,
    pub public_key: [u8; 32],
    pub salt: [u8; 16],
    pub m_cost_kib: u32,
    pub t_cost: u32,
    pub p_cost: u32,
    pub nonce: [u8; 24],
    pub ciphertext: Seq<u8>,
}

impl View for Keystore {
    type V = KeystoreView;

    closed spec fn view(&self) -> KeystoreView {
        KeystoreView {
            address: self.address,
            public_key: self.public_key,
            salt: self.salt,
            m_cost_kib: self.m_cost_kib,
            t_cost: self.t_cost,
            p_cost: self.p_cost,
            nonce: self.nonce,
            ciphertext: self.ciphertext@,
        }
    }
}

/// The result of making or reading a keystore, over models.
pub open spec fn keystore_result(r: Result<Keystore, KeystoreError>) -> Result<
    KeystoreView,
    KeystoreErrorView,
> {
    match r {
        Ok(keystore) => Ok(keystore@),
        Err(e) => Err(e@),
    }
}

/// The 32-byte key that Argon2id (version 1.3) derives from a password and a salt with so much
/// memory, so many passes and so many lanes, or the text of the error.
pub uninterp spec fn argon2id_key(
    password: Seq<u8>,
    salt: Seq<u8>,
    m_cost_kib: u32,
    t_cost: u32,
    p_cost: u32,
) -> Result<Seq<u8>, Seq<char>>;

/// What XChaCha20-Poly1305 makes of a message under a key and a nonce, with associated data.
pub uninterp spec fn xchacha20poly1305_sealed(
    key: Seq<u8>,
    nonce: Seq<u8>,
    message: Seq<u8>,
    associated: Seq<u8>,
) -> Seq<u8>;

/// The message that XChaCha20-Poly1305 opens under a key and a nonce with associated data, if all
/// of that is what it was sealed with.
pub uninterp spec fn xchacha20poly1305_opened(
    key: Seq<u8>,
    nonce: Seq<u8>,
    sealed: Seq<u8>,
    associated: Seq<u8>,
) -> Option<Seq<u8>>;

/// The costs that Argon2 takes: at least one pass and one lane, and eight KiB for each lane.
pub open spec fn costs_taken(m_cost_kib: u32, t_cost: u32, p_cost: u32) -> bool {
    &&& 1 <= t_cost
    &&& 1 <= p_cost <= 0xFF_FFFF
    &&& p_cost * 8 <= m_cost_kib
}

pub open spec fn key_view(r: Result<[u8; 32], String>) -> Result<Seq<u8>, Seq<char>> {
    match r {
        Ok(key) => Ok(key@),
        Err(message) => Err(message@),
    }
}

/// `Rng::fill_bytes` of `rand_core` over the operating system's generator. Nothing is claimed of
/// the bytes: they are chance. Without entropy the call panics.
#[verifier::external_body]
fn random_bytes<const N: usize>() -> (r: [u8; N])
{
    let mut rng = rand_core::UnwrapErr(getrandom::SysRng);
    let mut bytes = [0u8; N];
    rand_core::Rng::fill_bytes(&mut rng, &mut bytes);
    bytes
}

/// `Argon2::hash_password_into` of `argon2`, with Argon2id, version 1.3 and 32 bytes of output,
/// and its parameters from `Params::new`. Claimed: the key, or the text of the error, depends on
/// the arguments alone; and there is a key exactly where the costs are taken and the password
/// has less than 2^32 bytes. With more than 2^29 lanes `Params::new` overflows. The call takes
/// `m_cost_kib` KiB of memory, and the process ends where there is not so much.
#[verifier::external_body]
fn argon2id(
    password: &[u8],
    salt: &[u8; 16],
    m_cost_kib: u32,
    t_cost: u32,
    p_cost: u32,
) -> (r: Result<[u8; 32], String>)
    requires
        p_cost * 8 <= u32::MAX,
    ensures
        key_view(r) == argon2id_key(password@, salt@, m_cost_kib, t_cost, p_cost),
        (r is Ok) == (costs_taken(m_cost_kib, t_cost, p_cost) && password@.len() <= u32::MAX),
{
    let params = argon2::Params::new(m_cost_kib, t_cost, p_cost, Some(32))
        .map_err(|e| e.to_string())?;
    let argon = argon2::Argon2::new(argon2::Algorithm::Argon2id, argon2::Version::V0x13, params);
    let mut key = [0u8; 32];
    argon.hash_password_into(password, salt, &mut key).map_err(|e| e.to_string())?;
    Ok(key)
}

/// `Aead::encrypt` of `chacha20poly1305`'s `XChaCha20Poly1305` on a message of 32 bytes. Claimed:
/// it succeeds, as messages of less than 2^38 bytes do; what comes out depends on the arguments
/// alone; and opening it with the same key, nonce and associated data gives the message back.
#[verifier::external_body]
fn seal(
    key: &[u8; 32],
    nonce: &[u8; 24],
    message: &[u8; 32],
    associated: &[u8; 20],
) -> (r: Option<Vec<u8>>)
    ensures
        r is Some,
        r->0@ == xchacha20poly1305_sealed(key@, nonce@, message@, associated@),
        xchacha20poly1305_opened(key@, nonce@, r->0@, associated@) == Some(message@),
{
    let cipher: chacha20poly1305::XChaCha20Poly1305 =
        chacha20poly1305::KeyInit::new(chacha20poly1305::Key::from_slice(key));
    let payload = chacha20poly1305::aead::Payload { msg: message, aad: associated };
    let nonce = chacha20poly1305::XNonce::from_slice(nonce);
    chacha20poly1305::aead::Aead::encrypt(&cipher, nonce, payload).ok()
}

/// `Aead::decrypt` of `chacha20poly1305`'s `XChaCha20Poly1305`. Claimed: what comes out depends on
/// the arguments alone. That nothing opens what was sealed under another key or with other
/// associated data rests on the strength of the cipher and is not claimed.
#[verifier::external_body]
fn open_sealed(
    key: &[u8; 32],
    nonce: &[u8; 24],
    sealed: &[u8],
    associated: &[u8; 20],
) -> (r: Option<Vec<u8>>)
    ensures
        (match r {
            Some(message) => Some(message@),
            None => None,
        }) == xchacha20poly1305_opened(key@, nonce@, sealed@, associated@),
{
    let cipher: chacha20poly1305::XChaCha20Poly1305 =
        chacha20poly1305::KeyInit::new(chacha20poly1305::Key::from_slice(key));
    let payload = chacha20poly1305::aead::Payload { msg: sealed, aad: associated };
    let nonce = chacha20poly1305::XNonce::from_slice(nonce);
    chacha20poly1305::aead::Aead::decrypt(&cipher, nonce, payload).ok()
}

/// The keystore of a secret key under a password, with a salt and a nonce.
pub open spec fn created(
    secret: Seq<u8>,
    password: Seq<char>,
    salt: [u8; 16],
    nonce: [u8; 24],
) -> Result<KeystoreView, KeystoreErrorView> {
    let public_key = ed25519_public_key(secret);
    let address = address_of_key(public_key);
    match argon2id_key(
        encode_utf8(password),
        salt@,
        KDF_M_COST_KIB,
        KDF_T_COST,
        KDF_P_COST,
    ) {
        Err(message) => Err(KeystoreErrorView::Kdf(message)),
        Ok(key) => Ok(
            KeystoreView {
                address,
                public_key: array_of(public_key),
                salt,
                m_cost_kib: KDF_M_COST_KIB,
                t_cost: KDF_T_COST,
                p_cost: KDF_P_COST,
                nonce,
                ciphertext: xchacha20poly1305_sealed(key, nonce@, secret, address.0@),
            },
        ),
    }
}

/// What is unlocked, given what opening the sealed secret gave: it must be 32 bytes, and they must
/// be the secret of the public key.
pub open spec fn unlocked(opened: Option<Seq<u8>>, public_key: Seq<u8>) -> Result<
    Seq<u8>,
    KeystoreErrorView,
> {
    match opened {
        None => Err(KeystoreErrorView::WrongPassword),
        Some(secret) => if secret.len() != 32 || ed25519_public_key(secret) != public_key {
            Err(KeystoreErrorView::WrongPassword)
        } else {
            Ok(secret)
        },
    }
}

/// The secret key that a password unlocks, or why it does not.
pub open spec fn decrypted(keystore: KeystoreView, password: Seq<char>) -> Result<
    Seq<u8>,
    KeystoreErrorView,
> {
    match argon2id_key(
        encode_utf8(password),
        keystore.salt@,
        keystore.m_cost_kib,
        keystore.t_cost,
        keystore.p_cost,
    ) {
        Err(message) => Err(KeystoreErrorView::Kdf(message)),
        Ok(key) => unlocked(
            xchacha20poly1305_opened(
                key,
                keystore.nonce@,
                keystore.ciphertext,
                keystore.address.0@,
            ),
            keystore.public_key@,
        ),
    }
}

/// Whatever password is tried, nothing but a secret of the stored public key comes out: otherwise
/// no key could be derived, or the password is wrong. It is wrong in particular where the cipher
/// does not open with the key that the password gives.
pub proof fn decryption_gives_the_stored_key_or_nothing(keystore: KeystoreView, password: Seq<char>)
    ensures
        match decrypted(keystore, password) {
            Ok(secret) => secret.len() == 32 && ed25519_public_key(secret) == keystore.public_key@,
            Err(e) => e is WrongPassword || e is Kdf,
        },
        argon2id_key(
            encode_utf8(password),
            keystore.salt@,
            keystore.m_cost_kib,
            keystore.t_cost,
            keystore.p_cost,
        ) matches Ok(key) && xchacha20poly1305_opened(
            key,
            keystore.nonce@,
            keystore.ciphertext,
            keystore.address.0@,
        ) is None ==> decrypted(keystore, password) == Err::<Seq<u8>, _>(
            KeystoreErrorView::WrongPassword,
        ),
{
}

/// The result of unlocking, over models.
pub open spec fn keypair_result(r: Result<Keypair, KeystoreError>) -> Result<
    Seq<u8>,
    KeystoreErrorView,
> {
    match r {
        Ok(keypair) => Ok(keypair@),
        Err(e) => Err(e@),
    }
}

/// The key pair that is unlocked, given what opening the sealed secret gave.
pub fn unlock(opened: Option<Vec<u8>>, public_key: &[u8; 32]) -> (r: Result<Keypair, KeystoreError>)
    ensures
        keypair_result(r) == unlocked(
            match opened {
                Some(secret) => Some(secret@),
                None => None,
            },
            public_key@,
        ),
{
    let secret = match opened {
        Some(secret) => secret,
        None => return Err(KeystoreError::WrongPassword),
    };
    if secret.len() != 32 {
        return Err(KeystoreError::WrongPassword);
    }
    let bytes: [u8; 32] = to_array(secret.as_slice());
    let keypair = Keypair::from_secret_bytes(bytes);
    let derived: [u8; 32] = keypair.public_key().to_bytes();
    if !same_array(&derived, public_key) {
        proof {
            if derived@ == public_key@ {
                lemma_array_ext(derived, *public_key);
            }
        }
        return Err(KeystoreError::WrongPassword);
    }
    Ok(keypair)
}

/// The bytes of a field given in hexadecimal, of which there must be `N`.
pub open spec fn hex_field<const N: usize>(field: Seq<char>, text: Seq<char>) -> Result<
    [u8; N],
    KeystoreErrorView,
> {
    match unhexed(text) {
        None => Err(KeystoreErrorView::InvalidHex(field)),
        Some(bytes) => if bytes.len() == N {
            Ok(array_of(bytes))
        } else {
            Err(
                KeystoreErrorView::InvalidHex(
                    field + " tiene que ser de "@ + decimal_text(N as nat) + " bytes"@,
                ),
            )
        },
    }
}

fn decode_hex_field<const N: usize>(field: &str, text: &str) -> (r: Result<[u8; N], KeystoreError>)
    ensures
        result_view(r) == hex_field::<N>(field@, text@),
{
    let bytes = match hex_decode(text) {
        Ok(bytes) => bytes,
        Err(_) => return Err(KeystoreError::InvalidHex(field.to_owned())),
    };
    if bytes.len() != N {
        let mut message = field.to_owned();
        message.append(" tiene que ser de ");
        message.append(decimal(N as u128).as_str());
        message.append(" bytes");
        return Err(KeystoreError::InvalidHex(message));
    }
    let array: [u8; N] = to_array(bytes.as_slice());
    proof {
        lemma_array_of(array);
    }
    Ok(array)
}

/// The keystore that a file gives, from what its address was read as, or the first field that is
/// wrong.
pub open spec fn keystore_of(
    raw: RawKeystoreView,
    address: Result<Address, CryptoErrorView>,
) -> Result<KeystoreView, KeystoreErrorView> {
    match address {
        Err(e) => Err(KeystoreErrorView::Address(e)),
        Ok(address) => match hex_field::<32>("public_key"@, raw.public_key) {
            Err(e) => Err(e),
            Ok(public_key) => match hex_field::<16>("kdf_salt"@, raw.kdf_salt) {
                Err(e) => Err(e),
                Ok(salt) => match hex_field::<24>("nonce"@, raw.nonce) {
                    Err(e) => Err(e),
                    Ok(nonce) => match unhexed(raw.ciphertext) {
                        None => Err(KeystoreErrorView::InvalidHex("ciphertext"@)),
                        Some(ciphertext) => Ok(
                            KeystoreView {
                                address,
                                public_key,
                                salt,
                                m_cost_kib: raw.kdf_m_cost_kib,
                                t_cost: raw.kdf_t_cost,
                                p_cost: raw.kdf_p_cost,
                                nonce,
                                ciphertext,
                            },
                        ),
                    },
                },
            },
        },
    }
}

/// A keystore as the file gives it.
pub open spec fn raw_of(keystore: KeystoreView) -> RawKeystoreView {
    RawKeystoreView {
        version: 1,
        address: bech32_text(ADDRESS_HRP@, keystore.address.0@),
        public_key: hex_text(keystore.public_key@),
        kdf: "argon2id"@,
        kdf_salt: hex_text(keystore.salt@),
        kdf_m_cost_kib: keystore.m_cost_kib,
        kdf_t_cost: keystore.t_cost,
        kdf_p_cost: keystore.p_cost,
        cipher: "xchacha20poly1305"@,
        nonce: hex_text(keystore.nonce@),
        ciphertext: hex_text(keystore.ciphertext),
    }
}

impl Keystore {
    /// Locks the secret key of a pair with a password, over a given salt and nonce. The same
    /// password unlocks it.
    pub fn create_with(keypair: &Keypair, password: &str, salt: [u8; 16], nonce: [u8; 24]) -> (r:
        Result<Keystore, KeystoreError>)
        ensures
            keystore_result(r) == created(keypair@, password@, salt, nonce),
            r is Ok <==> encode_utf8(password@).len() <= u32::MAX,
            r matches Ok(keystore) ==> decrypted(keystore@, password@) == Ok::<
                Seq<u8>,
                KeystoreErrorView,
            >(keypair@),
    {
        let address = keypair.address();
        let key = match argon2id(
            password.as_bytes(),
            &salt,
            KDF_M_COST_KIB,
            KDF_T_COST,
            KDF_P_COST,
        ) {
            Ok(key) => key,
            Err(message) => return Err(KeystoreError::Kdf(message)),
        };
        let secret: [u8; 32] = keypair.secret_bytes();
        let ciphertext = match seal(&key, &nonce, &secret, &address.0) {
            Some(ciphertext) => ciphertext,
            None => {
                return Err(
                    KeystoreError::Kdf("no se pudo cifrar la llave privada".to_owned()),
                );
            },
        };
        let public_key: [u8; 32] = keypair.public_key().to_bytes();
        proof {
            lemma_array_of(public_key);
        }
        Ok(
            Keystore {
                address,
                public_key,
                salt,
                m_cost_kib: KDF_M_COST_KIB,
                t_cost: KDF_T_COST,
                p_cost: KDF_P_COST,
                nonce,
                ciphertext,
            },
        )
    }

    /// Locks the secret key of a pair with a password. Salt and nonce are chance; whatever they
    /// are, the same password unlocks it.
    pub fn create(keypair: &Keypair, password: &str) -> (r: Result<Keystore, KeystoreError>)
        ensures
            exists|salt: [u8; 16], nonce: [u8; 24]|
                keystore_result(r) == #[trigger] created(keypair@, password@, salt, nonce),
            r is Ok <==> encode_utf8(password@).len() <= u32::MAX,
            r matches Ok(keystore) ==> decrypted(keystore@, password@) == Ok::<
                Seq<u8>,
                KeystoreErrorView,
            >(keypair@),
    {
        let salt: [u8; 16] = random_bytes();
        let nonce: [u8; 24] = random_bytes();
        Keystore::create_with(keypair, password, salt, nonce)
    }

    /// The keystore as the file gives it. Reading that gives the keystore back.
    pub fn to_raw(&self) -> (r: RawKeystore)
        ensures
            r@ == raw_of(self@),
            keystore_of(r@, address_of_text(r@.address)) == Ok::<KeystoreView, KeystoreErrorView>(
                self@,
            ),
    {
        proof {
            decoding_inverts_hex(self.public_key@);
            decoding_inverts_hex(self.salt@);
            decoding_inverts_hex(self.nonce@);
            decoding_inverts_hex(self.ciphertext@);
            lemma_array_of(self.public_key);
            lemma_array_of(self.salt);
            lemma_array_of(self.nonce);
        }
        RawKeystore {
            version: 1,
            address: self.address.to_bech32(),
            public_key: hex_encode(self.public_key.as_slice()),
            kdf: "argon2id".to_owned(),
            kdf_salt: hex_encode(self.salt.as_slice()),
            kdf_m_cost_kib: self.m_cost_kib,
            kdf_t_cost: self.t_cost,
            kdf_p_cost: self.p_cost,
            cipher: "xchacha20poly1305".to_owned(),
            nonce: hex_encode(self.nonce.as_slice()),
            ciphertext: hex_encode(self.ciphertext.as_slice()),
        }
    }

    /// The keystore that a file gives, from what its address was read as.
    pub fn assemble(raw: RawKeystore, address: Result<Address, CryptoError>) -> (r: Result<
        Keystore,
        KeystoreError,
    >)
        ensures
            keystore_result(r) == keystore_of(raw@, result_view(address)),
    {
        let address = match address {
            Ok(address) => address,
            Err(e) => return Err(KeystoreError::Address(e)),
        };
        let public_key: [u8; 32] = match decode_hex_field("public_key", raw.public_key.as_str()) {
            Ok(bytes) => bytes,
            Err(e) => return Err(e),
        };
        let salt: [u8; 16] = match decode_hex_field("kdf_salt", raw.kdf_salt.as_str()) {
            Ok(bytes) => bytes,
            Err(e) => return Err(e),
        };
        let nonce: [u8; 24] = match decode_hex_field("nonce", raw.nonce.as_str()) {
            Ok(bytes) => bytes,
            Err(e) => return Err(e),
        };
        let ciphertext = match hex_decode(raw.ciphertext.as_str()) {
            Ok(bytes) => bytes,
            Err(_) => return Err(KeystoreError::InvalidHex("ciphertext".to_owned())),
        };
        Ok(
            Keystore {
                address,
                public_key,
                salt,
                m_cost_kib: raw.kdf_m_cost_kib,
                t_cost: raw.kdf_t_cost,
                p_cost: raw.kdf_p_cost,
                nonce,
                ciphertext,
            },
        )
    }

    /// The keystore that a file gives. The secret key stays locked.
    pub fn from_raw(raw: RawKeystore) -> (r: Result<Keystore, KeystoreError>)
        ensures
            keystore_result(r) == keystore_of(raw@, address_of_text(raw@.address)),
    {
        let address = Address::from_bech32(raw.address.as_str());
        Keystore::assemble(raw, address)
    }

    /// Whether the number of lanes is one that deriving a key can be asked for.
    pub fn lanes_fit(&self) -> (r: bool)
        ensures
            r == (self@.p_cost * 8 <= u32::MAX),
    {
        self.p_cost <= 0x1FFF_FFFF
    }

    /// Unlocks the secret key. A wrong password is told apart from the right one by the seal.
    pub fn decrypt(&self, password: &str) -> (r: Result<Keypair, KeystoreError>)
        requires
            self@.p_cost * 8 <= u32::MAX,
        ensures
            keypair_result(r) == decrypted(self@, password@),
    {
        let key = match argon2id(
            password.as_bytes(),
            &self.salt,
            self.m_cost_kib,
            self.t_cost,
            self.p_cost,
        ) {
            Ok(key) => key,
            Err(message) => return Err(KeystoreError::Kdf(message)),
        };
        let opened = open_sealed(&key, &self.nonce, self.ciphertext.as_slice(), &self.address.0);
        unlock(opened, &self.public_key)
    }
}

/// The file of a keystore gives the keystore back, field by field, where its address is read as
/// it was written. It names its version, how the key is derived and how the secret is sealed.
pub proof fn keystore_file_gives_the_keystore_back(keystore: KeystoreView)
    ensures
        keystore_of(raw_of(keystore), Ok(keystore.address)) == Ok::<_, KeystoreErrorView>(keystore),
        raw_of(keystore).version == 1,
        raw_of(keystore).kdf == "argon2id"@,
        raw_of(keystore).cipher == "xchacha20poly1305"@,
{
    decoding_inverts_hex(keystore.public_key@);
    decoding_inverts_hex(keystore.salt@);
    decoding_inverts_hex(keystore.nonce@);
    decoding_inverts_hex(keystore.ciphertext);
    lemma_array_of(keystore.public_key);
    lemma_array_of(keystore.salt);
    lemma_array_of(keystore.nonce);
}

/// What unlocks a keystore is a password from which its salt and costs derive a key that opens the
/// sealed secret, sealed with its address, and a secret of the stored public key inside.
pub proof fn right_password_unlocks(keystore: KeystoreView, password: Seq<char>, secret: Seq<u8>)
    ensures
        decrypted(keystore, password) == Ok::<_, KeystoreErrorView>(secret) <==> {
            let key = argon2id_key(
                encode_utf8(password),
                keystore.salt@,
                keystore.m_cost_kib,
                keystore.t_cost,
                keystore.p_cost,
            );
            &&& key is Ok
            &&& xchacha20poly1305_opened(
                key->Ok_0,
                keystore.nonce@,
                keystore.ciphertext,
                keystore.address.0@,
            ) == Some(secret)
            &&& secret.len() == 32
            &&& ed25519_public_key(secret) == keystore.public_key@
        },
{
}

} // verus!
