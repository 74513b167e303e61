//! Keys, signatures, hashing and addresses.
//!
//! Ed25519, BLAKE3 and bech32 come from outside crates; the functions here fix what goes into
//! those calls and what is made of their results. Everything else in the library goes through
//! this module for its cryptography.

use vstd::prelude::*;

use crate::bytes::{array_of, lemma_array_of, part, same_array, to_array};
use crate::text::same_text;

verus! {

/// Human-readable part of the chain's addresses, as in `znx1...`.
pub const ADDRESS_HRP: &'static str = "znx";

/// An address is the BLAKE3 hash of a public key cut to this many bytes.
pub const ADDRESS_LEN: usize = 20;

/// What can go wrong with keys, signatures and addresses.
#[derive(Debug, Clone, PartialEq, Eq)]
pub enum CryptoError {
    InvalidSignature,
    InvalidPublicKeyLength,
    AddressDecode(String),
    UnexpectedHrp { expected: String, found: String },
}

/// [`CryptoError`] with its texts as character sequences.
#[verifier::ext_equal]
pub enum CryptoErrorView {
    InvalidSignature,
    InvalidPublicKeyLength,
    AddressDecode(Seq<char>),
    UnexpectedHrp { expected: Seq<char>, found: Seq<char> },
}

impl View for CryptoError {
    type V = CryptoErrorView;

    open spec fn view(&self) -> CryptoErrorView {
        match self {
            CryptoError::InvalidSignature => CryptoErrorView::InvalidSignature,
            CryptoError::InvalidPublicKeyLength => CryptoErrorView::InvalidPublicKeyLength,
            CryptoError::AddressDecode(t) => CryptoErrorView::AddressDecode(t@),
            CryptoError::UnexpectedHrp { expected, found } => CryptoErrorView::UnexpectedHrp {
                expected: expected@,
                found: found@,
            },
        }
    }
}

/// A result with its error as a model.
pub open spec fn result_view<T, E: View>(r: Result<T, E>) -> Result<T, E::V> {
    match r {
        Ok(v) => Ok(v),
        Err(e) => Err(e@),
    }
}

/// What BLAKE3 makes of a byte string.
pub uninterp spec fn blake3_digest(data: Seq<u8>) -> Seq<u8>;

/// The Ed25519 public key of a secret key.
pub uninterp spec fn ed25519_public_key(secret: Seq<u8>) -> Seq<u8>;

/// The Ed25519 signature of a message under a secret key.
pub uninterp spec fn ed25519_signature(secret: Seq<u8>, message: Seq<u8>) -> Seq<u8>;

/// Whether 32 bytes are an Ed25519 public key.
pub uninterp spec fn ed25519_is_public_key(key: Seq<u8>) -> bool;

/// Whether a signature of a message verifies under a public key.
pub uninterp spec fn ed25519_verifies(key: Seq<u8>, message: Seq<u8>, signature: Seq<u8>) -> bool;

/// The bech32 text of a human-readable part and data.
pub uninterp spec fn bech32_text(hrp: Seq<char>, data: Seq<u8>) -> Seq<char>;

/// What decoding a bech32 text gives: its human-readable part and data, or the text of the error.
pub uninterp spec fn bech32_decoded(text: Seq<char>) -> Result<(Seq<char>, Seq<u8>), Seq<char>>;

/// `blake3::hash`, as the 32 bytes of its result. Claimed: the result depends on the data alone.
#[verifier::external_body]
fn blake3_hash(data: &[u8]) -> (r: [u8; 32])
    ensures
        r@ == blake3_digest(data@),
{
    *blake3::hash(data).as_bytes()
}

/// `SigningKey::generate` of `ed25519_dalek` over the operating system's generator. Nothing is
/// claimed of the secret key that comes out: it is chance. Without entropy the call panics.
#[verifier::external_body]
fn random_secret() -> (r: [u8; 32])
{
    let mut rng = rand_core::UnwrapErr(getrandom::SysRng);
    ed25519_dalek::SigningKey::generate(&mut rng).to_bytes()
}

/// `SigningKey::verifying_key` of `ed25519_dalek`. Claimed: the key depends on the secret alone
/// and its bytes are a public key.
#[verifier::external_body]
fn public_key_of(secret: &[u8; 32]) -> (r: [u8; 32])
    ensures
        r@ == ed25519_public_key(secret@),
        ed25519_is_public_key(r@),
{
    ed25519_dalek::SigningKey::from_bytes(secret).verifying_key().to_bytes()
}

/// `Signer::sign` of `ed25519_dalek`'s `SigningKey`. Claimed: Ed25519 signing is deterministic,
/// and the signature verifies under the public key of the secret.
#[verifier::external_body]
fn sign_with(secret: &[u8; 32], message: &[u8]) -> (r: [u8; 64])
    ensures
        r@ == ed25519_signature(secret@, message@),
        ed25519_verifies(ed25519_public_key(secret@), message@, r@),
{
    let key = ed25519_dalek::SigningKey::from_bytes(secret);
    ed25519_dalek::Signer::sign(&key, message).to_bytes()
}

/// `VerifyingKey::from_bytes` of `ed25519_dalek`, as whether it succeeds. Claimed: that depends
/// on the bytes alone.
#[verifier::external_body]
fn decodes_as_public_key(key: &[u8; 32]) -> (r: bool)
    ensures
        r == ed25519_is_public_key(key@),
{
    ed25519_dalek::VerifyingKey::from_bytes(key).is_ok()
}

/// `Verifier::verify` of `ed25519_dalek`'s `VerifyingKey`, as whether it succeeds. Claimed: that
/// depends on the key, the message and the signature alone, and nothing verifies under bytes
/// that are not a public key.
#[verifier::external_body]
fn signature_verifies(key: &[u8; 32], message: &[u8], signature: &[u8; 64]) -> (r: bool)
    ensures
        r == ed25519_verifies(key@, message@, signature@),
        r ==> ed25519_is_public_key(key@),
{
    match ed25519_dalek::VerifyingKey::from_bytes(key) {
        Ok(decoded) => {
            let parsed = ed25519_dalek::Signature::from_bytes(signature);
            ed25519_dalek::Verifier::verify(&decoded, message, &parsed).is_ok()
        },
        Err(_) => false,
    }
}

/// `bech32::encode` with the `Bech32` checksum. Claimed of the chain's human-readable part and
/// data of the length of an address: the text depends on those two alone, starts with the
/// human-readable part and the separator, and decodes back to both.
#[verifier::external_body]
fn bech32_encode(hrp: &str, data: &[u8]) -> (r: String)
    requires
        hrp@ == ADDRESS_HRP@,
        data@.len() == ADDRESS_LEN,
    ensures
        r@ == bech32_text(hrp@, data@),
        r@.len() > hrp@.len(),
        r@.take(hrp@.len() as int + 1) == hrp@.push('1'),
        decodes_to(r@, hrp@, data@),
{
    let parsed = bech32::Hrp::parse(hrp).expect("a valid human-readable part");
    bech32::encode::<bech32::Bech32>(parsed, data).expect("an address always encodes")
}

/// `bech32::decode`, with its error as the text of the error. Claimed: the result depends on the
/// text alone.
#[verifier::external_body]
fn bech32_decode(text: &str) -> (r: Result<(String, Vec<u8>), String>)
    ensures
        decoded_view(r) == bech32_decoded(text@),
{
    match bech32::decode(text) {
        Ok((hrp, data)) => Ok((hrp.as_str().to_string(), data)),
        Err(e) => Err(e.to_string()),
    }
}

/// `Zeroize::zeroize` of `zeroize` on an array. Claimed: every byte is zero afterwards.
#[verifier::external_body]
fn wipe(secret: &mut [u8; 32])
    ensures
        final(secret)@ == Seq::new(32, |i: int| 0u8),
    opens_invariants none
    no_unwind
{
    zeroize::Zeroize::zeroize(secret);
}

/// Decoding `text` gives `hrp` and `data`.
pub open spec fn decodes_to(text: Seq<char>, hrp: Seq<char>, data: Seq<u8>) -> bool {
    bech32_decoded(text) == Ok::<(Seq<char>, Seq<u8>), Seq<char>>((hrp, data))
}

/// The result of a bech32 decoding with texts and data as sequences.
pub open spec fn decoded_view(r: Result<(String, Vec<u8>), String>) -> Result<
    (Seq<char>, Seq<u8>),
    Seq<char>,
> {
    match r {
        Ok((hrp, data)) => Ok((hrp@, data@)),
        Err(e) => Err(e@),
    }
}

/// The 32-byte hash of a byte string.
pub open spec fn digest(data: Seq<u8>) -> [u8; 32] {
    array_of(blake3_digest(data))
}

/// The 32-byte BLAKE3 hash of `data`.
pub fn hash(data: &[u8]) -> (r: [u8; 32])
    ensures
        r == digest(data@),
        r@ == blake3_digest(data@),
{
    let r = blake3_hash(data);
    proof {
        lemma_array_of(r);
    }
    r
}

/// An account address: 20 bytes derived from a public key.
#[derive(Debug, Clone, Copy, Eq, PartialOrd, Ord, Hash)]
pub struct Address(pub [u8; 20]);

impl PartialEq for Address {
    fn eq(&self, other: &Self) -> (r: bool) {
        same_array(&self.0, &other.0)
    }
}

impl vstd::std_specs::cmp::PartialEqSpecImpl for Address {
    open spec fn obeys_eq_spec() -> bool {
        true
    }

    open spec fn eq_spec(&self, other: &Self) -> bool {
        *self == *other
    }
}

/// The address that a 32-byte hash stands for: its first 20 bytes.
pub open spec fn address_of_digest(d: [u8; 32]) -> Address {
    Address(array_of(d@.take(ADDRESS_LEN as int)))
}

/// The address of a public key.
pub open spec fn address_of_key(key: Seq<u8>) -> Address {
    address_of_digest(digest(key))
}

/// The address that a decoded bech32 text stands for.
pub open spec fn address_of_decoded(decoded: Result<(Seq<char>, Seq<u8>), Seq<char>>) -> Result<
    Address,
    CryptoErrorView,
> {
    match decoded {
        Err(text) => Err(CryptoErrorView::AddressDecode(text)),
        Ok((hrp, data)) => if hrp != ADDRESS_HRP@ {
            Err(CryptoErrorView::UnexpectedHrp { expected: ADDRESS_HRP@, found: hrp })
        } else if data.len() != ADDRESS_LEN {
            Err(CryptoErrorView::InvalidPublicKeyLength)
        } else {
            Ok(Address(array_of(data)))
        },
    }
}

/// A decoded text is an address exactly where its human-readable part is the chain's and its data
/// are 20 bytes; those are then the address.
pub proof fn address_is_its_data(hrp: Seq<char>, data: Seq<u8>)
    ensures
        address_of_decoded(Ok((hrp, data))) is Ok <==> hrp == "znx"@ && data.len() == 20,
        address_of_decoded(Ok((hrp, data))) matches Ok(address) ==> address.0@ == data,
{
    if data.len() == 20 {
        let witness: [u8; 20] = [
            data[0], data[1], data[2], data[3], data[4],
            data[5], data[6], data[7], data[8], data[9],
            data[10], data[11], data[12], data[13], data[14],
            data[15], data[16], data[17], data[18], data[19],
        ];
        assert(witness@ =~= data);
        lemma_array_of(witness);
    }
}

impl Address {
    /// Derives the address of a public key. The same key gives the same address on every node.
    pub fn from_public_key(pk: &VerifyingKey) -> (r: Address)
        ensures
            r == address_of_key(pk@),
            r.0@ == blake3_digest(pk@).take(20),
    {
        Address::from_digest(&hash(pk.bytes.as_slice()))
    }

    /// The address made of the first 20 bytes of a hash.
    pub fn from_digest(digest: &[u8; 32]) -> (r: Address)
        ensures
            r == address_of_digest(*digest),
            r.0@ == digest@.take(ADDRESS_LEN as int),
    {
        let bytes: [u8; 20] = to_array(part(digest.as_slice(), 0, ADDRESS_LEN));
        proof {
            lemma_array_of(bytes);
            assert(digest@.subrange(0, ADDRESS_LEN as int) =~= digest@.take(ADDRESS_LEN as int));
        }
        Address(bytes)
    }

    /// The address as text, `znx1...`.
    pub fn to_bech32(&self) -> (r: String)
        ensures
            r@ == bech32_text(ADDRESS_HRP@, self.0@),
            r@.take(4) == "znx1"@,
            address_of_decoded(bech32_decoded(r@)) == Ok::<Address, CryptoErrorView>(*self),
    {
        let r = bech32_encode(ADDRESS_HRP, self.0.as_slice());
        proof {
            lemma_array_of(self.0);
            reveal_strlit("znx");
            reveal_strlit("znx1");
            assert(ADDRESS_HRP@.push('1') =~= "znx1"@);
        }
        r
    }

    /// Reads an address back from its text.
    pub fn from_bech32(s: &str) -> (r: Result<Address, CryptoError>)
        ensures
            result_view(r) == address_of_decoded(bech32_decoded(s@)),
    {
        Address::from_decoded(bech32_decode(s))
    }

    /// The address that a decoded bech32 text stands for, or why it stands for none.
    pub fn from_decoded(decoded: Result<(String, Vec<u8>), String>) -> (r: Result<
        Address,
        CryptoError,
    >)
        ensures
            result_view(r) == address_of_decoded(decoded_view(decoded)),
    {
        let (hrp, data) = match decoded {
            Ok(parts) => parts,
            Err(text) => return Err(CryptoError::AddressDecode(text)),
        };
        if !same_text(hrp.as_str(), ADDRESS_HRP) {
            return Err(
                CryptoError::UnexpectedHrp { expected: ADDRESS_HRP.to_owned(), found: hrp },
            );
        }
        if data.len() != ADDRESS_LEN {
            return Err(CryptoError::InvalidPublicKeyLength);
        }
        let bytes: [u8; 20] = to_array(data.as_slice());
        proof {
            lemma_array_of(bytes);
        }
        Ok(Address(bytes))
    }
}

/// An Ed25519 public key.
#[derive(Debug, Clone, Copy, Eq, Hash)]
pub struct VerifyingKey {
    bytes: [u8; 32],
}

impl View for VerifyingKey {
    type V = Seq<u8>;

    closed spec fn view(&self) -> Seq<u8> {
        self.bytes@
    }
}

impl PartialEq for VerifyingKey {
    fn eq(&self, other: &Self) -> (r: bool) {
        same_array(&self.bytes, &other.bytes)
    }
}

impl vstd::std_specs::cmp::PartialEqSpecImpl for VerifyingKey {
    open spec fn obeys_eq_spec() -> bool {
        true
    }

    open spec fn eq_spec(&self, other: &Self) -> bool {
        *self == *other
    }
}

impl VerifyingKey {
    /// The key's 32 bytes.
    pub fn to_bytes(&self) -> (r: [u8; 32])
        ensures
            r@ == self@,
    {
        self.bytes
    }
}

/// An Ed25519 signature.
#[derive(Debug, Clone, Copy, Eq, Hash)]
pub struct Signature {
    bytes: [u8; 64],
}

impl View for Signature {
    type V = Seq<u8>;

    closed spec fn view(&self) -> Seq<u8> {
        self.bytes@
    }
}

impl PartialEq for Signature {
    fn eq(&self, other: &Self) -> (r: bool) {
        same_array(&self.bytes, &other.bytes)
    }
}

impl vstd::std_specs::cmp::PartialEqSpecImpl for Signature {
    open spec fn obeys_eq_spec() -> bool {
        true
    }

    open spec fn eq_spec(&self, other: &Self) -> bool {
        *self == *other
    }
}

impl Signature {
    /// The signature with these 64 bytes.
    pub fn from_bytes(bytes: &[u8; 64]) -> (r: Signature)
        ensures
            r@ == bytes@,
    {
        Signature { bytes: *bytes }
    }

    /// The signature's 64 bytes.
    pub fn to_bytes(&self) -> (r: [u8; 64])
        ensures
            r@ == self@,
    {
        self.bytes
    }
}

/// A key pair. The secret half lives only in memory and is overwritten with zeros when the pair
/// is dropped.
pub struct Keypair {
    secret: [u8; 32],
}

impl View for Keypair {
    type V = Seq<u8>;

    /// The secret key.
    closed spec fn view(&self) -> Seq<u8> {
        self.secret@
    }
}

impl Drop for Keypair {
    fn drop(&mut self)
        ensures
            final(self)@ == Seq::new(32, |i: int| 0u8),
        opens_invariants none
        no_unwind
    {
        wipe(&mut self.secret);
    }
}

impl Keypair {
    /// The address of the pair's public key.
    pub open spec fn spec_address(&self) -> Address {
        address_of_key(ed25519_public_key(self@))
    }

    /// Makes a new pair from the operating system's random generator. Which secret comes out is
    /// chance, so nothing is stated of it.
    pub fn generate() -> (r: Keypair)
        ensures
            r@.len() == 32,
    {
        Keypair { secret: random_secret() }
    }

    /// The pair with this secret key.
    pub fn from_secret_bytes(bytes: [u8; 32]) -> (r: Keypair)
        ensures
            r@ == bytes@,
    {
        Keypair { secret: bytes }
    }

    /// The public half.
    pub fn public_key(&self) -> (r: VerifyingKey)
        ensures
            r@ == ed25519_public_key(self@),
            ed25519_is_public_key(r@),
    {
        VerifyingKey { bytes: public_key_of(&self.secret) }
    }

    /// The address of the pair.
    pub fn address(&self) -> (r: Address)
        ensures
            r == self.spec_address(),
            r.0@ == blake3_digest(ed25519_public_key(self@)).take(20),
    {
        Address::from_public_key(&self.public_key())
    }

    /// Signs a message. The signature verifies under the pair's public key.
    pub fn sign(&self, message: &[u8]) -> (r: Signature)
        ensures
            r@ == ed25519_signature(self@, message@),
            ed25519_verifies(ed25519_public_key(self@), message@, r@),
    {
        Signature { bytes: sign_with(&self.secret, message) }
    }

    /// The secret key, for storing it encrypted.
    pub fn secret_bytes(&self) -> (r: [u8; 32])
        ensures
            r@ == self@,
    {
        self.secret
    }
}

/// Checks a signature of a message under a public key.
pub fn verify(public_key: &VerifyingKey, message: &[u8], signature: &Signature) -> (r: Result<
    (),
    CryptoError,
>)
    ensures
        result_view(r) == if ed25519_verifies(public_key@, message@, signature@) {
            Ok(())
        } else {
            Err(CryptoErrorView::InvalidSignature)
        },
{
    if signature_verifies(&public_key.bytes, message, &signature.bytes) {
        Ok(())
    } else {
        Err(CryptoError::InvalidSignature)
    }
}

/// The public key that these bytes are; there must be 32 of them, and they must be a point of
/// the curve.
pub fn public_key_from_bytes(bytes: &[u8]) -> (r: Result<VerifyingKey, CryptoError>)
    ensures
        match r {
            Ok(key) => bytes@.len() == 32 && ed25519_is_public_key(bytes@) && key@ == bytes@,
            Err(e) => (bytes@.len() != 32 || !ed25519_is_public_key(bytes@)) && e
                == CryptoError::InvalidPublicKeyLength,
        },
{
    if bytes.len() != 32 {
        return Err(CryptoError::InvalidPublicKeyLength);
    }
    let array: [u8; 32] = to_array(bytes);
    if decodes_as_public_key(&array) {
        Ok(VerifyingKey { bytes: array })
    } else {
        Err(CryptoError::InvalidPublicKeyLength)
    }
}

/// The address of a public key given as bytes, or `None` where the bytes are no public key.
pub open spec fn address_of_key_bytes(key: Seq<u8>) -> Option<Address> {
    if ed25519_is_public_key(key) {
        Some(address_of_key(key))
    } else {
        None
    }
}

/// Derives the address of a public key given as bytes.
pub fn address_from_public_key_bytes(bytes: &[u8; 32]) -> (r: Result<Address, CryptoError>)
    ensures
        match address_of_key_bytes(bytes@) {
            Some(a) => r == Ok::<Address, CryptoError>(a),
            None => r == Err::<Address, CryptoError>(CryptoError::InvalidPublicKeyLength),
        },
{
    match public_key_from_bytes(bytes.as_slice()) {
        Ok(pk) => Ok(Address::from_public_key(&pk)),
        Err(e) => Err(e),
    }
}

/// Checks a signature given as bytes under a public key given as bytes.
pub fn verify_raw(
    public_key_bytes: &[u8; 32],
    message: &[u8],
    signature_bytes: &[u8; 64],
) -> (r: Result<(), CryptoError>)
    ensures
        result_view(r) == if !ed25519_is_public_key(public_key_bytes@) {
            Err(CryptoErrorView::InvalidPublicKeyLength)
        } else if ed25519_verifies(public_key_bytes@, message@, signature_bytes@) {
            Ok(())
        } else {
            Err(CryptoErrorView::InvalidSignature)
        },
{
    match public_key_from_bytes(public_key_bytes.as_slice()) {
        Ok(public_key) => verify(&public_key, message, &Signature::from_bytes(signature_bytes)),
        Err(e) => Err(e),
    }
}

/// The address of a public key is the first 20 bytes of the key's hash, and bytes have an address
/// exactly if they are a public key.
pub proof fn address_is_the_start_of_the_hash(key: Seq<u8>)
    ensures
        address_of_key(key).0@ == digest(key)@.take(20),
        address_of_key_bytes(key) is Some <==> ed25519_is_public_key(key),
        address_of_key_bytes(key) matches Some(address) ==> address.0@ == digest(key)@.take(20),
{
    let s = digest(key)@.take(20);
    let witness: [u8; 20] = [
        s[0], s[1], s[2], s[3], s[4], s[5], s[6], s[7], s[8], s[9],
        s[10], s[11], s[12], s[13], s[14], s[15], s[16], s[17], s[18], s[19],
    ];
    assert(witness@ =~= s);
    lemma_array_of(witness);
}

} // verus!
