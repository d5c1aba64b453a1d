//! The `signature` module provides functionality for public, and private keys.

use vstd::array::spec_array_fill_for_copy_type;
use vstd::prelude::*;
use vstd::std_specs::cmp::PartialEqSpec;
use vstd::std_specs::cmp::PartialEqSpecImpl;
use vstd::utf8::encode_utf8;

use crate::base58;
use crate::base58::base58_bytes;
use crate::base58::base58_text;
use crate::hash::equal_bytes;
use crate::pubkey::Pubkey;

verus! {

pub const SIGNATURE_BYTES: usize = 64;

pub const SECRET_KEY_BYTES: usize = 32;

pub const KEYPAIR_BYTES: usize = 64;

/// Whether `ed25519_dalek::Keypair::from_bytes` takes bytes as a keypair.
pub uninterp spec fn is_keypair(bytes: Seq<u8>) -> bool;

/// The bytes of the public key that `ed25519_dalek::PublicKey::from` gives for a secret key.
pub uninterp spec fn public_key_of(secret: Seq<u8>) -> Seq<u8>;

/// The bytes of the signature that `ed25519_dalek::Keypair::sign` gives for a message.
pub uninterp spec fn ed25519_signature(keypair: Seq<u8>, message: Seq<u8>) -> Seq<u8>;

/// Whether `ed25519_dalek::PublicKey::verify_strict` takes a signature as one of the message.
pub uninterp spec fn strictly_verifies(
    public_key: Seq<u8>,
    message: Seq<u8>,
    signature: Seq<u8>,
) -> bool;

/// The text that `serde_json::to_string` gives for bytes.
pub uninterp spec fn json_text(bytes: Seq<u8>) -> Seq<char>;

/// The bytes that `serde_json::from_str` reads from a text, if it can.
pub uninterp spec fn json_bytes(text: Seq<char>) -> Option<Seq<u8>>;

/// The bytes that `pbkdf2::pbkdf2` with HMAC-SHA512 derives from a password.
pub uninterp spec fn pbkdf2_sha512(
    password: Seq<u8>,
    salt: Seq<u8>,
    rounds: usize,
    len: usize,
) -> Seq<u8>;

/// `ed25519_dalek::Keypair::from_bytes`: whether bytes are a keypair, which takes 64 bytes.
#[verifier::external_body]
fn check_keypair(bytes: &[u8]) -> (valid: bool)
    ensures
        valid == is_keypair(bytes@),
        valid ==> bytes@.len() == 64,
{
    ed25519_dalek::Keypair::from_bytes(bytes).is_ok()
}

/// `ed25519_dalek::PublicKey::from` a secret key, which is any 32 bytes: the public key makes
/// up a keypair with the secret key.
#[verifier::external_body]
fn derive_public_key(secret: &[u8; 32]) -> (public_key: [u8; 32])
    ensures
        public_key@ == public_key_of(secret@),
        is_keypair(secret@ + public_key@),
{
    let secret = ed25519_dalek::SecretKey::from_bytes(secret).unwrap();
    ed25519_dalek::PublicKey::from(&secret).to_bytes()
}

/// `ed25519_dalek::Keypair::generate` with the generator of the operating system: a random
/// secret key and the public key that belongs to it.
#[verifier::external_body]
fn generate_keypair() -> (bytes: [u8; 64])
    ensures
        is_keypair(bytes@),
        bytes@.subrange(32, 64) == public_key_of(bytes@.subrange(0, 32)),
{
    ed25519_dalek::Keypair::generate(&mut rand::rngs::OsRng::default()).to_bytes()
}

/// The encoding of the neutral point of the curve.
pub open spec fn neutral_point() -> Seq<u8> {
    Seq::new(
        32,
        |i: int|
            if i == 0 {
                1u8
            } else {
                0u8
            },
    )
}

/// The public key of a keypair is the one that belongs to its secret key.
pub open spec fn keys_match(keypair: Seq<u8>) -> bool {
    keypair.subrange(32, 64) == public_key_of(keypair.subrange(0, 32))
}

/// The first half of a signature, which is a point, is not the neutral one.
pub open spec fn has_proper_point(signature: Seq<u8>) -> bool {
    signature.subrange(0, 32) != neutral_point()
}

/// `ed25519_dalek::Keypair::sign`: the signature of a message. With keys that match,
/// `verify_strict` takes the signature as one of the message, unless the signature's point is
/// the neutral one: points of small order are refused, and the point is a multiple of the base
/// point.
#[verifier::external_body]
fn sign_with(keypair: &[u8; 64], message: &[u8]) -> (signature: [u8; 64])
    requires
        is_keypair(keypair@),
    ensures
        signature@ == ed25519_signature(keypair@, message@),
        keys_match(keypair@) && has_proper_point(signature@) ==> strictly_verifies(
            keypair@.subrange(32, 64),
            message@,
            signature@,
        ),
{
    let keypair = ed25519_dalek::Keypair::from_bytes(keypair).unwrap();
    ed25519_dalek::Signer::sign(&keypair, message).to_bytes()
}

/// `ed25519_dalek::PublicKey::verify_strict`: whether a signature is one of the message by the
/// holder of the public key. It is not where the public key or the signature cannot be read; a
/// public key takes 32 bytes.
#[verifier::external_body]
fn verify_strict(public_key: &[u8], message: &[u8], signature: &[u8; 64]) -> (verified: bool)
    ensures
        verified == strictly_verifies(public_key@, message@, signature@),
        verified ==> public_key@.len() == 32,
{
    let signature = ed25519_dalek::Signature::from_bytes(signature);
    match (ed25519_dalek::PublicKey::from_bytes(public_key), signature) {
        (Ok(public_key), Ok(signature)) => public_key.verify_strict(message, &signature).is_ok(),
        _ => false,
    }
}

/// `serde_json::to_string` of bytes: a text from which they can be read again.
#[verifier::external_body]
fn bytes_to_json(bytes: &Vec<u8>) -> (text: String)
    ensures
        text@ == json_text(bytes@),
        json_bytes(text@) == Some(bytes@),
{
    serde_json::to_string(bytes).unwrap()
}

/// `serde_json::from_str` into bytes.
#[verifier::external_body]
fn bytes_from_json(text: &str) -> (bytes: Option<Vec<u8>>)
    ensures
        match bytes {
            Some(bytes) => json_bytes(text@) == Some(bytes@),
            None => json_bytes(text@) is None,
        },
{
    serde_json::from_str(text).ok()
}

/// `pbkdf2::pbkdf2` with HMAC-SHA512: bytes derived from a password and a salt, as many as are
/// asked for, which have to be addressable.
#[verifier::external_body]
fn derive_bytes(password: &[u8], salt: &[u8], rounds: usize, len: usize) -> (bytes: Vec<u8>)
    requires
        len <= isize::MAX,
    ensures
        bytes@ == pbkdf2_sha512(password@, salt@, rounds, len),
        bytes@.len() == len,
{
    let mut bytes = vec![0u8; len];
    pbkdf2::pbkdf2::<hmac::Hmac<sha2::Sha512>>(password, salt, rounds, &mut bytes);
    bytes
}

fn copy_32(bytes: &[u8]) -> (copy: [u8; 32])
    requires
        bytes@.len() >= 32,
    ensures
        copy@ == bytes@.subrange(0, 32),
{
    let mut copy = [0u8;32];
    let mut i: usize = 0;
    while i < 32
        invariant
            i <= 32,
            bytes@.len() >= 32,
            forall|j: int| 0 <= j < i ==> copy@[j] == bytes@[j],
        decreases 32 - i,
    {
        copy[i] = bytes[i];
        i += 1;
    }
    assert(copy@ =~= bytes@.subrange(0, 32));
    copy
}

fn copy_64(bytes: &[u8]) -> (copy: [u8; 64])
    requires
        bytes@.len() == 64,
    ensures
        copy@ == bytes@,
{
    let mut copy = [0u8;64];
    let mut i: usize = 0;
    while i < 64
        invariant
            i <= 64,
            bytes@.len() == 64,
            forall|j: int| 0 <= j < i ==> copy@[j] == bytes@[j],
        decreases 64 - i,
    {
        copy[i] = bytes[i];
        i += 1;
    }
    assert(copy@ =~= bytes@);
    copy
}

fn copy_to_vec(bytes: &[u8; 64]) -> (copy: Vec<u8>)
    ensures
        copy@ == bytes@,
{
    let mut copy: Vec<u8> = Vec::new();
    let mut i: usize = 0;
    while i < 64
        invariant
            i <= 64,
            copy@ == bytes@.take(i as int),
        decreases 64 - i,
    {
        copy.push(bytes[i]);
        i += 1;
        assert(copy@ =~= bytes@.take(i as int));
    }
    assert(copy@ =~= bytes@);
    copy
}

/// A 64-byte ed25519 signature. Its text is that of `to_base58`.
#[derive(Clone, Copy, PartialOrd, Ord, Hash)]
pub struct Signature(pub [u8; 64]);

impl View for Signature {
    type V = Seq<u8>;

    open spec fn view(&self) -> Seq<u8> {
        self.0@
    }
}

impl Default for Signature {
    fn default() -> (signature: Self)
        ensures
            signature == Signature::spec_default(),
    {
        Signature([0u8;64])
    }
}

impl PartialEq for Signature {
    fn eq(&self, other: &Self) -> (equal: bool) {
        equal_bytes(&self.0, &other.0)
    }
}

impl PartialEqSpecImpl for Signature {
    open spec fn obeys_eq_spec() -> bool {
        true
    }

    open spec fn eq_spec(&self, other: &Self) -> bool {
        *self == *other
    }
}

impl Eq for Signature {

}

/// Bytes are not a keypair, or a signature is not one of the message by the holder of the public
/// key.
#[derive(Clone, Copy, Debug, PartialEq, Eq, Structural)]
pub struct SignatureError;

/// Why a text is not a signature.
#[derive(Clone, Copy, Debug, PartialEq, Eq, Structural)]
pub enum ParseSignatureError {
    WrongSize,
    Invalid,
}

impl ParseSignatureError {
    pub open spec fn spec_message(self) -> Seq<char> {
        match self {
            ParseSignatureError::WrongSize => "string decoded to wrong size for signature"@,
            ParseSignatureError::Invalid => "failed to decode string to signature"@,
        }
    }

    /// The error in words.
    pub fn message(&self) -> (message: &'static str)
        ensures
            message@ == self.spec_message(),
    {
        match self {
            ParseSignatureError::WrongSize => "string decoded to wrong size for signature",
            ParseSignatureError::Invalid => "failed to decode string to signature",
        }
    }
}

/// The signature that a text stands for.
pub open spec fn parse_signature(text: Seq<char>) -> Result<Seq<u8>, ParseSignatureError> {
    match base58_bytes(text) {
        None => Err(ParseSignatureError::Invalid),
        Some(bytes) => if bytes.len() == 64 {
            Ok(bytes)
        } else {
            Err(ParseSignatureError::WrongSize)
        },
    }
}

impl Signature {
    /// The signature made of all zeroes.
    pub open spec fn spec_default() -> Signature {
        Signature(spec_array_fill_for_copy_type::<u8, 64>(0))
    }

    pub fn new(signature_slice: &[u8]) -> (signature: Self)
        requires
            signature_slice@.len() == 64,
        ensures
            signature@ == signature_slice@,
    {
        Signature(copy_64(signature_slice))
    }

    /// What decoding a text gave is a signature where it has the right size.
    pub fn from_decoded(decoded: Option<Vec<u8>>) -> (signature: Result<Self, ParseSignatureError>)
        ensures
            match (decoded, signature) {
                (None, Err(err)) => err == ParseSignatureError::Invalid,
                (Some(bytes), Err(err)) => bytes@.len() != 64 && err
                    == ParseSignatureError::WrongSize,
                (Some(bytes), Ok(signature)) => signature@ == bytes@,
                (None, Ok(_)) => false,
            },
    {
        match decoded {
            None => Err(ParseSignatureError::Invalid),
            Some(bytes) => {
                if bytes.len() != SIGNATURE_BYTES {
                    Err(ParseSignatureError::WrongSize)
                } else {
                    Ok(Signature::new(bytes.as_slice()))
                }
            },
        }
    }

    /// Reads a signature from its base58 text.
    pub fn parse(text: &str) -> (signature: Result<Self, ParseSignatureError>)
        ensures
            match (signature, parse_signature(text@)) {
                (Ok(signature), Ok(bytes)) => signature@ == bytes,
                (Err(err), Err(expected)) => err == expected,
                _ => false,
            },
    {
        Signature::from_decoded(base58::decode(text))
    }

    /// The base58 text of the signature, from which it can be read again.
    pub fn to_base58(&self) -> (text: String)
        ensures
            text@ == base58_text(self@),
            parse_signature(text@) == Ok::<Seq<u8>, ParseSignatureError>(self@),
    {
        base58::encode(vstd::array::array_as_slice(&self.0))
    }

    pub fn as_bytes(&self) -> (bytes: &[u8])
        ensures
            bytes@ == self@,
    {
        vstd::array::array_as_slice(&self.0)
    }

    pub fn to_bytes(self) -> (bytes: [u8; 64])
        ensures
            bytes@ == self@,
    {
        self.0
    }

    /// Checks that the signature is one of the message by the holder of the public key.
    pub fn verify_verbose(&self, pubkey_bytes: &[u8], message_bytes: &[u8]) -> (verified: Result<
        (),
        SignatureError,
    >)
        ensures
            verified is Ok <==> strictly_verifies(pubkey_bytes@, message_bytes@, self@),
            verified is Ok ==> pubkey_bytes@.len() == 32,
    {
        if verify_strict(pubkey_bytes, message_bytes, &self.0) {
            Ok(())
        } else {
            Err(SignatureError)
        }
    }

    /// Whether the signature is one of the message by the holder of the public key.
    pub fn verify(&self, pubkey_bytes: &[u8], message_bytes: &[u8]) -> (verified: bool)
        ensures
            verified == strictly_verifies(pubkey_bytes@, message_bytes@, self@),
            verified ==> pubkey_bytes@.len() == 32,
    {
        self.verify_verbose(pubkey_bytes, message_bytes).is_ok()
    }
}

impl std::str::FromStr for Signature {
    type Err = ParseSignatureError;

    fn from_str(text: &str) -> (signature: Result<Self, ParseSignatureError>)
        ensures
            match (signature, parse_signature(text@)) {
                (Ok(signature), Ok(bytes)) => signature@ == bytes,
                (Err(err), Err(expected)) => err == expected,
                _ => false,
            },
    {
        Signature::parse(text)
    }
}

/// What went wrong with a transaction.
#[derive(Clone, Debug, PartialEq)]
pub struct TransactionError(pub String);

#[derive(Clone, Copy, Debug, PartialEq, Eq, Structural)]
pub enum PresignerError {
    VerificationFailure,
}

impl PresignerError {
    /// The error in words.
    pub fn message(&self) -> (message: &'static str)
        ensures
            message@ == "pre-generated signature cannot verify data"@,
    {
        "pre-generated signature cannot verify data"
    }
}

/// Why a signer could not sign.
#[derive(Debug, PartialEq)]
pub enum SignerError {
    KeypairPubkeyMismatch,
    NotEnoughSigners,
    TransactionError(TransactionError),
    Custom(String),
    // Presigner-specific Errors
    PresignerError(PresignerError),
    // Remote Keypair-specific Errors
    Connection(String),
    InvalidInput(String),
    NoDeviceFound,
    Protocol(String),
    UserCancel(String),
}

impl SignerError {
    pub open spec fn spec_message(self) -> Seq<char> {
        match self {
            SignerError::KeypairPubkeyMismatch => "keypair-pubkey mismatch"@,
            SignerError::NotEnoughSigners => "not enough signers"@,
            SignerError::TransactionError(_) => "transaction error"@,
            SignerError::Custom(reason) => "custom error: "@ + reason@,
            SignerError::PresignerError(_) => "presigner error"@,
            SignerError::Connection(reason) => "connection error: "@ + reason@,
            SignerError::InvalidInput(reason) => "invalid input: "@ + reason@,
            SignerError::NoDeviceFound => "no device found"@,
            SignerError::Protocol(reason) => reason@,
            SignerError::UserCancel(reason) => reason@,
        }
    }

    /// The error in words.
    pub fn message(&self) -> (message: String)
        ensures
            message@ == self.spec_message(),
    {
        match self {
            SignerError::KeypairPubkeyMismatch => "keypair-pubkey mismatch".to_owned(),
            SignerError::NotEnoughSigners => "not enough signers".to_owned(),
            SignerError::TransactionError(_) => "transaction error".to_owned(),
            SignerError::Custom(reason) => "custom error: ".to_owned().concat(reason.as_str()),
            SignerError::PresignerError(_) => "presigner error".to_owned(),
            SignerError::Connection(reason) => {
                "connection error: ".to_owned().concat(reason.as_str())
            },
            SignerError::InvalidInput(reason) => {
                "invalid input: ".to_owned().concat(reason.as_str())
            },
            SignerError::NoDeviceFound => "no device found".to_owned(),
            SignerError::Protocol(reason) => reason.clone(),
            SignerError::UserCancel(reason) => reason.clone(),
        }
    }
}

/// The public key of a signer that may not tell it.
pub fn pubkey_or_default(pubkey: Result<Pubkey, SignerError>) -> (known: Pubkey)
    ensures
        match pubkey {
            Ok(pubkey) => known == pubkey,
            Err(_) => known == Pubkey::spec_default(),
        },
{
    match pubkey {
        Ok(pubkey) => pubkey,
        Err(_) => Pubkey::default(),
    }
}

/// The signature of a signer that may not sign.
pub fn signature_or_default(signature: Result<Signature, SignerError>) -> (given: Signature)
    ensures
        match signature {
            Ok(signature) => given == signature,
            Err(_) => given == Signature::spec_default(),
        },
{
    match signature {
        Ok(signature) => signature,
        Err(_) => Signature::default(),
    }
}

/// Someone who can sign.
pub trait Signer {
    /// The public key of the signer, if it can be told.
    closed spec fn spec_try_pubkey(&self) -> Option<Seq<u8>> {
        arbitrary()
    }

    fn try_pubkey(&self) -> (pubkey: Result<Pubkey, SignerError>)
        ensures
            match (pubkey, self.spec_try_pubkey()) {
                (Ok(pubkey), Some(bytes)) => pubkey@ == bytes,
                (Err(_), None) => true,
                _ => false,
            },
    ;

    /// The public key of the signer, or else the default one.
    fn pubkey(&self) -> (pubkey: Pubkey)
        ensures
            pubkey@ == known_pubkey(self.spec_try_pubkey()),
    {
        pubkey_or_default(self.try_pubkey())
    }

    /// Whether an attempt to sign a message can end with an outcome. A signer that does not say
    /// can end with any.
    closed spec fn can_end_with(
        &self,
        message: Seq<u8>,
        outcome: Result<Signature, SignerError>,
    ) -> bool {
        true
    }

    fn try_sign_message(&self, message: &[u8]) -> (outcome: Result<Signature, SignerError>)
        ensures
            self.can_end_with(message@, outcome),
    ;

    /// The signature that an attempt to sign a message ended with, or else the default one.
    fn sign_message(&self, message: &[u8]) -> (signature: Signature)
        ensures
            exists|outcome: Result<Signature, SignerError>| #[trigger]
                self.can_end_with(message@, outcome) && signature == given_signature(outcome),
    {
        signature_or_default(self.try_sign_message(message))
    }
}

/// The signature that an attempt to sign ended with, or else the default one.
pub open spec fn given_signature(outcome: Result<Signature, SignerError>) -> Signature {
    match outcome {
        Ok(signature) => signature,
        Err(_) => Signature::spec_default(),
    }
}

/// A public key, or else the default one.
pub open spec fn known_pubkey(pubkey: Option<Seq<u8>>) -> Seq<u8> {
    match pubkey {
        Some(bytes) => bytes,
        None => Pubkey::spec_default()@,
    }
}

/// An ed25519 keypair: the secret key followed by the public key.
#[derive(Debug)]
pub struct Keypair {
    bytes: [u8; 64],
}

impl View for Keypair {
    type V = Seq<u8>;

    closed spec fn view(&self) -> Seq<u8> {
        self.bytes@
    }
}

impl Keypair {
    #[verifier::type_invariant]
    spec fn valid(self) -> bool {
        is_keypair(self.bytes@)
    }

    pub open spec fn spec_secret(&self) -> Seq<u8> {
        self@.subrange(0, 32)
    }

    pub open spec fn spec_pubkey(&self) -> Seq<u8> {
        self@.subrange(32, 64)
    }

    /// The keypair of a secret key that was drawn at random.
    pub fn generate(secret: [u8; 32]) -> (keypair: Self)
        ensures
            is_keypair(keypair@),
            keys_match(keypair@),
            keypair@ == secret@ + public_key_of(secret@),
    {
        let public_key = derive_public_key(&secret);
        let mut bytes = [0u8;64];
        let mut i: usize = 0;
        while i < 32
            invariant
                i <= 32,
                forall|j: int| 0 <= j < i ==> bytes@[j] == secret@[j],
                forall|j: int| 0 <= j < i ==> bytes@[32 + j] == public_key@[j],
            decreases 32 - i,
        {
            bytes[i] = secret[i];
            bytes[32 + i] = public_key[i];
            i += 1;
        }
        assert(bytes@ =~= secret@ + public_key@);
        assert(bytes@.subrange(0, 32) =~= secret@);
        assert(bytes@.subrange(32, 64) =~= public_key@);
        Keypair { bytes }
    }

    /// Return a new ED25519 keypair
    pub fn new() -> (keypair: Self)
        ensures
            is_keypair(keypair@),
            keys_match(keypair@),
    {
        Keypair { bytes: generate_keypair() }
    }

    pub fn from_bytes(bytes: &[u8]) -> (keypair: Result<Self, SignatureError>)
        ensures
            keypair is Ok <==> is_keypair(bytes@),
            keypair matches Ok(keypair) ==> keypair@ == bytes@,
    {
        if check_keypair(bytes) {
            Ok(Keypair { bytes: copy_64(bytes) })
        } else {
            Err(SignatureError)
        }
    }

    pub fn to_bytes(&self) -> (bytes: [u8; 64])
        ensures
            bytes@ == self@,
            is_keypair(bytes@),
    {
        proof {
            use_type_invariant(self);
        }
        self.bytes
    }

    /// Reads a keypair from its base58 text, which has to be one.
    pub fn from_base58_string(s: &str) -> (keypair: Self)
        requires
            base58_bytes(s@) is Some,
            is_keypair(base58_bytes(s@)->Some_0),
        ensures
            keypair@ == base58_bytes(s@)->Some_0,
    {
        let bytes = base58::decode(s).unwrap();
        Keypair::from_bytes(bytes.as_slice()).unwrap()
    }

    /// Reads a keypair from a text, if it is the base58 text of one.
    pub fn try_from_base58_string(s: &str) -> (keypair: Option<Self>)
        ensures
            keypair is Some <==> base58_bytes(s@) is Some && is_keypair(base58_bytes(s@)->Some_0),
            keypair matches Some(keypair) ==> keypair@ == base58_bytes(s@)->Some_0,
    {
        match base58::decode(s) {
            Some(bytes) => {
                if check_keypair(bytes.as_slice()) {
                    Some(Keypair::from_base58_string(s))
                } else {
                    None
                }
            },
            None => None,
        }
    }

    /// The base58 text of the keypair, from which it can be read again.
    pub fn to_base58_string(&self) -> (text: String)
        ensures
            text@ == base58_text(self@),
            base58_bytes(text@) == Some(self@),
            is_keypair(base58_bytes(text@)->Some_0),
    {
        proof {
            use_type_invariant(self);
        }
        base58::encode(vstd::array::array_as_slice(&self.bytes))
    }

    pub fn secret(&self) -> (secret: [u8; 32])
        ensures
            secret@ == self.spec_secret(),
    {
        copy_32(vstd::array::array_as_slice(&self.bytes))
    }
}

impl Signer for Keypair {
    open spec fn spec_try_pubkey(&self) -> Option<Seq<u8>> {
        Some(self.spec_pubkey())
    }

    open spec fn can_end_with(
        &self,
        message: Seq<u8>,
        outcome: Result<Signature, SignerError>,
    ) -> bool {
        outcome matches Ok(signature) && signature@ == ed25519_signature(self@, message)
    }

    /// Return the public key for the given keypair
    fn pubkey(&self) -> (pubkey: Pubkey) {
        let public_key = vstd::slice::slice_subrange(
            vstd::array::array_as_slice(&self.bytes),
            32,
            64,
        );
        Pubkey::new(public_key)
    }

    fn try_pubkey(&self) -> (pubkey: Result<Pubkey, SignerError>) {
        Ok(self.pubkey())
    }

    /// The signature of a message, which verifies with the public key.
    fn sign_message(&self, message: &[u8]) -> (signature: Signature)
        ensures
            signature@ == ed25519_signature(self@, message@),
            keys_match(self@) && has_proper_point(signature@) ==> strictly_verifies(
                self.spec_pubkey(),
                message@,
                signature@,
            ),
    {
        proof {
            use_type_invariant(self);
        }
        let signature = Signature(sign_with(&self.bytes, message));
        assert(self.can_end_with(message@, Ok(signature)));
        signature
    }

    fn try_sign_message(&self, message: &[u8]) -> (signature: Result<Signature, SignerError>)
        ensures
            signature matches Ok(signature) && signature@ == ed25519_signature(self@, message@) && (
            keys_match(self@) && has_proper_point(signature@) ==> strictly_verifies(
                self.spec_pubkey(),
                message@,
                signature@,
            )),
    {
        Ok(self.sign_message(message))
    }
}

/// A signature that was made before.
#[derive(Clone, Copy)]
pub struct Presigner {
    pubkey: Pubkey,
    signature: Signature,
}

impl Presigner {
    pub closed spec fn spec_pubkey(&self) -> Pubkey {
        self.pubkey
    }

    pub closed spec fn spec_signature(&self) -> Signature {
        self.signature
    }

    pub fn new(pubkey: &Pubkey, signature: &Signature) -> (presigner: Self)
        ensures
            presigner.spec_pubkey() == *pubkey,
            presigner.spec_signature() == *signature,
    {
        Presigner { pubkey: *pubkey, signature: *signature }
    }

    /// The signature, where it was found to verify a message.
    pub fn signature_if(&self, verified: bool) -> (signature: Result<Signature, SignerError>)
        ensures
            signature == (if verified {
                Ok(self.spec_signature())
            } else {
                Err(SignerError::PresignerError(PresignerError::VerificationFailure))
            }),
    {
        if verified {
            Ok(self.signature)
        } else {
            Err(SignerError::PresignerError(PresignerError::VerificationFailure))
        }
    }
}

impl Default for Presigner {
    fn default() -> (presigner: Self)
        ensures
            presigner.spec_pubkey() == Pubkey::spec_default(),
            presigner.spec_signature() == Signature::spec_default(),
    {
        Presigner { pubkey: Pubkey::default(), signature: Signature::default() }
    }
}

impl Signer for Presigner {
    open spec fn spec_try_pubkey(&self) -> Option<Seq<u8>> {
        Some(self.spec_pubkey()@)
    }

    open spec fn can_end_with(
        &self,
        message: Seq<u8>,
        outcome: Result<Signature, SignerError>,
    ) -> bool {
        outcome == (if strictly_verifies(self.spec_pubkey()@, message, self.spec_signature()@) {
            Ok(self.spec_signature())
        } else {
            Err(SignerError::PresignerError(PresignerError::VerificationFailure))
        })
    }

    fn try_pubkey(&self) -> (pubkey: Result<Pubkey, SignerError>) {
        Ok(self.pubkey)
    }

    fn try_sign_message(&self, message: &[u8]) -> (signature: Result<Signature, SignerError>)
        ensures
            signature == (if strictly_verifies(
                self.spec_pubkey()@,
                message@,
                self.spec_signature()@,
            ) {
                Ok(self.spec_signature())
            } else {
                Err(SignerError::PresignerError(PresignerError::VerificationFailure))
            }),
    {
        self.signature_if(self.signature.verify(self.pubkey.as_bytes(), message))
    }

    fn sign_message(&self, message: &[u8]) -> (signature: Signature)
        ensures
            signature == (if strictly_verifies(
                self.spec_pubkey()@,
                message@,
                self.spec_signature()@,
            ) {
                self.spec_signature()
            } else {
                Signature::spec_default()
            }),
    {
        signature_or_default(self.try_sign_message(message))
    }
}

/// NullSigner - A `Signer` implementation that always produces `Signature::default()`.
/// Used as a placeholder for absentee signers whose 'Pubkey` is required to construct
/// the transaction
#[derive(Clone, Copy, Debug)]
pub struct NullSigner {
    pubkey: Pubkey,
}

impl NullSigner {
    pub closed spec fn spec_pubkey(&self) -> Pubkey {
        self.pubkey
    }

    pub fn new(pubkey: &Pubkey) -> (signer: Self)
        ensures
            signer.spec_pubkey() == *pubkey,
    {
        NullSigner { pubkey: *pubkey }
    }
}

impl Default for NullSigner {
    fn default() -> (signer: Self)
        ensures
            signer.spec_pubkey() == Pubkey::spec_default(),
    {
        NullSigner { pubkey: Pubkey::default() }
    }
}

impl Signer for NullSigner {
    open spec fn spec_try_pubkey(&self) -> Option<Seq<u8>> {
        Some(self.spec_pubkey()@)
    }

    open spec fn can_end_with(
        &self,
        message: Seq<u8>,
        outcome: Result<Signature, SignerError>,
    ) -> bool {
        outcome == Ok::<Signature, SignerError>(Signature::spec_default())
    }

    fn try_pubkey(&self) -> (pubkey: Result<Pubkey, SignerError>) {
        Ok(self.pubkey)
    }

    fn try_sign_message(&self, _message: &[u8]) -> (signature: Result<Signature, SignerError>)
        ensures
            signature == Ok::<Signature, SignerError>(Signature::spec_default()),
    {
        Ok(Signature::default())
    }

    fn sign_message(&self, message: &[u8]) -> (signature: Signature)
        ensures
            signature == Signature::spec_default(),
    {
        signature_or_default(self.try_sign_message(message))
    }
}

/// Whether two signers have the same public key.
pub fn same_signer<S: Signer, T: Signer>(signer: &S, other: &T) -> (same: bool)
    ensures
        same == (known_pubkey(signer.spec_try_pubkey()) == known_pubkey(other.spec_try_pubkey())),
{
    let (pubkey, other_pubkey) = (signer.pubkey(), other.pubkey());
    equal_bytes(&pubkey.0, &other_pubkey.0)
}

impl<T: Signer> PartialEq<T> for Keypair {
    fn eq(&self, other: &T) -> (equal: bool) {
        same_signer(self, other)
    }
}

impl<T: Signer> PartialEqSpecImpl<T> for Keypair {
    open spec fn obeys_eq_spec() -> bool {
        true
    }

    open spec fn eq_spec(&self, other: &T) -> bool {
        self.spec_pubkey() == known_pubkey(other.spec_try_pubkey())
    }
}

impl<T: Signer> PartialEq<T> for Presigner {
    fn eq(&self, other: &T) -> (equal: bool) {
        same_signer(self, other)
    }
}

impl<T: Signer> PartialEqSpecImpl<T> for Presigner {
    open spec fn obeys_eq_spec() -> bool {
        true
    }

    open spec fn eq_spec(&self, other: &T) -> bool {
        self.spec_pubkey()@ == known_pubkey(other.spec_try_pubkey())
    }
}

impl<T: Signer> PartialEq<T> for NullSigner {
    fn eq(&self, other: &T) -> (equal: bool) {
        same_signer(self, other)
    }
}

impl<T: Signer> PartialEqSpecImpl<T> for NullSigner {
    open spec fn obeys_eq_spec() -> bool {
        true
    }

    open spec fn eq_spec(&self, other: &T) -> bool {
        self.spec_pubkey()@ == known_pubkey(other.spec_try_pubkey())
    }
}

/// The items of a list, each at the first place where it stands.
pub open spec fn first_occurrences(keys: Seq<Seq<u8>>) -> Seq<Seq<u8>>
    decreases keys.len(),
{
    if keys.len() == 0 {
        Seq::empty()
    } else {
        let rest = first_occurrences(keys.drop_last());
        if rest.contains(keys.last()) {
            rest
        } else {
            rest.push(keys.last())
        }
    }
}

/// The positions at which the items of a list stand first.
pub open spec fn first_positions(keys: Seq<Seq<u8>>) -> Seq<usize>
    decreases keys.len(),
{
    if keys.len() == 0 {
        Seq::empty()
    } else {
        let rest = first_positions(keys.drop_last());
        if first_occurrences(keys.drop_last()).contains(keys.last()) {
            rest
        } else {
            rest.push((keys.len() - 1) as usize)
        }
    }
}

/// The bytes of public keys.
pub open spec fn key_bytes(pubkeys: Seq<Pubkey>) -> Seq<Seq<u8>> {
    pubkeys.map_values(|pubkey: Pubkey| pubkey@)
}

proof fn lemma_first_positions(keys: Seq<Seq<u8>>)
    requires
        keys.len() <= usize::MAX,
    ensures
        first_positions(keys).len() == first_occurrences(keys).len(),
        forall|i: int|
            0 <= i < first_positions(keys).len() ==> {
                &&& (#[trigger] first_positions(keys)[i]) < keys.len()
                &&& keys[first_positions(keys)[i] as int] == first_occurrences(keys)[i]
            },
    decreases keys.len(),
{
    if keys.len() > 0 {
        lemma_first_positions(keys.drop_last());
    }
}

fn find_first_positions(pubkeys: &Vec<Pubkey>) -> (positions: Vec<usize>)
    ensures
        positions@ == first_positions(key_bytes(pubkeys@)),
{
    let ghost keys = key_bytes(pubkeys@);
    let mut positions: Vec<usize> = Vec::new();
    let mut i: usize = 0;
    assert(keys.take(0) =~= Seq::empty());
    while i < pubkeys.len()
        invariant
            i <= pubkeys@.len(),
            keys == key_bytes(pubkeys@),
            positions@ == first_positions(keys.take(i as int)),
        decreases pubkeys@.len() - i,
    {
        let ghost front = keys.take(i as int);
        let ghost key = keys[i as int];
        proof {
            assert(keys.take(i + 1).drop_last() =~= front);
            lemma_first_positions(front);
        }
        let mut seen = false;
        let mut j: usize = 0;
        while j < positions.len()
            invariant
                j <= positions@.len(),
                i < pubkeys@.len(),
                keys == key_bytes(pubkeys@),
                key == keys[i as int],
                front == keys.take(i as int),
                positions@ == first_positions(front),
                positions@.len() == first_occurrences(front).len(),
                forall|k: int|
                    0 <= k < positions@.len() ==> (#[trigger] positions@[k]) < front.len()
                        && front[positions@[k] as int] == first_occurrences(front)[k],
                seen ==> first_occurrences(front).contains(key),
                !seen ==> forall|k: int|
                    0 <= k < j ==> (#[trigger] first_occurrences(front)[k]) != key,
            decreases positions@.len() - j,
        {
            let known = positions[j];
            assert(first_occurrences(front)[j as int] == pubkeys@[known as int]@);
            if equal_bytes(&pubkeys[known].0, &pubkeys[i].0) {
                seen = true;
            }
            j += 1;
        }
        if !seen {
            positions.push(i);
        }
        i += 1;
    }
    assert(keys.take(i as int) =~= keys);
    positions
}

/// The items at the given positions.
pub open spec fn items_at<T>(items: Seq<T>, positions: Seq<usize>) -> Seq<T> {
    positions.map_values(|position: usize| items[position as int])
}

fn select<T: Copy>(items: &Vec<T>, positions: &Vec<usize>) -> (selected: Vec<T>)
    requires
        forall|i: int| 0 <= i < positions@.len() ==> (#[trigger] positions@[i]) < items@.len(),
    ensures
        selected@ == items_at(items@, positions@),
{
    let mut selected: Vec<T> = Vec::new();
    let mut i: usize = 0;
    while i < positions.len()
        invariant
            i <= positions@.len(),
            forall|i: int| 0 <= i < positions@.len() ==> (#[trigger] positions@[i]) < items@.len(),
            selected@ == items_at(items@, positions@.take(i as int)),
        decreases positions@.len() - i,
    {
        selected.push(items[positions[i]]);
        i += 1;
        assert(selected@ =~= items_at(items@, positions@.take(i as int)));
    }
    assert(positions@.take(i as int) =~= positions@);
    selected
}

/// The public keys of signers.
fn collect_pubkeys(signers: &Vec<&dyn Signer>) -> (pubkeys: Vec<Pubkey>)
    ensures
        pubkeys@.len() == signers@.len(),
        forall|i: int|
            0 <= i < signers@.len() ==> #[trigger] pubkeys@[i]@ == known_pubkey(
                signers@[i].spec_try_pubkey(),
            ),
{
    let mut pubkeys: Vec<Pubkey> = Vec::new();
    let mut i: usize = 0;
    while i < signers.len()
        invariant
            i <= signers@.len(),
            pubkeys@.len() == i,
            forall|j: int|
                0 <= j < i ==> #[trigger] pubkeys@[j]@ == known_pubkey(
                    signers@[j].spec_try_pubkey(),
                ),
        decreases signers@.len() - i,
    {
        pubkeys.push(signers[i].pubkey());
        i += 1;
    }
    pubkeys
}

/// Remove duplicates signers while preserving order. O(n^2)
pub fn unique_signers<'a>(signers: Vec<&'a dyn Signer>) -> (unique: Vec<&'a dyn Signer>)
    ensures
        exists|keys: Seq<Seq<u8>>|
            {
                &&& keys.len() == signers@.len()
                &&& forall|i: int|
                    0 <= i < signers@.len() ==> #[trigger] keys[i] == known_pubkey(
                        signers@[i].spec_try_pubkey(),
                    )
                &&& unique@ == items_at(signers@, #[trigger] first_positions(keys))
            },
{
    let pubkeys = collect_pubkeys(&signers);
    let ghost keys = key_bytes(pubkeys@);
    proof {
        lemma_first_positions(keys);
    }
    let positions = find_first_positions(&pubkeys);
    assert(forall|i: int| 0 <= i < signers@.len() ==> #[trigger] keys[i] == pubkeys@[i]@);
    select(&signers, &positions)
}

/// The signers that are kept have the public keys of all of them, each once, in the order in
/// which they first stand.
pub proof fn law_unique_signers_keep_first_occurrences(keys: Seq<Seq<u8>>)
    requires
        keys.len() <= usize::MAX,
    ensures
        items_at(keys, first_positions(keys)) == first_occurrences(keys),
{
    lemma_first_positions(keys);
    assert(items_at(keys, first_positions(keys)) =~= first_occurrences(keys));
}

/// Without duplicates every public key stands in the list once, and each that was in it still
/// does.
pub proof fn law_first_occurrences(keys: Seq<Seq<u8>>)
    ensures
        first_occurrences(keys).no_duplicates(),
        forall|key: Seq<u8>| #[trigger]
            first_occurrences(keys).contains(key) <==> keys.contains(key),
    decreases keys.len(),
{
    if keys.len() > 0 {
        let shorter = keys.drop_last();
        law_first_occurrences(shorter);
        let rest = first_occurrences(shorter);
        let all = first_occurrences(keys);
        assert forall|key: Seq<u8>| #[trigger] all.contains(key) <==> keys.contains(key) by {
            if keys.contains(key) {
                let i = choose|i: int| 0 <= i < keys.len() && keys[i] == key;
                if i < shorter.len() {
                    assert(shorter[i] == key);
                    assert(rest.contains(key));
                    let j = choose|j: int| 0 <= j < rest.len() && rest[j] == key;
                    assert(all[j] == key);
                } else if rest.contains(key) {
                    assert(all == rest);
                } else {
                    assert(all[all.len() - 1] == key);
                }
            } else if all.contains(key) {
                let j = choose|j: int| 0 <= j < all.len() && all[j] == key;
                if j < rest.len() {
                    assert(rest[j] == key);
                    assert(rest.contains(key));
                    assert(shorter.contains(key));
                    let i = choose|i: int| 0 <= i < shorter.len() && shorter[i] == key;
                    assert(keys[i] == key);
                } else {
                    assert(keys[keys.len() - 1] == key);
                }
            }
        }
    }
}

/// Something that can be signed.
pub trait Signable {
    closed spec fn spec_pubkey(&self) -> Pubkey {
        arbitrary()
    }

    closed spec fn spec_data(&self) -> Seq<u8> {
        arbitrary()
    }

    closed spec fn spec_signature(&self) -> Signature {
        arbitrary()
    }

    fn pubkey(&self) -> (pubkey: Pubkey)
        ensures
            pubkey == self.spec_pubkey(),
    ;

    fn signable_data(&self) -> (data: Vec<u8>)
        ensures
            data@ == self.spec_data(),
    ;

    fn get_signature(&self) -> (signature: Signature)
        ensures
            signature == self.spec_signature(),
    ;

    fn set_signature(&mut self, signature: Signature)
        ensures
            final(self).spec_signature() == signature,
            final(self).spec_data() == old(self).spec_data(),
            final(self).spec_pubkey() == old(self).spec_pubkey(),
    ;

    /// Sets the signature that a keypair gives for the data. What is signed with the keypair of
    /// its public key verifies.
    fn sign(&mut self, keypair: &Keypair)
        ensures
            final(self).spec_signature()@ == ed25519_signature(keypair@, old(self).spec_data()),
            final(self).spec_data() == old(self).spec_data(),
            final(self).spec_pubkey() == old(self).spec_pubkey(),
            keys_match(keypair@) && keypair.spec_pubkey() == old(self).spec_pubkey()@
                && has_proper_point(final(self).spec_signature()@) ==> strictly_verifies(
                final(self).spec_pubkey()@,
                final(self).spec_data(),
                final(self).spec_signature()@,
            ),
    {
        let data = self.signable_data();
        let signature = keypair.sign_message(data.as_slice());
        self.set_signature(signature);
    }

    /// Whether the signature is one of the data by the holder of the public key.
    fn verify(&self) -> (verified: bool)
        ensures
            verified == strictly_verifies(
                self.spec_pubkey()@,
                self.spec_data(),
                self.spec_signature()@,
            ),
    {
        let data = self.signable_data();
        self.get_signature().verify(self.pubkey().as_bytes(), data.as_slice())
    }
}

/// Why a keypair cannot be read.
#[derive(Clone, Copy, Debug, PartialEq, Eq, Structural)]
pub enum ReadKeypairError {
    /// the text is no list of bytes
    InvalidJson,
    /// the bytes are no keypair
    InvalidKeypair,
}

/// The keypair in a text.
pub open spec fn keypair_in(text: Seq<char>) -> Result<Seq<u8>, ReadKeypairError> {
    match json_bytes(text) {
        None => Err(ReadKeypairError::InvalidJson),
        Some(bytes) => if is_keypair(bytes) {
            Ok(bytes)
        } else {
            Err(ReadKeypairError::InvalidKeypair)
        },
    }
}

/// What was read from a text is a keypair where the bytes are one.
pub fn keypair_from_read(read: Option<Vec<u8>>) -> (keypair: Result<Keypair, ReadKeypairError>)
    ensures
        match read {
            None => keypair matches Err(err) && err == ReadKeypairError::InvalidJson,
            Some(bytes) => match keypair {
                Ok(keypair) => is_keypair(bytes@) && keypair@ == bytes@,
                Err(err) => !is_keypair(bytes@) && err == ReadKeypairError::InvalidKeypair,
            },
        },
{
    match read {
        None => Err(ReadKeypairError::InvalidJson),
        Some(bytes) => match Keypair::from_bytes(bytes.as_slice()) {
            Ok(keypair) => Ok(keypair),
            Err(_) => Err(ReadKeypairError::InvalidKeypair),
        },
    }
}

/// Reads a keypair from the text of a keypair file.
pub fn read_keypair(text: &str) -> (keypair: Result<Keypair, ReadKeypairError>)
    ensures
        match (keypair, keypair_in(text@)) {
            (Ok(keypair), Ok(bytes)) => keypair@ == bytes,
            (Err(err), Err(expected)) => err == expected,
            _ => false,
        },
{
    keypair_from_read(bytes_from_json(text))
}

/// The text of a keypair file, from which the keypair can be read again.
pub fn write_keypair(keypair: &Keypair) -> (text: String)
    ensures
        text@ == json_text(keypair@),
        keypair_in(text@) == Ok::<Seq<u8>, ReadKeypairError>(keypair@),
{
    let bytes = keypair.to_bytes();
    bytes_to_json(&copy_to_vec(&bytes))
}

/// The seed is shorter than a secret key.
#[derive(Clone, Copy, Debug, PartialEq, Eq, Structural)]
pub struct SeedTooShort;

impl SeedTooShort {
    /// The error in words.
    pub fn message(&self) -> (message: &'static str)
        ensures
            message@ == "Seed is too short"@,
    {
        "Seed is too short"
    }
}

/// The keypair whose secret key is the start of a seed.
pub fn keypair_from_seed(seed: &[u8]) -> (keypair: Result<Keypair, SeedTooShort>)
    ensures
        keypair is Ok <==> seed@.len() >= 32,
        keypair matches Ok(keypair) ==> keys_match(keypair@) && keypair@ == seed@.subrange(0, 32)
            + public_key_of(seed@.subrange(0, 32)),
{
    if seed.len() < SECRET_KEY_BYTES {
        return Err(SeedTooShort);
    }
    Ok(Keypair::generate(copy_32(seed)))
}

/// The seed that a seed phrase and a passphrase stand for.
pub open spec fn phrase_seed(
    seed_phrase: Seq<char>,
    passphrase: Seq<char>,
    rounds: usize,
    len: usize,
) -> Seq<u8> {
    pbkdf2_sha512(
        encode_utf8(seed_phrase),
        encode_utf8("mnemonic"@ + passphrase),
        rounds,
        len,
    )
}

/// The keypair of a seed that is derived from a seed phrase and a passphrase, in as many
/// rounds and to as many bytes as given.
pub fn keypair_from_seed_phrase_and_passphrase(
    seed_phrase: &str,
    passphrase: &str,
    rounds: usize,
    len: usize,
) -> (keypair: Result<Keypair, SeedTooShort>)
    requires
        len <= isize::MAX,
    ensures
        keypair is Ok <==> len >= 32,
        keypair matches Ok(keypair) ==> {
            let secret = phrase_seed(seed_phrase@, passphrase@, rounds, len).subrange(0, 32);
            keys_match(keypair@) && keypair@ == secret + public_key_of(secret)
        },
{
    let salt = "mnemonic".to_owned().concat(passphrase);
    let seed = derive_bytes(seed_phrase.as_bytes(), salt.as_str().as_bytes(), rounds, len);
    keypair_from_seed(seed.as_slice())
}

/// The default signature is made of zeroes.
pub proof fn law_default_signature_is_zero()
    ensures
        Signature::spec_default()@ == Seq::new(64, |i: int| 0u8),
{
    assert(Signature::spec_default()@ =~= Seq::new(64, |i: int| 0u8));
}

/// A text stands for a signature exactly where it is the base58 text of 64 bytes, and then for
/// these; base58 of any other length has the wrong size, and anything else is not valid.
pub proof fn law_signature_is_base58_of_its_bytes(text: Seq<char>, bytes: Seq<u8>)
    ensures
        parse_signature(text) == Ok::<Seq<u8>, ParseSignatureError>(bytes) <==> base58_bytes(text)
            == Some(bytes) && bytes.len() == 64,
        parse_signature(text) == Err::<Seq<u8>, ParseSignatureError>(
            ParseSignatureError::WrongSize,
        ) <==> (base58_bytes(text) matches Some(other) && other.len() != 64),
        parse_signature(text) == Err::<Seq<u8>, ParseSignatureError>(ParseSignatureError::Invalid)
            <==> base58_bytes(text) is None,
{
}

/// A keypair is in a text exactly where the text is a list of bytes and these are a keypair; a
/// list of other bytes is no keypair, and any other text no list.
pub proof fn law_keypair_is_a_list_of_its_bytes(text: Seq<char>, bytes: Seq<u8>)
    ensures
        keypair_in(text) == Ok::<Seq<u8>, ReadKeypairError>(bytes) <==> json_bytes(text) == Some(
            bytes,
        ) && is_keypair(bytes),
        keypair_in(text) == Err::<Seq<u8>, ReadKeypairError>(ReadKeypairError::InvalidKeypair)
            <==> (json_bytes(text) matches Some(other) && !is_keypair(other)),
        keypair_in(text) == Err::<Seq<u8>, ReadKeypairError>(ReadKeypairError::InvalidJson)
            <==> json_bytes(text) is None,
{
}

/// A signer is kept exactly where no signer before it has the same public key, and those that are
/// kept stay in order.
pub proof fn law_signers_are_kept_once(keys: Seq<Seq<u8>>)
    requires
        keys.len() <= usize::MAX,
    ensures
        forall|position: usize| #[trigger]
            first_positions(keys).contains(position) <==> position < keys.len() && forall|i: int|
                0 <= i < position ==> #[trigger] keys[i] != keys[position as int],
        forall|i: int, j: int|
            0 <= i < j < first_positions(keys).len() ==> (#[trigger] first_positions(keys)[i]) < (
            #[trigger] first_positions(keys)[j]),
    decreases keys.len(),
{
    if keys.len() > 0 {
        let shorter = keys.drop_last();
        let rest = first_positions(shorter);
        let all = first_positions(keys);
        law_signers_are_kept_once(shorter);
        law_first_occurrences(shorter);
        lemma_first_positions(shorter);
        assert(shorter.contains(keys.last()) <==> exists|i: int|
            0 <= i < shorter.len() && #[trigger] keys[i] == keys.last()) by {
            if shorter.contains(keys.last()) {
                let i = choose|i: int| 0 <= i < shorter.len() && shorter[i] == keys.last();
                assert(keys[i] == keys.last());
            }
            if exists|i: int| 0 <= i < shorter.len() && #[trigger] keys[i] == keys.last() {
                let i = choose|i: int| 0 <= i < shorter.len() && #[trigger] keys[i] == keys.last();
                assert(shorter[i] == keys.last());
            }
        }
        assert forall|position: usize| #[trigger]
            all.contains(position) <==> position < keys.len() && forall|i: int|
                0 <= i < position ==> #[trigger] keys[i] != keys[position as int] by {
            if rest.contains(position) {
                let k = choose|k: int| 0 <= k < rest.len() && rest[k] == position;
                assert(all[k] == position);
                assert forall|i: int| 0 <= i < position implies #[trigger] keys[i]
                    != keys[position as int] by {
                    assert(shorter[i] != shorter[position as int]);
                }
            } else if position < shorter.len() {
                let i = choose|i: int|
                    0 <= i < position && #[trigger] shorter[i] == shorter[position as int];
                assert(keys[i] == keys[position as int]);
            }
            if all.contains(position) {
                let k = choose|k: int| 0 <= k < all.len() && all[k] == position;
                if k < rest.len() {
                    assert(rest[k] == position);
                } else {
                    assert(position == keys.len() - 1);
                    assert forall|i: int| 0 <= i < position implies #[trigger] keys[i]
                        != keys[position as int] by {
                        assert(shorter[i] == keys[i]);
                    }
                }
            }
            if position == keys.len() - 1 && forall|i: int|
                0 <= i < position ==> #[trigger] keys[i] != keys[position as int] {
                assert(all[all.len() - 1] == position);
            }
        }
        assert forall|i: int| 0 <= i < rest.len() implies (#[trigger] rest[i]) < shorter.len() by {
            assert(rest.contains(rest[i]));
        }
    }
}

/// A signer that does not tell its public key counts with the key of zeroes, and one that does
/// not sign gives the signature of zeroes.
pub proof fn law_defaults_stand_in(pubkey: Option<Seq<u8>>, outcome: Result<Signature, SignerError>)
    ensures
        pubkey is Some ==> known_pubkey(pubkey) == pubkey->Some_0,
        pubkey is None ==> known_pubkey(pubkey) == Seq::new(32, |i: int| 0u8),
        outcome is Ok ==> given_signature(outcome) == outcome->Ok_0,
        outcome is Err ==> given_signature(outcome)@ == Seq::new(64, |i: int| 0u8),
{
    law_default_signature_is_zero();
    crate::pubkey::law_default_pubkey_is_zero();
}

/// Signatures are equal exactly where all of their bytes are.
pub proof fn law_equal_signatures_have_equal_bytes(signature: Signature, other: Signature)
    ensures
        PartialEqSpec::eq_spec(&signature, &other) <==> signature@ == other@,
        signature == other <==> signature@ == other@,
        signature@.len() == 64,
{
    if signature@ == other@ {
        assert(signature.0 =~= other.0);
    }
}

/// A signer is equal to another one exactly where both have the same public key, whatever else
/// they hold; one that does not tell its key counts with the key of zeroes.
pub proof fn law_signers_are_equal_by_public_key<T: Signer>(
    keypair: Keypair,
    presigner: Presigner,
    null_signer: NullSigner,
    other: T,
)
    ensures
        ({
            let key = match other.spec_try_pubkey() {
                Some(bytes) => bytes,
                None => Seq::new(32, |i: int| 0u8),
            };
            &&& PartialEqSpec::eq_spec(&keypair, &other) <==> keypair@.subrange(32, 64) == key
            &&& PartialEqSpec::eq_spec(&presigner, &other) <==> presigner.spec_pubkey()@ == key
            &&& PartialEqSpec::eq_spec(&null_signer, &other) <==> null_signer.spec_pubkey()@ == key
        }),
{
    crate::pubkey::law_default_pubkey_is_zero();
}

/// The passphrase goes into the seed behind a word that is always the same, in front of anything
/// that is put behind the passphrase.
pub proof fn law_passphrase_salts_the_seed(
    seed_phrase: Seq<char>,
    passphrase: Seq<char>,
    more: Seq<char>,
    rounds: usize,
    len: usize,
)
    ensures
        phrase_seed(seed_phrase, Seq::empty(), rounds, len) == pbkdf2_sha512(
            encode_utf8(seed_phrase),
            encode_utf8("mnemonic"@),
            rounds,
            len,
        ),
        phrase_seed(seed_phrase, passphrase + more, rounds, len) == pbkdf2_sha512(
            encode_utf8(seed_phrase),
            encode_utf8("mnemonic"@ + passphrase + more),
            rounds,
            len,
        ),
{
    assert("mnemonic"@ + Seq::<char>::empty() =~= "mnemonic"@);
    assert("mnemonic"@ + (passphrase + more) =~= "mnemonic"@ + passphrase + more);
}

} // verus!
