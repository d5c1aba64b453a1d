use bip39::Language;
use bip39::Mnemonic;
use bip39::MnemonicType;
use bip39::Seed;
use solana_validator::pubkey::Pubkey;
use solana_validator::signature::keypair_from_read;
use solana_validator::signature::keypair_from_seed;
use solana_validator::signature::keypair_from_seed_phrase_and_passphrase;
use solana_validator::signature::pubkey_or_default;
use solana_validator::signature::read_keypair;
use solana_validator::signature::same_signer;
use solana_validator::signature::signature_or_default;
use solana_validator::signature::unique_signers;
use solana_validator::signature::write_keypair;
use solana_validator::signature::Keypair;
use solana_validator::signature::NullSigner;
use solana_validator::signature::ParseSignatureError;
use solana_validator::signature::Presigner;
use solana_validator::signature::PresignerError;
use solana_validator::signature::ReadKeypairError;
use solana_validator::signature::SeedTooShort;
use solana_validator::signature::Signable;
use solana_validator::signature::Signature;
use solana_validator::signature::SignatureError;
use solana_validator::signature::Signer;
use solana_validator::signature::SignerError;
use solana_validator::signature::TransactionError;

const PBKDF2_ROUNDS: usize = 2048;
const PBKDF2_BYTES: usize = 64;

#[test]
fn test_keypair_from_seed() {
    let good_seed = vec![0; 32];
    assert!(keypair_from_seed(&good_seed).is_ok());

    let too_short_seed = vec![0; 31];
    assert!(keypair_from_seed(&too_short_seed).is_err());
}

#[test]
fn test_signature_fromstr() {
    let signature = Keypair::new().sign_message(&[0u8]);

    let mut signature_base58_str = bs58::encode(&signature.0[..]).into_string();

    assert!(signature_base58_str.parse::<Signature>() == Ok(signature));

    signature_base58_str.push_str(&bs58::encode(&signature.0[..]).into_string());
    assert!(signature_base58_str.parse::<Signature>() == Err(ParseSignatureError::WrongSize));

    signature_base58_str.truncate(signature_base58_str.len() / 2);
    assert!(signature_base58_str.parse::<Signature>() == Ok(signature));

    signature_base58_str.truncate(signature_base58_str.len() / 2);
    assert!(signature_base58_str.parse::<Signature>() == Err(ParseSignatureError::WrongSize));

    let mut signature_base58_str = bs58::encode(&signature.0[..]).into_string();
    assert!(signature_base58_str.parse::<Signature>() == Ok(signature));

    // throw some non-base58 stuff in there
    signature_base58_str.replace_range(..1, "I");
    assert!(signature_base58_str.parse::<Signature>() == Err(ParseSignatureError::Invalid));
}

#[test]
fn test_keypair_from_seed_phrase_and_passphrase() {
    let mnemonic = Mnemonic::new(MnemonicType::Words12, Language::English);
    let passphrase = "42";
    let seed = Seed::new(&mnemonic, passphrase);
    let expected_keypair = keypair_from_seed(seed.as_bytes()).unwrap();
    let keypair = keypair_from_seed_phrase_and_passphrase(
        mnemonic.phrase(),
        passphrase,
        PBKDF2_ROUNDS,
        PBKDF2_BYTES,
    )
    .unwrap();
    assert_eq!(keypair.pubkey(), expected_keypair.pubkey());
}

#[test]
fn test_keypair() {
    let keypair = keypair_from_seed(&[0u8; 32]).unwrap();
    let pubkey = keypair.pubkey();
    let data = [1u8];
    let sig = keypair.sign_message(&data);

    // Signer
    assert_eq!(keypair.try_pubkey().unwrap(), pubkey);
    assert_eq!(keypair.pubkey(), pubkey);
    assert!(keypair.try_sign_message(&data).unwrap() == sig);
    assert!(keypair.sign_message(&data) == sig);

    // PartialEq
    let keypair2 = keypair_from_seed(&[0u8; 32]).unwrap();
    assert_eq!(keypair, keypair2);
}

#[test]
fn test_presigner() {
    let keypair = keypair_from_seed(&[0u8; 32]).unwrap();
    let pubkey = keypair.pubkey();
    let data = [1u8];
    let sig = keypair.sign_message(&data);

    // Signer
    let presigner = Presigner::new(&pubkey, &sig);
    assert_eq!(presigner.try_pubkey().unwrap(), pubkey);
    assert_eq!(presigner.pubkey(), pubkey);
    assert!(presigner.try_sign_message(&data).unwrap() == sig);
    assert!(presigner.sign_message(&data) == sig);
    let bad_data = [2u8];
    assert!(presigner.try_sign_message(&bad_data).is_err());
    assert!(presigner.sign_message(&bad_data) == Signature::default());

    // PartialEq
    assert!(presigner == keypair);
    assert!(keypair == presigner);
    let presigner2 = Presigner::new(&pubkey, &sig);
    assert!(presigner == presigner2);
}

fn pubkeys(signers: &[&dyn Signer]) -> Vec<Pubkey> {
    signers.iter().map(|x| x.pubkey()).collect()
}

#[test]
fn test_unique_signers() {
    let alice = Keypair::new();
    let bob = Keypair::new();
    assert_eq!(
        pubkeys(&unique_signers(vec![&alice, &bob, &alice])),
        pubkeys(&[&alice, &bob])
    );
}

#[test]
fn test_off_curve_pubkey_verify_fails() {
    // Golden point off the ed25519 curve
    let off_curve_bytes = bs58::decode("9z5nJyQar1FUxVJxpBXzon6kHehbomeYiDaLi9WAMhCq")
        .into_vec()
        .unwrap();

    // Confirm golden's off-curvedness
    let mut off_curve_bits = [0u8; 32];
    off_curve_bits.copy_from_slice(&off_curve_bytes);
    let off_curve_point = curve25519_dalek::edwards::CompressedEdwardsY(off_curve_bits);
    assert_eq!(off_curve_point.decompress(), None);

    let pubkey = Pubkey::new(&off_curve_bytes);
    let signature = Signature::default();
    assert!(signature.verify_verbose(pubkey.as_bytes(), &[0u8]).is_err());
}

#[test]
fn keypair_of_a_known_seed() {
    // the first test vector of RFC 8032
    let seed = [
        0x9d, 0x61, 0xb1, 0x9d, 0xef, 0xfd, 0x5a, 0x60, 0xba, 0x84, 0x4a, 0xf4, 0x92, 0xec, 0x2c,
        0xc4, 0x44, 0x49, 0xc5, 0x69, 0x7b, 0x32, 0x69, 0x19, 0x70, 0x3b, 0xac, 0x03, 0x1c, 0xae,
        0x7f, 0x60,
    ];
    let pubkey = [
        0xd7, 0x5a, 0x98, 0x01, 0x82, 0xb1, 0x0a, 0xb7, 0xd5, 0x4b, 0xfe, 0xd3, 0xc9, 0x64, 0x07,
        0x3a, 0x0e, 0xe1, 0x72, 0xf3, 0xda, 0xa6, 0x23, 0x25, 0xaf, 0x02, 0x1a, 0x68, 0xf7, 0x07,
        0x51, 0x1a,
    ];
    let signature = [
        0xe5, 0x56, 0x43, 0x00, 0xc3, 0x60, 0xac, 0x72, 0x90, 0x86, 0xe2, 0xcc, 0x80, 0x6e, 0x82,
        0x8a, 0x84, 0x87, 0x7f, 0x1e, 0xb8, 0xe5, 0xd9, 0x74, 0xd8, 0x73, 0xe0, 0x65, 0x22, 0x49,
        0x01, 0x55, 0x5f, 0xb8, 0x82, 0x15, 0x90, 0xa3, 0x3b, 0xac, 0xc6, 0x1e, 0x39, 0x70, 0x1c,
        0xf9, 0xb4, 0x6b, 0xd2, 0x5b, 0xf5, 0xf0, 0x59, 0x5b, 0xbe, 0x24, 0x65, 0x51, 0x41, 0x43,
        0x8e, 0x7a, 0x10, 0x0b,
    ];
    let keypair = keypair_from_seed(&seed).unwrap();
    assert_eq!(keypair.secret(), seed);
    assert_eq!(keypair.pubkey().0, pubkey);
    assert_eq!(keypair.to_bytes()[..32], seed);
    assert_eq!(keypair.to_bytes()[32..], pubkey);
    let signed = keypair.sign_message(&[]);
    assert_eq!(signed.to_bytes()[..], signature[..]);
    assert!(signed.verify(&pubkey, &[]));
    assert!(!signed.verify(&pubkey, &[0]));
    assert!(!signed.verify(&pubkey[..31], &[]));
    assert_eq!(
        signed.verify_verbose(&pubkey, &[0]),
        Err(SignatureError)
    );
    assert!(Keypair::generate(seed) == keypair);
}

#[test]
fn keypairs_are_checked() {
    let keypair = Keypair::new();
    let bytes = keypair.to_bytes();
    assert!(Keypair::from_bytes(&bytes).unwrap() == keypair);
    assert!(matches!(Keypair::from_bytes(&bytes[..63]), Err(SignatureError)));
    assert!(Keypair::new() != keypair);
}

#[test]
fn keypairs_are_read_back_from_base58() {
    let keypair = Keypair::new();
    let text = keypair.to_base58_string();
    assert_eq!(text, bs58::encode(&keypair.to_bytes()[..]).into_string());
    assert!(Keypair::from_base58_string(&text) == keypair);
    assert!(Keypair::try_from_base58_string(&text).unwrap() == keypair);
    assert!(Keypair::try_from_base58_string("I").is_none());
    assert!(Keypair::try_from_base58_string("1111").is_none());
}

#[test]
fn keypairs_are_read_back_from_json() {
    let keypair = Keypair::new();
    let text = write_keypair(&keypair);
    let bytes: Vec<u8> = serde_json::from_str(&text).unwrap();
    assert_eq!(bytes, keypair.to_bytes().to_vec());
    assert!(read_keypair(&text).unwrap() == keypair);
    assert_eq!(
        read_keypair("[1, 2").unwrap_err(),
        ReadKeypairError::InvalidJson
    );
    assert_eq!(
        read_keypair("[1, 2]").unwrap_err(),
        ReadKeypairError::InvalidKeypair
    );
    assert_eq!(
        keypair_from_read(None).unwrap_err(),
        ReadKeypairError::InvalidJson
    );
    assert!(keypair_from_read(Some(bytes)).unwrap() == keypair);
}

#[test]
fn seed_phrase_with_too_short_a_seed() {
    assert_eq!(
        keypair_from_seed_phrase_and_passphrase("a b c", "", 1, 31).unwrap_err(),
        SeedTooShort
    );
    assert_eq!(SeedTooShort.message(), "Seed is too short");
    let one = keypair_from_seed_phrase_and_passphrase("a b c", "", 1, 32).unwrap();
    let other = keypair_from_seed_phrase_and_passphrase("a b c", "x", 1, 32).unwrap();
    assert!(one != other);
}

#[test]
fn null_signers_give_the_default_signature() {
    let pubkey = Pubkey([7; 32]);
    let signer = NullSigner::new(&pubkey);
    assert_eq!(signer.pubkey(), pubkey);
    assert_eq!(signer.try_pubkey(), Ok(pubkey));
    assert!(signer.sign_message(&[1]) == Signature::default());
    assert!(signer.try_sign_message(&[1]) == Ok(Signature::default()));
    assert_eq!(NullSigner::default().pubkey(), Pubkey::default());
    assert!(signer == Presigner::new(&pubkey, &Signature::default()));
    assert!(signer != NullSigner::default());
    assert!(same_signer(&NullSigner::default(), &Presigner::default()));
}

#[test]
fn presigner_fails_for_other_data() {
    let presigner = Presigner::default();
    assert!(presigner.try_sign_message(&[1]) == Err(SignerError::PresignerError(
            PresignerError::VerificationFailure
        )));
    assert!(presigner.signature_if(true) == Ok(Signature::default()));
    assert_eq!(
        PresignerError::VerificationFailure.message(),
        "pre-generated signature cannot verify data"
    );
}

struct Absent;

impl Signer for Absent {
    fn try_pubkey(&self) -> Result<Pubkey, SignerError> {
        Err(SignerError::NoDeviceFound)
    }

    fn try_sign_message(&self, _message: &[u8]) -> Result<Signature, SignerError> {
        Err(SignerError::NoDeviceFound)
    }
}

#[test]
fn defaults_stand_for_what_is_missing() {
    assert_eq!(Absent.pubkey(), Pubkey::default());
    assert!(Absent.sign_message(&[1]) == Signature::default());
    assert_eq!(
        pubkey_or_default(Err(SignerError::NotEnoughSigners)),
        Pubkey::default()
    );
    assert_eq!(pubkey_or_default(Ok(Pubkey([3; 32]))), Pubkey([3; 32]));
    assert!(signature_or_default(Err(SignerError::NotEnoughSigners)) == Signature::default());
    assert_eq!(Signature::default().0[..], [0u8; 64][..]);
}

struct Note {
    author: Pubkey,
    text: Vec<u8>,
    signature: Signature,
}

impl Signable for Note {
    fn pubkey(&self) -> Pubkey {
        self.author
    }

    fn signable_data(&self) -> Vec<u8> {
        self.text.clone()
    }

    fn get_signature(&self) -> Signature {
        self.signature
    }

    fn set_signature(&mut self, signature: Signature) {
        self.signature = signature;
    }
}

#[test]
fn signed_notes_verify() {
    let keypair = Keypair::new();
    let mut note = Note {
        author: keypair.pubkey(),
        text: vec![1, 2, 3],
        signature: Signature::default(),
    };
    assert!(!note.verify());
    note.sign(&keypair);
    assert!(note.verify());
    assert!(note.get_signature() == keypair.sign_message(&[1, 2, 3]));
    note.text.push(4);
    assert!(!note.verify());
}

#[test]
fn first_of_equal_signers_stays() {
    let a = Keypair::new();
    let b = NullSigner::new(&a.pubkey());
    let c = NullSigner::new(&Pubkey([9; 32]));
    let unique = unique_signers(vec![&c, &b, &a, &c, &b]);
    assert_eq!(pubkeys(&unique), vec![Pubkey([9; 32]), a.pubkey()]);
    // the one that came first gives the default signature
    assert!(unique[1].sign_message(&[1]) == Signature::default());
    assert!(unique_signers(vec![]).is_empty());
}

#[test]
fn signatures_are_read_back_from_base58() {
    let signature = Signature::new(&[5; 64]);
    let text = signature.to_base58();
    assert_eq!(text, bs58::encode(&[5u8; 64][..]).into_string());
    assert!(Signature::parse(&text) == Ok(signature));
    assert_eq!(signature.as_bytes(), &[5u8; 64][..]);
    assert!(Signature::from_decoded(Some(vec![1])) == Err(ParseSignatureError::WrongSize));
    assert!(Signature::from_decoded(None) == Err(ParseSignatureError::Invalid));
    assert!(Signature::from_decoded(Some(vec![5; 64])) == Ok(signature));
}

#[test]
fn errors_in_words() {
    assert_eq!(
        ParseSignatureError::WrongSize.message(),
        "string decoded to wrong size for signature"
    );
    assert_eq!(
        ParseSignatureError::Invalid.message(),
        "failed to decode string to signature"
    );
    let reason = || "why".to_string();
    let cases = vec![
        (SignerError::KeypairPubkeyMismatch, "keypair-pubkey mismatch"),
        (SignerError::NotEnoughSigners, "not enough signers"),
        (
            SignerError::TransactionError(TransactionError(reason())),
            "transaction error",
        ),
        (SignerError::Custom(reason()), "custom error: why"),
        (
            SignerError::PresignerError(PresignerError::VerificationFailure),
            "presigner error",
        ),
        (SignerError::Connection(reason()), "connection error: why"),
        (SignerError::InvalidInput(reason()), "invalid input: why"),
        (SignerError::NoDeviceFound, "no device found"),
        (SignerError::Protocol(reason()), "why"),
        (SignerError::UserCancel(reason()), "why"),
    ];
    for (error, words) in cases {
        assert_eq!(error.message(), words);
    }
}
