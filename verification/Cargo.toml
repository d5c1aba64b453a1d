[package]
name = "solana_validator"
version = "0.1.0"
edition = "2021"
publish = false

[dependencies]
bincode = "1.3.1"
bs58 = "0.3.1"
bv = "0.11.1"
bzip2 = "0.3.3"
clap = "2.33.1"
crossbeam-channel = "0.4.2"
dir-diff = "0.3.2"
ed25519-dalek = "1.0.1"
flate2 = "1.0.14"
fs_extra = "1.1.0"
hmac = "0.7.0"
libc = "0.2.72"
log = "0.4.8"
pbkdf2 = { version = "0.3.0", default-features = false }
rand = "0.7.3"
rayon = "1.4.1"
regex = "1.3.9"
serde = { version = "1.0.112", features = ["derive"] }
serde_json = "1.0.56"
sha2 = "0.8.2"
signal-hook = "0.1.15"
symlink = "0.1.0"
tar = "0.4.28"
tempfile = "3.1.0"
thiserror = "1.0.20"
toml = "0.5.6"
zstd = "0.5.1"

[dev-dependencies]
curve25519-dalek = "3.0.0"
tiny-bip39 = "0.7.3"
