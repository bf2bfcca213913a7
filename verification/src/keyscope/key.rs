//! Payload keys and the cipher that uses them.

use super::KeyStoreError;
use chacha20poly1305::aead::{Aead, KeyInit, Payload};
use chacha20poly1305::{XChaCha20Poly1305, XNonce};
use vstd::prelude::*;
use zeroize::Zeroize;

verus! {

/// A 256-bit payload key, which is wiped from memory when dropped. Its bytes
/// are never exposed; the key is used through `seal` and `open` alone.
pub struct PayloadKey {
    bytes: [u8; 32],
}

impl PayloadKey {
    /// The bytes of the key.
    pub closed spec fn view(&self) -> Seq<u8> {
        self.bytes@
    }

    /// A key of the given bytes.
    pub fn from_bytes(bytes: [u8; 32]) -> (key: PayloadKey)
        ensures
            key@ == bytes@,
    {
        PayloadKey { bytes }
    }

    /// A fresh random key: the bytes that one call of the system's random source
    /// left, or the error of that call.
    pub fn generate() -> (r: Result<PayloadKey, KeyStoreError>)
        ensures
            exists|bytes: &mut [u8; 32], filled: Result<(), KeyStoreError>| #[trigger]
                drew(bytes, filled) && match (r, filled) {
                    (Ok(key), Ok(_)) => final(bytes)@ == key@,
                    (Err(e), Err(f)) => e == f,
                    _ => false,
                },
            r matches Ok(key) ==> key@.len() == 32,
            r matches Err(e) ==> e == KeyStoreError::Rng,
    {
        let mut key = PayloadKey { bytes: [0u8; 32] };
        let filled = random_bytes(&mut key.bytes);
        proof {
            let bytes = choose|bytes: &mut [u8; 32]| #[trigger]
                call_ensures(random_bytes, (bytes,), filled) && final(bytes)@ == key@;
            assert(drew(bytes, filled));
        }
        match filled {
            Ok(()) => Ok(key),
            Err(e) => Err(e),
        }
    }

    /// A copy of the bytes, for the keyset file.
    pub(super) fn copy_bytes(&self) -> (bytes: [u8; 32])
        ensures
            bytes@ == self@,
    {
        self.bytes
    }

    /// Encrypt `plaintext`, binding `aad` to it; one that is longer than the
    /// cipher's keystream reaches is refused. The caller must not use a nonce
    /// twice under one key.
    pub fn seal(&self, nonce: &[u8; 24], aad: &[u8], plaintext: &[u8]) -> (r: Result<
        Vec<u8>,
        KeyStoreError,
    >)
        ensures
            r is Ok <==> sealable(plaintext@),
            r matches Ok(c) ==> c@ == sealed_of(self@, nonce@, aad@, plaintext@) && c@.len()
                == plaintext@.len() + 16,
            r matches Err(e) ==> e == KeyStoreError::Seal,
    {
        if plaintext.len() as u64 > KEYSTREAM_LEN {
            return Err(KeyStoreError::Seal);
        }
        aead_seal(&self.bytes, nonce, aad, plaintext)
    }

    /// Decrypt `ciphertext`. What was sealed under this key with the same nonce
    /// and associated data comes back; what is longer than any sealed plaintext
    /// is refused.
    pub fn open(&self, nonce: &[u8; 24], aad: &[u8], ciphertext: &[u8]) -> (r: Result<
        Vec<u8>,
        KeyStoreError,
    >)
        ensures
            match r {
                Ok(m) => plaintext_of(self@, nonce@, aad@, ciphertext@) == Some(m@) && m@.len() + 16
                    == ciphertext@.len(),
                Err(e) => plaintext_of(self@, nonce@, aad@, ciphertext@) is None && e
                    == KeyStoreError::Open,
            },
            forall|plaintext: Seq<u8>|
                openable(ciphertext@) && sealable(plaintext) && #[trigger] sealed_of(
                    self@,
                    nonce@,
                    aad@,
                    plaintext,
                ) == ciphertext@ ==> r is Ok && r->Ok_0@ == plaintext,
    {
        if ciphertext.len() as u64 > KEYSTREAM_LEN + 16 {
            return Err(KeyStoreError::Open);
        }
        aead_open(&self.bytes, nonce, aad, ciphertext)
    }

    /// A rendering of the key that shows nothing of its bytes.
    pub fn debug_text(&self) -> (text: String)
        ensures
            text@ == "PayloadKey { .. }"@,
    {
        "PayloadKey { .. }".to_owned()
    }
}

impl Drop for PayloadKey {
    fn drop(&mut self)
        opens_invariants none
        no_unwind
    {
        wipe(&mut self.bytes);
    }
}

/// One call of the system's random source on these bytes ended like this.
pub closed spec fn drew(bytes: &mut [u8; 32], filled: Result<(), KeyStoreError>) -> bool {
    call_ensures(random_bytes, (bytes,), filled)
}

/// `getrandom::fill` of 32 bytes from the system's random source. Nothing can be
/// said of them; a failure of the source is reported.
#[verifier::external_body]
pub(super) fn random_bytes(bytes: &mut [u8; 32]) -> (r: Result<(), KeyStoreError>)
    ensures
        r matches Err(e) ==> e == KeyStoreError::Rng,
{
    getrandom::fill(bytes).map_err(|_| KeyStoreError::Rng)
}

/// `zeroize::Zeroize::zeroize` of an array: every byte becomes zero.
#[verifier::external_body]
pub(super) fn wipe(bytes: &mut [u8; 32])
    ensures
        final(bytes)@ == Seq::new(32, |i: int| 0u8),
    opens_invariants none
    no_unwind
{
    bytes.zeroize();
}

/// What XChaCha20-Poly1305 encryption makes of a key, a nonce, associated data
/// and a plaintext.
pub uninterp spec fn sealed_of(
    key: Seq<u8>,
    nonce: Seq<u8>,
    aad: Seq<u8>,
    plaintext: Seq<u8>,
) -> Seq<u8>;

/// What XChaCha20-Poly1305 decryption makes of a key, a nonce, associated data
/// and a ciphertext: a plaintext, or nothing where authentication fails.
pub uninterp spec fn opened_of(
    key: Seq<u8>,
    nonce: Seq<u8>,
    aad: Seq<u8>,
    ciphertext: Seq<u8>,
) -> Option<Seq<u8>>;

/// Bytes of keystream that the cipher has for a message: `2^32 - 2` blocks of 64
/// bytes.
pub const KEYSTREAM_LEN: u64 = 0x3F_FFFF_FF80;

/// The keystream reaches to the end of the plaintext.
pub open spec fn sealable(plaintext: Seq<u8>) -> bool {
    plaintext.len() <= KEYSTREAM_LEN
}

/// The keystream reaches to the end of what the ciphertext holds, which is 16
/// bytes shorter.
pub open spec fn openable(ciphertext: Seq<u8>) -> bool {
    ciphertext.len() <= KEYSTREAM_LEN + 16
}

/// The plaintext that a ciphertext opens to. One that the keystream does not reach
/// opens to none.
pub open spec fn plaintext_of(
    key: Seq<u8>,
    nonce: Seq<u8>,
    aad: Seq<u8>,
    ciphertext: Seq<u8>,
) -> Option<Seq<u8>> {
    if openable(ciphertext) {
        opened_of(key, nonce, aad, ciphertext)
    } else {
        None
    }
}

/// `XChaCha20Poly1305::encrypt` under a 32-byte key, which is always of the
/// right length. The result is a function of key, nonce, associated data and
/// plaintext, and 16 bytes longer than the plaintext. Encryption succeeds on every
/// plaintext that the keystream reaches; on a longer one it may panic.
#[verifier::external_body]
pub(super) fn aead_seal(key: &[u8; 32], nonce: &[u8; 24], aad: &[u8], plaintext: &[u8]) -> (r: Result<
    Vec<u8>,
    KeyStoreError,
>)
    requires
        sealable(plaintext@),
    ensures
        r is Ok,
        r->Ok_0@ == sealed_of(key@, nonce@, aad@, plaintext@),
        r->Ok_0@.len() == plaintext@.len() + 16,
{
    let cipher = XChaCha20Poly1305::new_from_slice(key).map_err(|_| KeyStoreError::KeyInit)?;
    cipher
        .encrypt(XNonce::from_slice(nonce), Payload { msg: plaintext, aad })
        .map_err(|_| KeyStoreError::Seal)
}

/// `XChaCha20Poly1305::decrypt` under a 32-byte key. The result is a function of
/// key, nonce, associated data and ciphertext; what was encrypted under the same
/// key, nonce and associated data comes back. On an authentic ciphertext that the
/// keystream does not reach it panics. That a ciphertext made under others is
/// rejected holds only with overwhelming probability, and is left unsaid.
#[verifier::external_body]
pub(super) fn aead_open(key: &[u8; 32], nonce: &[u8; 24], aad: &[u8], ciphertext: &[u8]) -> (r: Result<
    Vec<u8>,
    KeyStoreError,
>)
    requires
        openable(ciphertext@),
    ensures
        match r {
            Ok(m) => opened_of(key@, nonce@, aad@, ciphertext@) == Some(m@) && m@.len() + 16
                == ciphertext@.len(),
            Err(e) => opened_of(key@, nonce@, aad@, ciphertext@) is None && e
                == KeyStoreError::Open,
        },
        forall|plaintext: Seq<u8>|
            sealable(plaintext) && #[trigger] sealed_of(key@, nonce@, aad@, plaintext)
                == ciphertext@ ==> r is Ok && r->Ok_0@ == plaintext,
{
    let cipher = XChaCha20Poly1305::new_from_slice(key).map_err(|_| KeyStoreError::KeyInit)?;
    cipher
        .decrypt(XNonce::from_slice(nonce), Payload { msg: ciphertext, aad })
        .map_err(|_| KeyStoreError::Open)
}

/// A plaintext is sealed exactly where the cipher's keystream, of 64 bytes in each of
/// two to the 32 less two blocks, reaches to its end. It grows by 16 bytes, and opens
/// under the same key with the same nonce and associated data to what it was.
pub proof fn law_sealed_payload_opens(
    key: &PayloadKey,
    nonce: &[u8; 24],
    aad: &[u8],
    plaintext: &[u8],
    sealed: Result<Vec<u8>, KeyStoreError>,
    opened: Result<Vec<u8>, KeyStoreError>,
)
    requires
        call_ensures(PayloadKey::seal, (key, nonce, aad, plaintext), sealed),
        sealed is Ok,
        exists|ciphertext: &[u8]|
            ciphertext@ == sealed->Ok_0@ && #[trigger] call_ensures(
                PayloadKey::open,
                (key, nonce, aad, ciphertext),
                opened,
            ),
    ensures
        sealed->Ok_0@.len() == plaintext@.len() + 16,
        opened is Ok && opened->Ok_0@ == plaintext@,
{
}

/// Sealing fails exactly where the plaintext is longer than the keystream, and opening
/// always where the ciphertext is longer than any that was sealed.
pub proof fn law_keystream_bounds_payloads(
    key: &PayloadKey,
    nonce: &[u8; 24],
    aad: &[u8],
    bytes: &[u8],
    sealed: Result<Vec<u8>, KeyStoreError>,
    opened: Result<Vec<u8>, KeyStoreError>,
)
    requires
        call_ensures(PayloadKey::seal, (key, nonce, aad, bytes), sealed),
        call_ensures(PayloadKey::open, (key, nonce, aad, bytes), opened),
    ensures
        sealed is Err <==> bytes@.len() > (0x1_0000_0000 - 2) * 64,
        sealed is Err ==> sealed->Err_0 is Seal,
        bytes@.len() > (0x1_0000_0000 - 2) * 64 + 16 ==> opened is Err,
        opened is Err ==> opened->Err_0 is Open,
        opened is Ok ==> opened->Ok_0@.len() + 16 == bytes@.len(),
{
}

} // verus!
