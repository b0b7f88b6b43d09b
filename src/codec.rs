//! The encryption boundary: every payload that reaches the disk is the
//! ciphertext of its text under the one secret an engine was built with.
use magic_crypt::MagicCrypt256;
use magic_crypt::MagicCryptTrait;
use vstd::prelude::*;

use crate::err::FmError;

verus! {

#[verifier::external_type_specification]
#[verifier::external_body]
pub struct ExMagicCrypt256(MagicCrypt256);

/// The base64 ciphertext of `plain` under the secret `key`.
pub uninterp spec fn cipher_of(key: Seq<char>, plain: Seq<char>) -> Seq<char>;

/// What decryption under `key` yields for a text that no encryption under
/// `key` produced.
pub uninterp spec fn stray_plain(key: Seq<char>, text: Seq<char>) -> Option<Seq<char>>;

/// A character of the standard base64 alphabet, padding included.
pub open spec fn is_base64_char(c: char) -> bool {
    ('A' <= c && c <= 'Z') || ('a' <= c && c <= 'z') || ('0' <= c && c <= '9') || c == '+'
        || c == '/' || c == '='
}

/// Non-empty text of base64 characters only.
pub open spec fn well_formed_base64(text: Seq<char>) -> bool {
    text.len() > 0 && forall|i: int| 0 <= i < text.len() ==> is_base64_char(#[trigger] text[i])
}

/// Whether `text` is the ciphertext of some plaintext under `key`.
pub open spec fn is_cipher(key: Seq<char>, text: Seq<char>) -> bool {
    exists|p: Seq<char>| cipher_of(key, p) == text
}

/// A ciphertext as the codec writes it: non-empty base64 that decrypts
/// under `key`.
pub open spec fn sealed(key: Seq<char>, c: Seq<char>) -> bool {
    &&& is_cipher(key, c)
    &&& c.len() > 0
    &&& forall|i: int| 0 <= i < c.len() ==> is_base64_char(#[trigger] c[i])
}

/// What decrypting `text` under `key` yields: the plaintext it is the
/// ciphertext of, if any.
pub open spec fn decoded(key: Seq<char>, text: Seq<char>) -> Option<Seq<char>> {
    if is_cipher(key, text) {
        Some(choose|p: Seq<char>| cipher_of(key, p) == text)
    } else {
        stray_plain(key, text)
    }
}

/// The text an optional string holds.
pub open spec fn text_of(s: Option<String>) -> Option<Seq<char>> {
    match s {
        Some(t) => Some(t@),
        None => None,
    }
}

/// Relies on magic-crypt's `MagicCrypt256::new`: the AES-256 key is derived
/// from the secret once, with the fixed default IV.
#[verifier::external_body]
fn derive_cipher(secret: &str) -> MagicCrypt256 {
    MagicCrypt256::new(secret, None::<String>)
}

/// A symmetric cipher bound to one secret for its whole life.
pub struct Encryptor {
    secret: String,
    instance: MagicCrypt256,
}

impl View for Encryptor {
    type V = Seq<char>;

    /// The secret this cipher was derived from.
    closed spec fn view(&self) -> Seq<char> {
        self.secret@
    }
}

impl Encryptor {
    /// Derives the cipher for `key`; `instance` always belongs to `secret`.
    pub fn new(key: &str) -> (r: Self)
        ensures
            r@ == key@,
    {
        Encryptor { secret: String::from_str(key), instance: derive_cipher(key) }
    }

    /// Relies on magic-crypt's `MagicCryptTrait::encrypt_str_to_base64`:
    /// deterministic AES-256-CBC with PKCS#7 padding (at least one block)
    /// under the derived key and fixed IV, then standard base64; decrypting the result gives `txt` back, so no other
    /// text has the same ciphertext.
    #[verifier::external_body]
    fn seal(&self, txt: &str) -> (r: String)
        ensures
            r@ == cipher_of(self@, txt@),
            r@.len() > 0,
            forall|q: Seq<char>| #[trigger] cipher_of(self@, q) == r@ ==> q == txt@,
            forall|i: int| 0 <= i < r@.len() ==> is_base64_char(#[trigger] r@[i]),
    {
        self.instance.encrypt_str_to_base64(txt)
    }

    /// Relies on magic-crypt's `MagicCryptTrait::decrypt_base64_to_string`:
    /// it inverts `encrypt_str_to_base64` under the same key, and fails or
    /// yields some other text on anything else. Empty text fails the
    /// padding check, and a character outside the base64 alphabet fails the
    /// decoding.
    #[verifier::external_body]
    fn open(&self, data: &str) -> (r: Option<String>)
        ensures
            forall|q: Seq<char>| #[trigger] cipher_of(self@, q) == data@ ==> text_of(r) == Some(q),
            !is_cipher(self@, data@) ==> text_of(r) == stray_plain(self@, data@),
            !well_formed_base64(data@) ==> r is None,
    {
        self.instance.decrypt_base64_to_string(data).ok()
    }

    /// The base64 ciphertext of `txt`.
    pub fn encrypt(&self, txt: &str) -> (r: String)
        ensures
            r@ == cipher_of(self@, txt@),
            decoded(self@, r@) == Some(txt@),
            sealed(self@, r@),
    {
        let r = self.seal(txt);
        proof {
            assert(is_cipher(self@, r@));
            let p = choose|p: Seq<char>| cipher_of(self@, p) == r@;
            assert(cipher_of(self@, p) == r@);
        }
        r
    }

    /// The plaintext of `data`, or `None` where it does not decrypt.
    pub fn decrypt(&self, data: &str) -> (r: Option<String>)
        ensures
            text_of(r) == decoded(self@, data@),
            !well_formed_base64(data@) ==> r is None,
    {
        let r = self.open(data);
        proof {
            if is_cipher(self@, data@) {
                let p = choose|p: Seq<char>| cipher_of(self@, p) == data@;
                assert(cipher_of(self@, p) == data@);
            }
        }
        r
    }
}

/// The engine's codec: encryption and decryption under one bound secret,
/// with failures reported as engine errors.
pub struct DiskEnc {
    enc: Encryptor,
}

impl View for DiskEnc {
    type V = Seq<char>;

    closed spec fn view(&self) -> Seq<char> {
        self.enc@
    }
}

impl DiskEnc {
    /// Binds the codec to `key`.
    pub fn new(key: String) -> (r: Self)
        ensures
            r@ == key@,
    {
        DiskEnc { enc: Encryptor::new(key.as_str()) }
    }

    /// Decrypts `data`; `DecryptionError` when it is not a ciphertext under
    /// this codec's secret.
    pub fn decrypt(&self, data: &str) -> (r: Result<String, FmError>)
        ensures
            match decoded(self@, data@) {
                Some(p) => r matches Ok(t) && t@ == p,
                None => r == Err::<String, FmError>(FmError::DecryptionError),
            },
            !well_formed_base64(data@) ==> r == Err::<String, FmError>(FmError::DecryptionError),
    {
        match self.enc.decrypt(data) {
            Some(p) => Ok(p),
            None => Err(FmError::DecryptionError),
        }
    }

    /// The ciphertext of `data`.
    pub fn seal(&self, data: &str) -> (r: String)
        ensures
            r@ == cipher_of(self@, data@),
            decoded(self@, r@) == Some(data@),
            sealed(self@, r@),
    {
        self.enc.encrypt(data)
    }

    /// Encrypts `data`; this never fails.
    pub fn encrypt(&self, data: &str) -> (r: Result<String, FmError>)
        ensures
            r matches Ok(c) && c@ == cipher_of(self@, data@),
            decoded(self@, cipher_of(self@, data@)) == Some(data@),
            sealed(self@, cipher_of(self@, data@)),
    {
        Ok(self.seal(data))
    }
}

} // verus!
