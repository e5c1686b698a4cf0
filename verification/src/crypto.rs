//! The encrypted form of a piece of content: AES-256-GCM under a key that
//! PBKDF2-HMAC-SHA256 derives from the password.

use vstd::prelude::*;
use vstd::string::*;
use vstd::utf8::*;

use aes_gcm::aead::{Aead, KeyInit};
use base64::Engine;
use rand::Rng;

verus! {

/// The version of the payload format.
pub const FORMAT_VERSION: u8 = 1;

pub const SALT_LEN: usize = 16;

pub const NONCE_LEN: usize = 12;

pub const KEY_LEN: usize = 32;

/// The longest content that AES-GCM takes, in bytes.
pub const MAX_PLAINTEXT: u64 = 0x10_0000_0000;

// ---------------------------------------------------------------------------
// Outside primitives
// ---------------------------------------------------------------------------

/// The bytes that PBKDF2 with HMAC-SHA256 derives.
pub uninterp spec fn pbkdf2_sha256(
    password: Seq<u8>,
    salt: Seq<u8>,
    iterations: u32,
    len: nat,
) -> Seq<u8>;

/// The ciphertext and tag of AES-256-GCM without associated data.
pub uninterp spec fn aes256_gcm(key: Seq<u8>, nonce: Seq<u8>, plaintext: Seq<u8>) -> Seq<u8>;

/// What AES-256-GCM without associated data opens a ciphertext and tag to, if
/// the tag is right.
pub uninterp spec fn aes256_gcm_opened(
    key: Seq<u8>,
    nonce: Seq<u8>,
    sealed: Seq<u8>,
) -> Option<Seq<u8>>;

/// Bytes in the URL-safe Base64 alphabet, without padding.
pub uninterp spec fn base64_url(bytes: Seq<u8>) -> Seq<char>;

/// The bytes that a text in the URL-safe Base64 alphabet stands for, if it is
/// one.
pub uninterp spec fn base64_url_bytes(text: Seq<char>) -> Option<Seq<u8>>;

/// A character of the URL-safe Base64 alphabet.
pub open spec fn is_base64_url(c: char) -> bool {
    ||| 'A' <= c <= 'Z'
    ||| 'a' <= c <= 'z'
    ||| '0' <= c <= '9'
    ||| c == '-'
    ||| c == '_'
}

/// How many characters of Base64 without padding stand for so many bytes.
pub open spec fn encoded_len(bytes: nat) -> nat {
    (4 * bytes + 2) / 3
}

/// `Rng::fill` of rand, on the thread's own generator, overwrites the whole
/// slice. Which bytes it writes is left open.
#[verifier::external_body]
fn random_bytes(len: usize) -> (bytes: Vec<u8>)
    ensures
        bytes@.len() == len,
{
    let mut bytes: Vec<u8> = vec![0; len];
    rand::rng().fill(&mut bytes[..]);
    bytes
}

/// `pbkdf2_hmac` of pbkdf2, with the `Sha256` of sha2, fills the output. The
/// number of 32-byte blocks has to fit its counter.
#[verifier::external_body]
fn derive_key(password: &[u8], salt: &[u8], iterations: u32, len: usize) -> (key: Vec<u8>)
    requires
        len <= 0xffff_ffff,
    ensures
        key@ == pbkdf2_sha256(password@, salt@, iterations, len as nat),
        key@.len() == len,
{
    let mut key: Vec<u8> = vec![0; len];
    pbkdf2::pbkdf2_hmac::<sha2::Sha256>(password, salt, iterations, &mut key);
    key
}

/// `Aead::encrypt` of aes-gcm's `Aes256Gcm`, without associated data. It fails
/// exactly on plaintexts of more than 2^36 bytes, and appends a tag of 16
/// bytes. Decryption under the same key and nonce gives the plaintext back. A
/// key or nonce of another length is not accepted.
#[verifier::external_body]
fn aes_encrypt(key: &[u8], nonce: &[u8], plaintext: &[u8]) -> (r: Option<Vec<u8>>)
    requires
        key@.len() == 32,
        nonce@.len() == 12,
    ensures
        r is Some <==> plaintext@.len() <= 0x10_0000_0000,
        r is Some ==> r->0@ == aes256_gcm(key@, nonce@, plaintext@),
        r is Some ==> r->0@.len() == plaintext@.len() + 16,
        r is Some ==> aes256_gcm_opened(key@, nonce@, r->0@) == Some(plaintext@),
{
    let cipher = aes_gcm::Aes256Gcm::new_from_slice(key).unwrap();
    cipher.encrypt(aes_gcm::Nonce::from_slice(nonce), plaintext).ok()
}

/// `Aead::decrypt` of aes-gcm's `Aes256Gcm`, without associated data. A key or
/// nonce of another length is not accepted.
#[verifier::external_body]
fn aes_decrypt(key: &[u8], nonce: &[u8], sealed: &[u8]) -> (r: Option<Vec<u8>>)
    requires
        key@.len() == 32,
        nonce@.len() == 12,
    ensures
        r is Some <==> aes256_gcm_opened(key@, nonce@, sealed@) is Some,
        r is Some ==> Some(r->0@) == aes256_gcm_opened(key@, nonce@, sealed@),
{
    let cipher = aes_gcm::Aes256Gcm::new_from_slice(key).unwrap();
    cipher.decrypt(aes_gcm::Nonce::from_slice(nonce), sealed).ok()
}

/// `Engine::encode` of base64's `URL_SAFE_NO_PAD` engine. It uses only the
/// characters of its alphabet, four for three bytes, and decoding gives the
/// bytes back.
#[verifier::external_body]
fn base64_encode(bytes: &[u8]) -> (s: String)
    ensures
        s@ == base64_url(bytes@),
        forall|i: int| 0 <= i < s@.len() ==> is_base64_url(#[trigger] s@[i]),
        s@.len() == encoded_len(bytes@.len()),
        base64_url_bytes(s@) == Some(bytes@),
{
    base64::engine::general_purpose::URL_SAFE_NO_PAD.encode(bytes)
}

/// `Engine::decode` of base64's `URL_SAFE_NO_PAD` engine.
#[verifier::external_body]
fn base64_decode(text: &str) -> (r: Option<Vec<u8>>)
    ensures
        r is Some <==> base64_url_bytes(text@) is Some,
        r is Some ==> Some(r->0@) == base64_url_bytes(text@),
{
    base64::engine::general_purpose::URL_SAFE_NO_PAD.decode(text).ok()
}

// ---------------------------------------------------------------------------
// Payloads
// ---------------------------------------------------------------------------

/// What the browser needs, besides the password, to show the content again.
pub struct Encrypted {
    pub salt: String,
    pub nonce: String,
    pub ciphertext: String,
    pub iterations: u32,
}

/// Why content could not be encrypted.
#[derive(Debug, Clone, Copy, PartialEq, Eq, Structural)]
pub enum EncryptError {
    /// The content is longer than AES-GCM takes.
    TooLong,
}

impl EncryptError {
    pub fn message(&self) -> (s: String)
        ensures
            s@ == "AES-GCM encryption failed"@,
    {
        "AES-GCM encryption failed".to_string()
    }
}

/// Content that AES-GCM takes.
pub open spec fn fits(plaintext: Seq<char>) -> bool {
    encode_utf8(plaintext).len() <= MAX_PLAINTEXT
}

/// The payload is the content, encrypted under the key that the password and
/// the salt give, with the salt and the nonce beside it.
pub open spec fn is_payload_of(
    payload: Encrypted,
    plaintext: Seq<char>,
    password: Seq<char>,
    iterations: u32,
    salt: Seq<u8>,
    nonce: Seq<u8>,
) -> bool {
    let key = pbkdf2_sha256(encode_utf8(password), salt, iterations, KEY_LEN as nat);
    &&& payload.salt@ == base64_url(salt)
    &&& payload.nonce@ == base64_url(nonce)
    &&& payload.ciphertext@ == base64_url(aes256_gcm(key, nonce, encode_utf8(plaintext)))
    &&& payload.iterations == iterations
}

/// The payload can stand in an attribute as it is: nothing in it has to be
/// escaped.
pub open spec fn is_attribute_safe(payload: Encrypted) -> bool {
    &&& forall|i: int| 0 <= i < payload.salt@.len() ==> is_base64_url(#[trigger] payload.salt@[i])
    &&& forall|i: int|
        0 <= i < payload.nonce@.len() ==> is_base64_url(#[trigger] payload.nonce@[i])
    &&& forall|i: int|
        0 <= i < payload.ciphertext@.len() ==> is_base64_url(#[trigger] payload.ciphertext@[i])
}

/// What a payload opens to under a password: the browser decodes its parts,
/// derives the key, and decrypts.
pub open spec fn decrypted(
    salt: Seq<char>,
    nonce: Seq<char>,
    ciphertext: Seq<char>,
    iterations: u32,
    password: Seq<char>,
) -> Option<Seq<u8>> {
    match (base64_url_bytes(salt), base64_url_bytes(nonce), base64_url_bytes(ciphertext)) {
        (Some(salt), Some(nonce), Some(sealed)) => if nonce.len() == NONCE_LEN {
            aes256_gcm_opened(
                pbkdf2_sha256(encode_utf8(password), salt, iterations, KEY_LEN as nat),
                nonce,
                sealed,
            )
        } else {
            None
        },
        _ => None,
    }
}

/// The password opens the payload to the content.
pub open spec fn opens_to(payload: Encrypted, password: Seq<char>, content: Seq<char>) -> bool {
    decrypted(
        payload.salt@,
        payload.nonce@,
        payload.ciphertext@,
        payload.iterations,
        password,
    ) == Some(encode_utf8(content))
}

/// The ciphertext is the content's length and a tag.
pub open spec fn has_length_of(payload: Encrypted, content: Seq<char>) -> bool {
    &&& base64_url_bytes(payload.ciphertext@) matches Some(sealed) && sealed.len() == encode_utf8(
        content,
    ).len() + 16
    &&& payload.ciphertext@.len() == encoded_len(encode_utf8(content).len() + 16)
}

/// A payload of the content, for some salt and nonce of the right length, which
/// are those that it holds.
pub open spec fn encrypts(
    payload: Encrypted,
    plaintext: Seq<char>,
    password: Seq<char>,
    iterations: u32,
) -> bool {
    &&& exists|salt: Seq<u8>, nonce: Seq<u8>|
        {
            &&& salt.len() == SALT_LEN
            &&& nonce.len() == NONCE_LEN
            &&& base64_url_bytes(payload.salt@) == Some(salt)
            &&& base64_url_bytes(payload.nonce@) == Some(nonce)
            &&& #[trigger] is_payload_of(payload, plaintext, password, iterations, salt, nonce)
        }
    &&& is_attribute_safe(payload)
    &&& has_length_of(payload, plaintext)
    &&& opens_to(payload, password, plaintext)
}

/// Encrypts content under a given salt and nonce. The password opens the
/// payload to the content again.
pub fn encrypt_with(
    plaintext: &str,
    password: &str,
    iterations: u32,
    salt: &[u8],
    nonce: &[u8],
) -> (r: Result<Encrypted, EncryptError>)
    requires
        nonce@.len() == NONCE_LEN,
    ensures
        r is Ok <==> fits(plaintext@),
        r is Err ==> r->Err_0 == EncryptError::TooLong,
        r is Ok ==> is_payload_of(r->Ok_0, plaintext@, password@, iterations, salt@, nonce@),
        r is Ok ==> base64_url_bytes(r->Ok_0.salt@) == Some(salt@),
        r is Ok ==> base64_url_bytes(r->Ok_0.nonce@) == Some(nonce@),
        r is Ok ==> is_attribute_safe(r->Ok_0),
        r is Ok ==> has_length_of(r->Ok_0, plaintext@),
        r is Ok ==> opens_to(r->Ok_0, password@, plaintext@),
{
    let key = derive_key(password.as_bytes(), salt, iterations, KEY_LEN);
    match aes_encrypt(key.as_slice(), nonce, plaintext.as_bytes()) {
        None => Err(EncryptError::TooLong),
        Some(sealed) => Ok(
            Encrypted {
                salt: base64_encode(salt),
                nonce: base64_encode(nonce),
                ciphertext: base64_encode(sealed.as_slice()),
                iterations,
            },
        ),
    }
}

/// Encrypts content under a fresh random salt and nonce.
pub fn encrypt(plaintext: &str, password: &str, iterations: u32) -> (r: Result<
    Encrypted,
    EncryptError,
>)
    ensures
        r is Ok <==> fits(plaintext@),
        r is Err ==> r->Err_0 == EncryptError::TooLong,
        r is Ok ==> encrypts(r->Ok_0, plaintext@, password@, iterations),
{
    let salt = random_bytes(SALT_LEN);
    let nonce = random_bytes(NONCE_LEN);
    encrypt_with(plaintext, password, iterations, salt.as_slice(), nonce.as_slice())
}

/// The content of a payload, if the password opens it to text.
pub fn decrypt(payload: &Encrypted, password: &str) -> (r: Option<String>)
    ensures
        match decrypted(
            payload.salt@,
            payload.nonce@,
            payload.ciphertext@,
            payload.iterations,
            password@,
        ) {
            Some(bytes) => if valid_utf8(bytes) {
                r is Some && r->0@ == decode_utf8(bytes)
            } else {
                r is None
            },
            None => r is None,
        },
{
    let salt = base64_decode(payload.salt.as_str())?;
    let nonce = base64_decode(payload.nonce.as_str())?;
    let sealed = base64_decode(payload.ciphertext.as_str())?;
    if nonce.len() != NONCE_LEN {
        return None;
    }
    let key = derive_key(password.as_bytes(), salt.as_slice(), payload.iterations, KEY_LEN);
    let bytes = aes_decrypt(key.as_slice(), nonce.as_slice(), sealed.as_slice())?;
    match String::from_utf8(bytes) {
        Ok(text) => {
            proof {
                encode_utf8_decode_utf8(text@);
            }
            Some(text)
        },
        Err(_) => None,
    }
}

/// Reading gives back what was written: decrypting a payload with the password
/// under which the content was encrypted gives the content.
pub proof fn law_decrypting_gives_the_content_back(
    payload: Encrypted,
    content: Seq<char>,
    password: Seq<char>,
    iterations: u32,
)
    requires
        encrypts(payload, content, password, iterations),
    ensures
        decrypted(
            payload.salt@,
            payload.nonce@,
            payload.ciphertext@,
            iterations,
            password,
        ) matches Some(bytes) && valid_utf8(bytes) && decode_utf8(bytes) == content,
{
    encode_utf8_valid_utf8(content);
    encode_utf8_decode_utf8(content);
}

/// Where two draws of salt and nonce do not collide, the payloads tell them
/// apart.
pub proof fn law_other_draws_show(
    a: Encrypted,
    salt_a: Seq<u8>,
    nonce_a: Seq<u8>,
    b: Encrypted,
    salt_b: Seq<u8>,
    nonce_b: Seq<u8>,
)
    requires
        base64_url_bytes(a.salt@) == Some(salt_a),
        base64_url_bytes(a.nonce@) == Some(nonce_a),
        base64_url_bytes(b.salt@) == Some(salt_b),
        base64_url_bytes(b.nonce@) == Some(nonce_b),
    ensures
        salt_a != salt_b ==> a.salt@ != b.salt@,
        nonce_a != nonce_b ==> a.nonce@ != b.nonce@,
{
}

/// Content of up to 64 GiB is encrypted, and no other. The payload holds a salt
/// of 16 bytes and a nonce of 12, and the content under AES-256-GCM with that
/// nonce and the 32 bytes that PBKDF2 gives for the password, that salt, and as
/// many iterations as were asked for.
pub proof fn law_what_encrypting_gives(
    plaintext: &str,
    password: &str,
    iterations: u32,
    r: Result<Encrypted, EncryptError>,
)
    requires
        call_ensures(encrypt, (plaintext, password, iterations), r),
    ensures
        r is Ok <==> encode_utf8(plaintext@).len() <= 0x10_0000_0000,
        r matches Ok(payload) ==> payload.iterations == iterations && exists|
            salt: Seq<u8>,
            nonce: Seq<u8>,
        |
            {
                &&& salt.len() == 16
                &&& nonce.len() == 12
                &&& payload.salt@ == base64_url(salt)
                &&& payload.nonce@ == base64_url(nonce)
                &&& payload.ciphertext@ == base64_url(
                    #[trigger] aes256_gcm(
                        pbkdf2_sha256(encode_utf8(password@), salt, iterations, 32),
                        nonce,
                        encode_utf8(plaintext@),
                    ),
                )
            },
{
    if let Ok(payload) = r {
        let (salt, nonce) = choose|salt: Seq<u8>, nonce: Seq<u8>|
            {
                &&& salt.len() == SALT_LEN
                &&& nonce.len() == NONCE_LEN
                &&& base64_url_bytes(payload.salt@) == Some(salt)
                &&& base64_url_bytes(payload.nonce@) == Some(nonce)
                &&& #[trigger] is_payload_of(
                    payload,
                    plaintext@,
                    password@,
                    iterations,
                    salt,
                    nonce,
                )
            };
        assert(payload.ciphertext@ == base64_url(
            aes256_gcm(
                pbkdf2_sha256(encode_utf8(password@), salt, iterations, 32),
                nonce,
                encode_utf8(plaintext@),
            ),
        ));
    }
}

/// Under a given salt and nonce, the payload holds just these and the content
/// under them.
pub proof fn law_encrypting_under_given_bytes(
    plaintext: &str,
    password: &str,
    iterations: u32,
    salt: &[u8],
    nonce: &[u8],
    r: Result<Encrypted, EncryptError>,
)
    requires
        nonce@.len() == 12,
        call_ensures(encrypt_with, (plaintext, password, iterations, salt, nonce), r),
    ensures
        r is Ok <==> encode_utf8(plaintext@).len() <= 0x10_0000_0000,
        r matches Ok(payload) ==> {
            &&& payload.iterations == iterations
            &&& payload.salt@ == base64_url(salt@)
            &&& payload.nonce@ == base64_url(nonce@)
            &&& payload.ciphertext@ == base64_url(
                aes256_gcm(
                    pbkdf2_sha256(encode_utf8(password@), salt@, iterations, 32),
                    nonce@,
                    encode_utf8(plaintext@),
                ),
            )
        },
{
}

/// Decrypting takes the parts of the payload apart, derives the key of 32 bytes
/// from the password and the payload's own salt and iterations, and gives the
/// text that opens under it. Where a part cannot be decoded, the nonce has not
/// 12 bytes, the key does not open it, or what it opens to is no text, there is
/// nothing to give.
pub proof fn law_what_decrypting_gives(
    payload: &Encrypted,
    password: &str,
    r: Option<String>,
    text: Seq<char>,
)
    requires
        call_ensures(decrypt, (payload, password), r),
    ensures
        (r matches Some(s) && s@ == text) <==> {
            &&& base64_url_bytes(payload.salt@) matches Some(salt)
            &&& base64_url_bytes(payload.nonce@) matches Some(nonce)
            &&& base64_url_bytes(payload.ciphertext@) matches Some(sealed)
            &&& nonce.len() == 12
            &&& aes256_gcm_opened(
                pbkdf2_sha256(encode_utf8(password@), salt, payload.iterations, 32),
                nonce,
                sealed,
            ) matches Some(bytes)
            &&& valid_utf8(bytes)
            &&& decode_utf8(bytes) == text
        },
{
}

} // verus!
