//! Cryptographic helpers, peripheral to the transport: RSA decryption and
//! password hashing, each a thin face over an outside library. The transport
//! core never calls them.

use vstd::prelude::*;

use crate::error::Error;

pub use openssl::pkey::Private;
pub use openssl::rsa::Rsa;

verus! {

#[verifier::external_type_specification]
#[verifier::external_body]
#[verifier::reject_recursive_types(T)]
pub struct ExRsa<T>(openssl::rsa::Rsa<T>);

#[verifier::external_type_specification]
#[verifier::external_body]
pub struct ExPrivate(openssl::pkey::Private);

/// Whether, under bcrypt, `plaintext` is the password that `hashed` was
/// derived from. The check recomputes the hash with the salt and cost carried
/// inside `hashed`, so it depends on the two arguments alone.
pub uninterp spec fn bcrypt_match(plaintext: Seq<char>, hashed: Seq<char>) -> bool;

/// Decrypts `bytes` with the private key of the given RSA key pair, under
/// PKCS#1 padding. Returns the decrypted buffer (one key-size wide) together
/// with the length actually decrypted into it, or a typed failure.
///
/// Relies on openssl's `Rsa::private_decrypt` and `Rsa::size`: the output
/// buffer is allocated at `size()` bytes, as `private_decrypt` demands, and
/// the returned count is the number of bytes decrypted into it.
#[verifier::external_body]
pub fn decrypt(rsa: &Rsa<Private>, bytes: &[u8]) -> (r: Result<(Vec<u8>, usize), Error>)
    requires
        bytes@.len() <= 0x7fff_ffff,
    ensures
        r matches Ok(p) ==> p.1 <= p.0@.len(),
{
    let mut decrypted_bytes: Vec<u8> = vec![0; rsa.size() as usize];
    match rsa.private_decrypt(bytes, &mut decrypted_bytes, openssl::rsa::Padding::PKCS1) {
        Ok(decrypted_len) => Ok((decrypted_bytes, decrypted_len)),
        Err(_) => Err(Error::OpenSsl),
    }
}

/// Hashes a plaintext string under bcrypt with the given cost, salting it
/// with fresh OS randomness. `cost` must lie between 4 and 31; any other cost
/// is refused.
///
/// Relies on bcrypt's `hash`: a cost outside `4..=31` fails with a cost
/// error, and a successful result is the 60-character bcrypt hash string.
#[verifier::external_body]
pub fn hash(plaintext: &str, cost: u32) -> (r: Result<String, Error>)
    ensures
        cost < 4 || cost > 31 ==> r is Err,
        r matches Ok(h) ==> h@.len() == 60,
{
    match bcrypt::hash(plaintext, cost) {
        Ok(hashed) => Ok(hashed),
        Err(_) => Err(Error::Bcrypt),
    }
}

/// Verifies a plaintext string against a hashed string.
///
/// Relies on bcrypt's `verify`: the outcome is a function of the password and
/// the hash string alone, named here [`bcrypt_match`]; a malformed hash
/// string is a typed failure.
#[verifier::external_body]
pub fn verify(plaintext: &str, hashed: &str) -> (r: Result<bool, Error>)
    ensures
        r matches Ok(m) ==> m == bcrypt_match(plaintext@, hashed@),
{
    match bcrypt::verify(plaintext, hashed) {
        Ok(is_match) => Ok(is_match),
        Err(_) => Err(Error::Bcrypt),
    }
}

} // verus!
