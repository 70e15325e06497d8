use vstd::prelude::*;
use vstd::slice::slice_to_vec;

use crate::errs::CustomErrs;
use ed25519_dalek::Signer;
use ed25519_dalek::Verifier;
use sha2::Digest;

verus! {

// Names for what the cryptographic backends return. Each name stands for the
// result of one outside function; the trusted items below state the facts
// relied on about them.

/// The SHA-256 digest of a byte string (sha2::Sha256).
pub uninterp spec fn digest_of(data: Seq<u8>) -> Seq<u8>;

/// The Ed25519 signature a 32-byte private key produces over a message
/// (ed25519_dalek::Keypair::sign; RFC 8032 signing is deterministic).
pub uninterp spec fn signature_of(private_key: Seq<u8>, msg: Seq<u8>) -> Seq<u8>;

/// The public key ed25519_dalek::PublicKey::from derives from a 32-byte
/// private key.
pub uninterp spec fn public_part_of(private_key: Seq<u8>) -> Seq<u8>;

/// Whether ed25519_dalek::PublicKey::verify accepts the triple.
pub uninterp spec fn signature_checks(public_key: Seq<u8>, msg: Seq<u8>, signature: Seq<u8>) -> bool;

/// Whether ed25519_dalek::PublicKey::from_bytes accepts the bytes:
/// exactly 32 bytes that decode to a point of the curve.
pub uninterp spec fn valid_public_key(public_key: Seq<u8>) -> bool;

/// The shape check ed25519::Signature::from_bytes makes before any curve
/// work: exactly 64 bytes, with the top three bits of the last byte clear.
pub open spec fn signature_bytes_ok(signature: Seq<u8>) -> bool {
    signature.len() == 64 && signature[63] & 0xe0 == 0
}

/// Relies on sha2::Sha256 (new, update, finalize): the digest holds 32 bytes
/// and depends on the input bytes alone.
#[verifier::external_body]
fn sha256(data: &[u8]) -> (r: Vec<u8>)
    ensures
        r@ == digest_of(data@),
        r@.len() == 32,
{
    let mut hasher = sha2::Sha256::new();
    hasher.update(data);
    hasher.finalize().to_vec()
}

/// Generates a fresh Ed25519 key pair as (public key, private key).
/// Relies on ed25519_dalek::Keypair::generate: the secret key holds 32
/// bytes, and the public key is the 32-byte valid curve point that
/// PublicKey::from derives from it.
#[verifier::external_body]
pub fn generate_key_pair() -> (r: (Vec<u8>, Vec<u8>))
    ensures
        r.0@.len() == 32,
        r.1@.len() == 32,
        r.0@ == public_part_of(r.1@),
        valid_public_key(r.0@),
{
    let mut csprng = rand::rngs::OsRng;
    let keypair = ed25519_dalek::Keypair::generate(&mut csprng);
    let public_key = keypair.public.to_bytes().to_vec();
    let private_key = keypair.secret.to_bytes().to_vec();
    (public_key, private_key)
}

/// Signs a message with an Ed25519 private key.
/// Relies on ed25519_dalek: SecretKey::from_bytes accepts exactly the
/// 32-byte strings; Keypair::sign is deterministic (RFC 8032, section
/// 5.1.6) and returns a canonical 64-byte signature that
/// PublicKey::verify accepts under the public key derived from the
/// secret; that derived key is the compressed encoding of a real curve
/// point, so PublicKey::from_bytes accepts it.
#[verifier::external_body]
pub fn sign(msg: &[u8], key: &[u8]) -> (r: Result<Vec<u8>, CustomErrs>)
    ensures
        r is Ok <==> key@.len() == 32,
        r is Err ==> r->Err_0 == CustomErrs::InvalidPrivateKey,
        r matches Ok(sig) ==> sig@ == signature_of(key@, msg@),
        r matches Ok(sig) ==> signature_bytes_ok(sig@),
        r matches Ok(sig) ==> signature_checks(public_part_of(key@), msg@, sig@),
        r matches Ok(sig) ==> valid_public_key(public_part_of(key@)),
{
    let secret = match ed25519_dalek::SecretKey::from_bytes(key) {
        Ok(secret) => secret,
        Err(_) => return Err(CustomErrs::InvalidPrivateKey),
    };
    let keypair = ed25519_dalek::Keypair { public: ed25519_dalek::PublicKey::from(&secret), secret };
    Ok(keypair.sign(msg).as_ref().to_vec())
}

/// Checks an Ed25519 signature over a message under a public key.
/// Relies on ed25519 and ed25519_dalek: Signature::from_bytes accepts
/// exactly the shapes that signature_bytes_ok describes;
/// PublicKey::from_bytes accepts exactly the 32-byte curve-point encodings;
/// PublicKey::verify depends on its three inputs alone.
#[verifier::external_body]
pub fn verify_signature(public_key: &[u8], msg: &[u8], signature: &[u8]) -> (r: Result<(), CustomErrs>)
    ensures
        r is Ok <==> (signature_bytes_ok(signature@) && valid_public_key(public_key@) && signature_checks(public_key@, msg@, signature@)),
        (r is Err && r->Err_0 == CustomErrs::InvalidSignature) <==> !signature_bytes_ok(signature@),
        (r is Err && r->Err_0 == CustomErrs::InvalidPublicKey) <==> (signature_bytes_ok(signature@) && !valid_public_key(public_key@)),
        (r is Err && r->Err_0 == CustomErrs::VerificationDoesNotMatch) <==> (signature_bytes_ok(signature@) && valid_public_key(public_key@) && !signature_checks(public_key@, msg@, signature@)),
{
    let dalek = match ed25519_dalek::Signature::from_bytes(signature) {
        Ok(sig) => sig,
        Err(_) => return Err(CustomErrs::InvalidSignature),
    };
    let key = match ed25519_dalek::PublicKey::from_bytes(public_key) {
        Ok(key) => key,
        Err(_) => return Err(CustomErrs::InvalidPublicKey),
    };
    match key.verify(msg, &dalek) {
        Ok(()) => Ok(()),
        Err(_) => Err(CustomErrs::VerificationDoesNotMatch),
    }
}

/// A fixed-size digest value: exactly 32 bytes.
#[derive(Debug)]
pub struct Hash {
    data: Vec<u8>,
}

impl View for Hash {
    type V = Seq<u8>;

    closed spec fn view(&self) -> Seq<u8> {
        self.data@
    }
}

impl Hash {
    /// A digest is well formed when it holds exactly 32 bytes.
    pub open spec fn wf(&self) -> bool {
        self@.len() == 32
    }

    fn new(data: Vec<u8>) -> (r: Hash)
        ensures
            r@ == data@,
    {
        Hash { data }
    }

    /// Wraps digest bytes read back from storage; anything but exactly 32
    /// bytes is refused.
    pub fn from_vec(data: Vec<u8>) -> (r: Option<Hash>)
        ensures
            r matches Some(h) ==> h@ == data@ && h.wf(),
            (r is Some) == (data@.len() == 32),
    {
        if data.len() == 32 {
            Some(Hash { data })
        } else {
            None
        }
    }

    /// The digest bytes as a fresh vector.
    pub fn to_vec(&self) -> (r: Vec<u8>)
        ensures
            r@ == self@,
    {
        slice_to_vec(self.data.as_slice())
    }

    /// The digest bytes, borrowed.
    pub fn as_slice(&self) -> (r: &[u8])
        ensures
            r@ == self@,
    {
        self.data.as_slice()
    }
}

/// Hashes a canonical byte encoding into a fixed-size digest.
pub fn encrypt(data: &[u8]) -> (r: Hash)
    ensures
        r@ == digest_of(data@),
        r.wf(),
{
    Hash::new(sha256(data))
}

/// Checks a byte encoding against a digest.
pub fn validate(data: &[u8], hash: &Hash) -> (r: bool)
    ensures
        r == (hash@ == digest_of(data@)),
{
    let fresh = encrypt(data);
    eq_bytes(hash.as_slice(), fresh.as_slice())
}

/// Compares two byte strings.
pub(crate) fn eq_bytes(a: &[u8], b: &[u8]) -> (r: bool)
    ensures
        r == (a@ == b@),
{
    if a.len() != b.len() {
        return false;
    }
    let mut i: usize = 0;
    while i < a.len()
        invariant
            a@.len() == b@.len(),
            i <= a@.len(),
            forall|j: int| 0 <= j < i ==> a@[j] == b@[j],
        decreases a@.len() - i,
    {
        if a[i] != b[i] {
            return false;
        }
        i = i + 1;
    }
    proof {
        assert(a@ =~= b@);
    }
    true
}

} // verus!
