//! Detached Ed25519 signatures bound to a package's freshly computed digest.

use vstd::prelude::*;
use crate::digest::{hex_lower, hexlower_decode, is_lower_hex, lemma_hex_injective, lemma_hex_len, to_hex};
use crate::names::{chars_of, string_of};
use crate::model::PackageError;
use crate::package::{digest_package, package_digest};

verus! {

/// The signature scheme a signature value was made with.
#[derive(Debug, Clone, Copy, PartialEq, Eq, Structural)]
pub enum SignatureAlgorithm {
    Ed25519,
}

/// A detached signature: the algorithm, the package digest it was issued for, and
/// the signature bytes over that digest.
pub struct Signature {
    pub algorithm: SignatureAlgorithm,
    pub digest: Vec<u8>,
    pub bytes: Vec<u8>,
}

/// The outcome of a completed verification.
#[derive(Debug, Clone, Copy, PartialEq, Eq, Structural)]
pub enum Verdict {
    Valid,
    Invalid,
}

/// The Ed25519 signature of `msg` under the 32-byte secret key `secret`.
pub uninterp spec fn ed25519_signature(secret: Seq<u8>, msg: Seq<u8>) -> Seq<u8>;

/// Whether the 32-byte public key `public` accepts `sig` as a signature of `msg`.
pub uninterp spec fn ed25519_accepts(public: Seq<u8>, msg: Seq<u8>, sig: Seq<u8>) -> bool;

/// `public` belongs to `secret`: it accepts every signature that `secret` makes.
pub open spec fn is_key_pair(secret: Seq<u8>, public: Seq<u8>) -> bool {
    forall|m: Seq<u8>| #[trigger] ed25519_accepts(public, m, ed25519_signature(secret, m))
}

/// Relies on `ed25519_dalek::SigningKey::from_bytes` and `Signer::sign`: the
/// deterministic 64-byte Ed25519 signature of `msg`.
#[verifier::external_body]
fn ed25519_sign(secret: &Vec<u8>, msg: &Vec<u8>) -> (r: Vec<u8>)
    requires
        secret@.len() == 32,
    ensures
        r@ == ed25519_signature(secret@, msg@),
        r@.len() == 64,
{
    let mut key = [0u8; 32];
    key.copy_from_slice(secret.as_slice());
    let signing = ed25519_dalek::SigningKey::from_bytes(&key);
    ed25519_dalek::Signer::sign(&signing, msg.as_slice()).to_bytes().to_vec()
}

/// The 32 bytes `public` encode an Ed25519 public key.
pub uninterp spec fn ed25519_key_valid(public: Seq<u8>) -> bool;

/// Relies on `ed25519_dalek::VerifyingKey::from_bytes` and `Verifier::verify`:
/// `None` exactly when the key bytes are not a public key, else whether the key
/// accepts `sig` for `msg`.
#[verifier::external_body]
fn ed25519_check(public: &Vec<u8>, msg: &Vec<u8>, sig: &Vec<u8>) -> (r: Option<bool>)
    requires
        public@.len() == 32,
        sig@.len() == 64,
    ensures
        r is Some <==> ed25519_key_valid(public@),
        r matches Some(b) ==> b == ed25519_accepts(public@, msg@, sig@),
{
    let mut key = [0u8; 32];
    key.copy_from_slice(public.as_slice());
    let mut sig_bytes = [0u8; 64];
    sig_bytes.copy_from_slice(sig.as_slice());
    match ed25519_dalek::VerifyingKey::from_bytes(&key) {
        Ok(k) => Some(
            ed25519_dalek::Verifier::verify(
                &k,
                msg.as_slice(),
                &ed25519_dalek::Signature::from_bytes(&sig_bytes),
            ).is_ok(),
        ),
        Err(_) => None,
    }
}

/// The (digest, signature bytes) that signing the package in `package` with
/// `secret` issues, or why there are none.
pub open spec fn signed_value(package: Seq<u8>, secret: Seq<u8>) -> Result<
    (Seq<u8>, Seq<u8>),
    PackageError,
> {
    if secret.len() != 32 {
        Err(PackageError::KeyError)
    } else {
        match package_digest(package) {
            Ok(d) => Ok((d, ed25519_signature(secret, d))),
            Err(e) => Err(e),
        }
    }
}

/// A signature value has the shape its algorithm asks for.
pub open spec fn well_formed(sig_digest: Seq<u8>, sig_bytes: Seq<u8>) -> bool {
    sig_digest.len() == 32 && sig_bytes.len() == 64
}

/// The verdict on a package whose digest is `d`: valid only when the signature
/// was issued for `d` and the public key accepts it.
pub open spec fn verdict_of(d: Seq<u8>, sig_digest: Seq<u8>, sig_bytes: Seq<u8>, public: Seq<u8>) -> Verdict {
    if sig_digest == d && ed25519_accepts(public, d, sig_bytes) {
        Verdict::Valid
    } else {
        Verdict::Invalid
    }
}

/// Whether two byte strings are equal.
fn bytes_equal(a: &Vec<u8>, b: &Vec<u8>) -> (r: bool)
    ensures
        r == (a@ == b@),
{
    if a.len() != b.len() {
        return false;
    }
    let mut i: usize = 0;
    while i < a.len()
        invariant
            a@.len() == b@.len(),
            0 <= i <= a@.len(),
            forall|j: int| 0 <= j < i ==> a@[j] == b@[j],
        decreases a@.len() - i,
    {
        if a[i] != b[i] {
            return false;
        }
        i = i + 1;
    }
    assert(a@ =~= b@);
    true
}

/// Signs the package in `package` with the 32-byte Ed25519 secret key `secret`.
/// The digest is computed here from the package's bytes, never taken from the
/// caller. Fails with `KeyError` when the key does not have 32 bytes, and with
/// the digest's error when the package cannot be digested.
pub fn sign(package: Vec<u8>, secret: &Vec<u8>) -> (r: Result<Signature, PackageError>)
    ensures
        secret@.len() != 32 ==> r == Err::<Signature, PackageError>(PackageError::KeyError),
        r matches Ok(s) ==> s.algorithm == SignatureAlgorithm::Ed25519 && signed_value(
            package@,
            secret@,
        ) == Ok::<(Seq<u8>, Seq<u8>), PackageError>((s.digest@, s.bytes@)) && well_formed(
            s.digest@,
            s.bytes@,
        ),
        r matches Err(e) ==> (e == PackageError::KeyError <==> secret@.len() != 32),
        secret@.len() == 32 && package_digest(package@) is Ok ==> r is Ok,
        secret@.len() == 32 && package_digest(package@) is Err ==> r == Err::<Signature, PackageError>(
            package_digest(package@)->Err_0,
        ),
{
    if secret.len() != 32 {
        return Err(PackageError::KeyError);
    }
    let digest = digest_package(package)?;
    let bytes = ed25519_sign(secret, &digest);
    Ok(Signature { algorithm: SignatureAlgorithm::Ed25519, digest, bytes })
}

/// Verifies `sig` against the package in `package`, whose digest is recomputed
/// here, and the 32-byte public key `public`. `Invalid` is a normal outcome: the
/// signature was issued for another digest or the key does not accept it.
/// Fails with `KeyError` for malformed key material, with `SignatureFormatError`
/// for a malformed signature value, and with the digest's error when the
/// package cannot be digested.
pub fn verify(package: Vec<u8>, sig: &Signature, public: &Vec<u8>) -> (r: Result<Verdict, PackageError>)
    ensures
        public@.len() != 32 ==> r == Err::<Verdict, PackageError>(PackageError::KeyError),
        public@.len() == 32 && !well_formed(sig.digest@, sig.bytes@) ==> r == Err::<
            Verdict,
            PackageError,
        >(PackageError::SignatureFormatError),
        r matches Ok(v) ==> package_digest(package@) is Ok && v == verdict_of(
            package_digest(package@)->Ok_0,
            sig.digest@,
            sig.bytes@,
            public@,
        ),
        r matches Err(e) ==> e == PackageError::KeyError || e == PackageError::SignatureFormatError
            || e == PackageError::NotAPackage || e == PackageError::CorruptEntry,
        r == Err::<Verdict, PackageError>(PackageError::KeyError) ==> public@.len() != 32 || (
        package_digest(package@) == Ok::<Seq<u8>, PackageError>(sig.digest@)),
        public@.len() == 32 && well_formed(sig.digest@, sig.bytes@) && package_digest(package@) is Err
            ==> r == Err::<Verdict, PackageError>(package_digest(package@)->Err_0),
        public@.len() == 32 && well_formed(sig.digest@, sig.bytes@) && package_digest(package@) is Ok
            && ed25519_key_valid(public@) ==> r is Ok,
        r == Err::<Verdict, PackageError>(PackageError::KeyError) ==> public@.len() != 32
            || !ed25519_key_valid(public@),
        public@.len() == 32 && well_formed(sig.digest@, sig.bytes@) && package_digest(package@) is Ok
            && !ed25519_key_valid(public@) ==> r == (if sig.digest@ == package_digest(package@)->Ok_0 {
            Err::<Verdict, PackageError>(PackageError::KeyError)
        } else {
            Ok::<Verdict, PackageError>(Verdict::Invalid)
        }),
{
    if public.len() != 32 {
        return Err(PackageError::KeyError);
    }
    if sig.digest.len() != 32 || sig.bytes.len() != 64 {
        return Err(PackageError::SignatureFormatError);
    }
    let digest = digest_package(package)?;
    if !bytes_equal(&digest, &sig.digest) {
        return Ok(Verdict::Invalid);
    }
    match ed25519_check(public, &digest, &sig.bytes) {
        Some(true) => Ok(Verdict::Valid),
        Some(false) => Ok(Verdict::Invalid),
        None => Err(PackageError::KeyError),
    }
}

/// The text form of a signature's algorithm tag.
pub open spec fn signature_prefix() -> Seq<char> {
    seq!['e', 'd', '2', '5', '5', '1', '9', ':']
}

/// The self-contained text form of a signature: `ed25519:<digest hex>:<signature hex>`.
pub open spec fn signature_text(d: Seq<u8>, b: Seq<u8>) -> Seq<char> {
    signature_prefix() + hex_lower(d) + seq![':'] + hex_lower(b)
}

/// `t` is the text form of a well-formed signature.
pub open spec fn is_signature_text(t: Seq<char>) -> bool {
    exists|d: Seq<u8>, b: Seq<u8>| well_formed(d, b) && t == #[trigger] signature_text(d, b)
}

/// Appends `s` to `acc`.
fn append_chars(acc: &mut Vec<char>, s: &Vec<char>)
    ensures
        final(acc)@ == old(acc)@ + s@,
{
    let ghost start = acc@;
    let mut i: usize = 0;
    while i < s.len()
        invariant
            0 <= i <= s@.len(),
            acc@ == start + s@.subrange(0, i as int),
        decreases s@.len() - i,
    {
        acc.push(s[i]);
        assert(start + s@.subrange(0, i as int + 1) =~= (start + s@.subrange(0, i as int)).push(
            s@[i as int],
        ));
        i = i + 1;
    }
    assert(s@.subrange(0, s@.len() as int) =~= s@);
}

/// The characters `t[lo..hi]`.
fn chars_between(t: &Vec<char>, lo: usize, hi: usize) -> (r: Vec<char>)
    requires
        lo <= hi <= t@.len(),
    ensures
        r@ == t@.subrange(lo as int, hi as int),
{
    let mut r: Vec<char> = Vec::new();
    let mut i: usize = lo;
    while i < hi
        invariant
            lo <= i <= hi <= t@.len(),
            r@ == t@.subrange(lo as int, i as int),
        decreases hi - i,
    {
        r.push(t[i]);
        assert(t@.subrange(lo as int, i as int + 1) =~= t@.subrange(lo as int, i as int).push(
            t@[i as int],
        ));
        i = i + 1;
    }
    r
}

impl Signature {
    /// The self-contained text form of this signature.
    pub fn to_text(&self) -> (r: String)
        ensures
            r@ == signature_text(self.digest@, self.bytes@),
    {
        proof {
            reveal_strlit("ed25519:");
        }
        let mut v = chars_of("ed25519:");
        assert(v@ =~= signature_prefix());
        let d = to_hex(&self.digest);
        append_chars(&mut v, &chars_of(d.as_str()));
        v.push(':');
        let b = to_hex(&self.bytes);
        append_chars(&mut v, &chars_of(b.as_str()));
        assert(v@ =~= signature_text(self.digest@, self.bytes@));
        string_of(&v)
    }

    /// Reads a signature from its text form; `SignatureFormatError` when `text`
    /// is not the text form of a well-formed signature.
    pub fn from_text(text: &str) -> (r: Result<Signature, PackageError>)
        ensures
            r is Ok <==> is_signature_text(text@),
            r matches Ok(s) ==> s.algorithm == SignatureAlgorithm::Ed25519 && well_formed(
                s.digest@,
                s.bytes@,
            ) && signature_text(s.digest@, s.bytes@) == text@,
            r matches Err(e) ==> e == PackageError::SignatureFormatError,
    {
        proof {
            reveal_strlit("ed25519:");
        }
        let t = chars_of(text);
        let p = chars_of("ed25519:");
        if t.len() != 201 {
            proof {
                if is_signature_text(text@) {
                    lemma_signature_text_shape(text@);
                }
            }
            return Err(PackageError::SignatureFormatError);
        }
        let head = chars_between(&t, 0, 8);
        let mut i: usize = 0;
        while i < 8
            invariant
                head@ == t@.subrange(0, 8),
                head@.len() == 8,
                t@.len() == 201,
                t@ == text@,
                p@ == signature_prefix(),
                0 <= i <= 8,
                forall|j: int| 0 <= j < i ==> head@[j] == p@[j],
            decreases 8 - i,
        {
            if head[i] != p[i] {
                proof {
                    if is_signature_text(text@) {
                        lemma_signature_text_shape(text@);
                    }
                }
                return Err(PackageError::SignatureFormatError);
            }
            i = i + 1;
        }
        assert(head@ =~= signature_prefix());
        if t[72] != ':' {
            proof {
                if is_signature_text(text@) {
                    lemma_signature_text_shape(text@);
                }
            }
            return Err(PackageError::SignatureFormatError);
        }
        let dh = string_of(&chars_between(&t, 8, 72));
        let bh = string_of(&chars_between(&t, 73, 201));
        let digest = match hexlower_decode(dh.as_str()) {
            Some(d) => d,
            None => {
                proof {
                    if is_signature_text(text@) {
                        lemma_signature_text_shape(text@);
                    }
                }
                return Err(PackageError::SignatureFormatError);
            },
        };
        let bytes = match hexlower_decode(bh.as_str()) {
            Some(b) => b,
            None => {
                proof {
                    if is_signature_text(text@) {
                        lemma_signature_text_shape(text@);
                    }
                }
                return Err(PackageError::SignatureFormatError);
            },
        };
        proof {
            lemma_hex_len(digest@);
            lemma_hex_len(bytes@);
            assert(text@ =~= signature_text(digest@, bytes@));
        }
        Ok(Signature { algorithm: SignatureAlgorithm::Ed25519, digest, bytes })
    }
}

/// The shape of a signature's text form: 201 characters, the algorithm tag, 64
/// hex digits, a colon, 128 hex digits.
pub proof fn lemma_signature_text_shape(t: Seq<char>)
    requires
        is_signature_text(t),
    ensures
        t.len() == 201,
        t.subrange(0, 8) == signature_prefix(),
        t[72] == ':',
        is_lower_hex(t.subrange(8, 72)),
        is_lower_hex(t.subrange(73, 201)),
{
    let (d, b) = choose|d: Seq<u8>, b: Seq<u8>| well_formed(d, b) && t == #[trigger] signature_text(d, b);
    lemma_hex_len(d);
    lemma_hex_len(b);
    assert(t.subrange(0, 8) =~= signature_prefix());
    assert(t.subrange(8, 72) =~= hex_lower(d));
    assert(t.subrange(73, 201) =~= hex_lower(b));
}

/// The text form of every well-formed signature reads back as a signature.
pub proof fn lemma_signature_text_readable(d: Seq<u8>, b: Seq<u8>)
    requires
        well_formed(d, b),
    ensures
        is_signature_text(signature_text(d, b)),
{
}

/// The text form determines the signature: reading back the text of a
/// well-formed signature gives its digest and bytes unchanged.
pub proof fn lemma_signature_text_unique(d1: Seq<u8>, b1: Seq<u8>, d2: Seq<u8>, b2: Seq<u8>)
    requires
        well_formed(d1, b1),
        well_formed(d2, b2),
        signature_text(d1, b1) == signature_text(d2, b2),
    ensures
        d1 == d2,
        b1 == b2,
{
    lemma_hex_len(d1);
    lemma_hex_len(b1);
    lemma_hex_len(d2);
    lemma_hex_len(b2);
    let t = signature_text(d1, b1);
    assert(t.subrange(8, 72) =~= hex_lower(d1));
    assert(signature_text(d2, b2).subrange(8, 72) =~= hex_lower(d2));
    assert(t.subrange(73, 201) =~= hex_lower(b1));
    assert(signature_text(d2, b2).subrange(73, 201) =~= hex_lower(b2));
    lemma_hex_injective(d1, d2);
    lemma_hex_injective(b1, b2);
}

/// Signing a package and then verifying it, unchanged, with the public key of
/// the same key pair gives `Valid`.
pub proof fn lemma_sign_then_verify(package: Seq<u8>, secret: Seq<u8>, public: Seq<u8>)
    requires
        is_key_pair(secret, public),
        signed_value(package, secret) is Ok,
    ensures
        package_digest(package) is Ok,
        verdict_of(
            package_digest(package)->Ok_0,
            signed_value(package, secret)->Ok_0.0,
            signed_value(package, secret)->Ok_0.1,
            public,
        ) == Verdict::Valid,
{
    let d = package_digest(package)->Ok_0;
    assert(ed25519_accepts(public, d, ed25519_signature(secret, d)));
}

/// A signature issued for one package is judged `Invalid`, whatever the key, on a
/// package whose digest differs: tampering that changes the digest is detected as
/// a verdict, not as an error.
pub proof fn lemma_tampering_detected(
    original: Seq<u8>,
    tampered: Seq<u8>,
    secret: Seq<u8>,
    public: Seq<u8>,
)
    requires
        signed_value(original, secret) is Ok,
        package_digest(tampered) is Ok,
        package_digest(tampered)->Ok_0 != package_digest(original)->Ok_0,
    ensures
        verdict_of(
            package_digest(tampered)->Ok_0,
            signed_value(original, secret)->Ok_0.0,
            signed_value(original, secret)->Ok_0.1,
            public,
        ) == Verdict::Invalid,
{
}

} // verus!
