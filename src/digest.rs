//! The content digest of a package: SHA-256 over the concatenated bytes of its
//! content entries, in stored order, rendered as lowercase hexadecimal.

use vstd::prelude::*;
use crate::model::PackageError;
use crate::names::{chars_of, is_contained, is_contained_name};

verus! {

/// One stored entry of a package: its logical name and its uncompressed bytes.
pub struct PackageEntry {
    pub name: String,
    pub content: Vec<u8>,
}

/// The entries as (name, content) pairs of plain values.
pub open spec fn entries_view(es: Seq<PackageEntry>) -> Seq<(Seq<char>, Seq<u8>)> {
    es.map_values(|e: PackageEntry| (e.name@, e.content@))
}

/// The fixed logical name of the metadata record.
pub open spec fn metadata_name() -> Seq<char> {
    seq!['m', 'e', 't', 'a', '.', 't', 'o', 'm', 'l']
}

/// What one entry adds to the hashed stream: its content, unless it is the
/// metadata record, which is not hashed.
pub open spec fn hashed_part(e: (Seq<char>, Seq<u8>)) -> Seq<u8> {
    if e.0 == metadata_name() {
        Seq::empty()
    } else {
        e.1
    }
}

/// The bytes fed to the hash: the content entries' bytes concatenated in stored
/// order. Entry names take no part.
pub open spec fn content_stream(es: Seq<(Seq<char>, Seq<u8>)>) -> Seq<u8>
    decreases es.len(),
{
    if es.len() == 0 {
        Seq::empty()
    } else {
        content_stream(es.drop_last()) + hashed_part(es.last())
    }
}

/// Every entry name stays inside the package's namespace.
pub open spec fn all_contained(es: Seq<(Seq<char>, Seq<u8>)>) -> bool {
    forall|i: int| 0 <= i < es.len() ==> is_contained_name(#[trigger] es[i].0)
}

/// The SHA-256 digest of `data`.
pub uninterp spec fn sha256_of(data: Seq<u8>) -> Seq<u8>;

/// The digest of a package with these entries, or why there is none.
pub open spec fn entries_digest(es: Seq<(Seq<char>, Seq<u8>)>) -> Result<Seq<u8>, PackageError> {
    if all_contained(es) {
        Ok(sha256_of(content_stream(es)))
    } else {
        Err(PackageError::CorruptEntry)
    }
}

/// The lowercase hexadecimal digit of `n` (below 16).
pub open spec fn hex_digit(n: u8) -> char {
    seq!['0', '1', '2', '3', '4', '5', '6', '7', '8', '9', 'a', 'b', 'c', 'd', 'e', 'f'][n as int]
}

/// Lowercase hexadecimal: two digits per byte, high nibble first.
pub open spec fn hex_lower(b: Seq<u8>) -> Seq<char>
    decreases b.len(),
{
    if b.len() == 0 {
        Seq::empty()
    } else {
        hex_lower(b.drop_last()) + seq![hex_digit(b.last() / 16), hex_digit(b.last() % 16)]
    }
}

/// `s` is the lowercase hexadecimal form of some bytes.
pub open spec fn is_lower_hex(s: Seq<char>) -> bool {
    exists|b: Seq<u8>| #[trigger] hex_lower(b) == s
}

/// Relies on `data_encoding::HEXLOWER.decode`: it succeeds exactly on the
/// lowercase hexadecimal form of some bytes, and returns those bytes.
#[verifier::external_body]
pub(crate) fn hexlower_decode(s: &str) -> (r: Option<Vec<u8>>)
    ensures
        r is Some <==> is_lower_hex(s@),
        r matches Some(b) ==> hex_lower(b@) == s@,
{
    data_encoding::HEXLOWER.decode(s.as_bytes()).ok()
}

/// Relies on `sha2::Sha256::digest`: the 32-byte SHA-256 digest of `data`.
#[verifier::external_body]
fn sha256(data: &Vec<u8>) -> (r: Vec<u8>)
    ensures
        r@ == sha256_of(data@),
        r@.len() == 32,
{
    <sha2::Sha256 as sha2::Digest>::digest(data.as_slice()).to_vec()
}

/// Relies on `data_encoding::HEXLOWER.encode`: base16 with lowercase digits.
#[verifier::external_body]
fn hexlower_encode(b: &Vec<u8>) -> (r: String)
    ensures
        r@ == hex_lower(b@),
{
    data_encoding::HEXLOWER.encode(b.as_slice())
}

/// `bytes` as lowercase hexadecimal text.
pub fn to_hex(bytes: &Vec<u8>) -> (r: String)
    ensures
        r@ == hex_lower(bytes@),
        r@.len() == 2 * bytes@.len(),
{
    proof {
        lemma_hex_len(bytes@);
    }
    hexlower_encode(bytes)
}

/// Hex text has two digits per byte.
pub proof fn lemma_hex_len(b: Seq<u8>)
    ensures
        hex_lower(b).len() == 2 * b.len(),
    decreases b.len(),
{
    if b.len() > 0 {
        lemma_hex_len(b.drop_last());
    }
}

/// Appends `b` to `acc`.
fn append_bytes(acc: &mut Vec<u8>, b: &Vec<u8>)
    ensures
        final(acc)@ == old(acc)@ + b@,
{
    let ghost start = acc@;
    let mut i: usize = 0;
    while i < b.len()
        invariant
            0 <= i <= b@.len(),
            acc@ == start + b@.subrange(0, i as int),
        decreases b@.len() - i,
    {
        acc.push(b[i]);
        assert(start + b@.subrange(0, i as int + 1) =~= (start + b@.subrange(0, i as int)).push(
            b@[i as int],
        ));
        i = i + 1;
    }
    assert(b@.subrange(0, b@.len() as int) =~= b@);
}

/// Whether `name` is the metadata record's name.
pub fn is_metadata_name(name: &str) -> (r: bool)
    ensures
        r == (name@ == metadata_name()),
{
    let s = chars_of(name);
    let m: Vec<char> = vec!['m', 'e', 't', 'a', '.', 't', 'o', 'm', 'l'];
    assert(m@ =~= metadata_name());
    if s.len() != m.len() {
        return false;
    }
    let mut i: usize = 0;
    while i < s.len()
        invariant
            s@ == name@,
            m@ == metadata_name(),
            s@.len() == m@.len(),
            0 <= i <= s@.len(),
            forall|j: int| 0 <= j < i ==> s@[j] == m@[j],
        decreases s@.len() - i,
    {
        if s[i] != m[i] {
            return false;
        }
        i = i + 1;
    }
    assert(s@ =~= m@);
    true
}

/// The raw digest of a package with these entries: `CorruptEntry` when a name
/// leaves the package's namespace, else SHA-256 of the content stream.
pub fn digest_entries(entries: &Vec<PackageEntry>) -> (r: Result<Vec<u8>, PackageError>)
    ensures
        match r {
            Ok(d) => entries_digest(entries_view(entries@)) == Ok::<Seq<u8>, PackageError>(d@)
                && d@.len() == 32,
            Err(e) => entries_digest(entries_view(entries@)) == Err::<Seq<u8>, PackageError>(e),
        },
{
    let ghost es = entries_view(entries@);
    let mut stream: Vec<u8> = Vec::new();
    let mut i: usize = 0;
    while i < entries.len()
        invariant
            es == entries_view(entries@),
            0 <= i <= entries@.len(),
            stream@ == content_stream(es.subrange(0, i as int)),
            all_contained(es.subrange(0, i as int)),
        decreases entries@.len() - i,
    {
        let e = &entries[i];
        assert(es[i as int] == (e.name@, e.content@));
        if !is_contained(e.name.as_str()) {
            assert(!all_contained(es)) by {
                assert(!is_contained_name(es[i as int].0));
            }
            return Err(PackageError::CorruptEntry);
        }
        assert(es.subrange(0, i as int + 1).drop_last() =~= es.subrange(0, i as int));
        assert(es.subrange(0, i as int + 1).last() == es[i as int]);
        if !is_metadata_name(e.name.as_str()) {
            append_bytes(&mut stream, &e.content);
        } else {
            assert(stream@ + Seq::<u8>::empty() =~= stream@);
        }
        assert(all_contained(es.subrange(0, i as int + 1))) by {
            assert forall|j: int| 0 <= j < i + 1 implies is_contained_name(
                #[trigger] es.subrange(0, i as int + 1)[j].0,
            ) by {
                if j < i {
                    assert(es.subrange(0, i as int + 1)[j] == es.subrange(0, i as int)[j]);
                }
            }
        }
        i = i + 1;
    }
    assert(es.subrange(0, es.len() as int) =~= es);
    Ok(sha256(&stream))
}

/// The digest of a package with these entries, as lowercase hexadecimal.
pub fn hex_digest_entries(entries: &Vec<PackageEntry>) -> (r: Result<String, PackageError>)
    ensures
        match r {
            Ok(h) => entries_digest(entries_view(entries@)) is Ok && h@ == hex_lower(
                entries_digest(entries_view(entries@))->Ok_0,
            ),
            Err(e) => entries_digest(entries_view(entries@)) == Err::<Seq<u8>, PackageError>(e),
        },
{
    match digest_entries(entries) {
        Ok(d) => Ok(to_hex(&d)),
        Err(e) => Err(e),
    }
}

/// The hashed stream of two runs of entries is the stream of the first followed
/// by the stream of the second.
pub proof fn lemma_content_stream_append(a: Seq<(Seq<char>, Seq<u8>)>, b: Seq<(Seq<char>, Seq<u8>)>)
    ensures
        content_stream(a + b) == content_stream(a) + content_stream(b),
    decreases b.len(),
{
    if b.len() == 0 {
        assert(a + b =~= a);
        assert(content_stream(a) + content_stream(b) =~= content_stream(a));
    } else {
        lemma_content_stream_append(a, b.drop_last());
        assert((a + b).drop_last() =~= a + b.drop_last());
        assert((a + b).last() == b.last());
        assert(content_stream(a + b) =~= content_stream(a) + content_stream(b));
    }
}

/// The hashed stream of a single entry is its hashed part.
pub proof fn lemma_content_stream_single(e: (Seq<char>, Seq<u8>))
    ensures
        content_stream(seq![e]) == hashed_part(e),
{
    let s = seq![e];
    assert(s.drop_last() =~= Seq::<(Seq<char>, Seq<u8>)>::empty());
    assert(content_stream(s.drop_last()) == Seq::<u8>::empty());
    assert(s.last() == e);
    assert(Seq::<u8>::empty() + hashed_part(e) =~= hashed_part(e));
}

/// Changing one byte of one content entry changes the bytes that are hashed, and
/// with them the input of the digest.
pub proof fn lemma_byte_change_changes_stream(
    es: Seq<(Seq<char>, Seq<u8>)>,
    k: int,
    j: int,
    v: u8,
)
    requires
        0 <= k < es.len(),
        es[k].0 != metadata_name(),
        0 <= j < es[k].1.len(),
        v != es[k].1[j],
    ensures
        content_stream(es.update(k, (es[k].0, es[k].1.update(j, v)))) != content_stream(es),
{
    let x = es[k];
    let y = (x.0, x.1.update(j, v));
    let es2 = es.update(k, y);
    let a = es.subrange(0, k);
    let c = es.subrange(k + 1, es.len() as int);
    assert(es =~= a + seq![x] + c);
    assert(es2 =~= a + seq![y] + c);
    lemma_content_stream_append(a + seq![x], c);
    lemma_content_stream_append(a, seq![x]);
    lemma_content_stream_append(a + seq![y], c);
    lemma_content_stream_append(a, seq![y]);
    lemma_content_stream_single(x);
    lemma_content_stream_single(y);
    let sa = content_stream(a);
    let at = sa.len() + j;
    assert(content_stream(es) == sa + x.1 + content_stream(c));
    assert(content_stream(es2) == sa + y.1 + content_stream(c));
    assert(content_stream(es)[at] == x.1[j]);
    assert(content_stream(es2)[at] == v);
}

/// Entry names take no part in the digest: renaming a content entry to another
/// name that is not the metadata record's leaves the hashed bytes unchanged.
pub proof fn lemma_rename_keeps_stream(es: Seq<(Seq<char>, Seq<u8>)>, k: int, name: Seq<char>)
    requires
        0 <= k < es.len(),
        es[k].0 != metadata_name(),
        name != metadata_name(),
    ensures
        content_stream(es.update(k, (name, es[k].1))) == content_stream(es),
{
    let x = es[k];
    let y = (name, x.1);
    let a = es.subrange(0, k);
    let c = es.subrange(k + 1, es.len() as int);
    assert(es =~= a + seq![x] + c);
    assert(es.update(k, y) =~= a + seq![y] + c);
    lemma_content_stream_append(a + seq![x], c);
    lemma_content_stream_append(a, seq![x]);
    lemma_content_stream_append(a + seq![y], c);
    lemma_content_stream_append(a, seq![y]);
    lemma_content_stream_single(x);
    lemma_content_stream_single(y);
}

/// Distinct nibbles have distinct hex digits.
pub proof fn lemma_hex_digit_injective(a: u8, b: u8)
    requires
        a < 16,
        b < 16,
        hex_digit(a) == hex_digit(b),
    ensures
        a == b,
{
    let t = seq!['0', '1', '2', '3', '4', '5', '6', '7', '8', '9', 'a', 'b', 'c', 'd', 'e', 'f'];
    assert(t[0] == '0' && t[1] == '1' && t[2] == '2' && t[3] == '3' && t[4] == '4' && t[5] == '5'
        && t[6] == '6' && t[7] == '7' && t[8] == '8' && t[9] == '9' && t[10] == 'a' && t[11] == 'b'
        && t[12] == 'c' && t[13] == 'd' && t[14] == 'e' && t[15] == 'f');
}

/// Lowercase hex determines the bytes it encodes.
pub proof fn lemma_hex_injective(x: Seq<u8>, y: Seq<u8>)
    requires
        hex_lower(x) == hex_lower(y),
    ensures
        x == y,
    decreases x.len(),
{
    lemma_hex_len(x);
    lemma_hex_len(y);
    if x.len() > 0 {
        let hx = hex_lower(x);
        let n = hx.len();
        lemma_hex_len(x.drop_last());
        lemma_hex_len(y.drop_last());
        assert(hx[n - 2] == hex_digit(x.last() / 16));
        assert(hx[n - 1] == hex_digit(x.last() % 16));
        assert(hex_lower(y)[n - 2] == hex_digit(y.last() / 16));
        assert(hex_lower(y)[n - 1] == hex_digit(y.last() % 16));
        lemma_hex_digit_injective(x.last() / 16, y.last() / 16);
        lemma_hex_digit_injective(x.last() % 16, y.last() % 16);
        assert(hex_lower(x.drop_last()) =~= hx.subrange(0, n - 2));
        assert(hex_lower(y.drop_last()) =~= hex_lower(y).subrange(0, n - 2));
        lemma_hex_injective(x.drop_last(), y.drop_last());
        assert(x =~= x.drop_last().push(x.last()));
        assert(y =~= y.drop_last().push(y.last()));
    }
}

/// Replacing an entry by one with the same hashed part leaves the hashed bytes
/// unchanged.
pub proof fn lemma_same_hashed_part_keeps_stream(
    es: Seq<(Seq<char>, Seq<u8>)>,
    k: int,
    e: (Seq<char>, Seq<u8>),
)
    requires
        0 <= k < es.len(),
        hashed_part(e) == hashed_part(es[k]),
    ensures
        content_stream(es.update(k, e)) == content_stream(es),
{
    let x = es[k];
    let a = es.subrange(0, k);
    let c = es.subrange(k + 1, es.len() as int);
    assert(es =~= a + seq![x] + c);
    assert(es.update(k, e) =~= a + seq![e] + c);
    lemma_content_stream_append(a + seq![x], c);
    lemma_content_stream_append(a, seq![x]);
    lemma_content_stream_append(a + seq![e], c);
    lemma_content_stream_append(a, seq![e]);
    lemma_content_stream_single(x);
    lemma_content_stream_single(e);
}

} // verus!
