//! Building a post package as an uncompressed zip container, and reading one back
//! to compute its content digest.

use vstd::prelude::*;
use crate::digest::{
    all_contained, content_stream, digest_entries, entries_digest, entries_view, hashed_part,
    hex_lower, is_metadata_name, lemma_content_stream_append, lemma_content_stream_single,
    metadata_name, sha256_of, to_hex, PackageEntry,
};
use crate::model::PackageError;
use crate::names::{
    base_name, base_name_of, chars_of, has_no_control_chars, is_contained, is_contained_name,
    no_control_chars, string_of,
};

verus! {

#[verifier::external_type_specification]
#[verifier::external_body]
pub struct ExZipError(zip::result::ZipError);

#[verifier::external_type_specification]
#[verifier::external_body]
#[verifier::reject_recursive_types(T)]
pub struct ExCursor<T>(std::io::Cursor<T>);

#[verifier::external_type_specification]
#[verifier::external_body]
#[verifier::reject_recursive_types(R)]
pub struct ExZipArchive<R>(zip::ZipArchive<R>);

/// A zip container being written into memory, every entry stored without
/// compression.
#[verifier::external_body]
pub struct PackageWriter {
    inner: zip::ZipWriter<std::io::Cursor<Vec<u8>>>,
}

/// The (name, content) entries, in stored order, that the zip crate reads from
/// these container bytes.
pub uninterp spec fn zip_entries(bytes: Seq<u8>) -> Seq<(Seq<char>, Seq<u8>)>;

/// The zip crate opens these bytes as a container.
pub uninterp spec fn zip_opens(bytes: Seq<u8>) -> bool;

/// The zip crate reads the whole content of entry `i` of the container in these
/// bytes.
pub uninterp spec fn zip_entry_readable(bytes: Seq<u8>, i: int) -> bool;

/// The zip crate reads every entry of the container in these bytes.
pub open spec fn zip_entries_readable(bytes: Seq<u8>) -> bool {
    forall|i: int| 0 <= i < zip_entries(bytes).len() ==> #[trigger] zip_entry_readable(bytes, i)
}

/// Every entry of the container in these bytes is stored without compression.
pub uninterp spec fn zip_stored_only(bytes: Seq<u8>) -> bool;

/// The bytes an open container reads from.
pub uninterp spec fn reader_source(a: zip::ZipArchive<std::io::Cursor<Vec<u8>>>) -> Seq<u8>;

/// The (name, content) entries written so far, in order.
pub uninterp spec fn writer_entries(w: PackageWriter) -> Seq<(Seq<char>, Seq<u8>)>;

/// At `i` starts a central directory header (`PK\x01\x02`) whose local header
/// offset field holds `0xFFFFFFFF`, the mark that defers the offset to a zip64
/// extra field.
pub open spec fn deferred_offset_at(b: Seq<u8>, i: int) -> bool {
    &&& 0 <= i && i + 46 <= b.len()
    &&& b[i] == 0x50u8 && b[i + 1] == 0x4bu8 && b[i + 2] == 0x01u8 && b[i + 3] == 0x02u8
    &&& b[i + 42] == 0xffu8 && b[i + 43] == 0xffu8 && b[i + 44] == 0xffu8 && b[i + 45] == 0xffu8
}

/// Some central directory header at or after `start` defers its offset.
pub open spec fn deferred_offset_from(b: Seq<u8>, start: int) -> bool {
    exists|i: int| start <= i && #[trigger] deferred_offset_at(b, i)
}

/// The little-endian number in the `n` bytes of `b` at `i`.
pub open spec fn le_at(b: Seq<u8>, i: int, n: nat) -> int
    decreases n,
{
    if n == 0 {
        0
    } else {
        b[i] + 256 * le_at(b, i + 1, (n - 1) as nat)
    }
}

/// `b` holds the four-byte signature `PK`, `x`, `y` at `i`.
pub open spec fn signature_at(b: Seq<u8>, i: int, x: u8, y: u8) -> bool {
    0 <= i && i + 4 <= b.len() && b[i] == 0x50u8 && b[i + 1] == 0x4bu8 && b[i + 2] == x && b[i + 3]
        == y
}

/// The end record the zip reader settles on, searching down from `p` to `lo`.
pub open spec fn end_record_from(b: Seq<u8>, p: int, lo: int) -> Option<int>
    decreases p - lo + 1,
{
    if p < lo {
        None
    } else if signature_at(b, p, 0x05u8, 0x06u8) {
        Some(p)
    } else {
        end_record_from(b, p - 1, lo)
    }
}

/// The end record the zip reader settles on: the last signature at most 22
/// bytes from the end, within the 65535 bytes a comment may take.
pub open spec fn end_record(b: Seq<u8>) -> Option<int> {
    if b.len() < 22 {
        None
    } else {
        let lo = if b.len() - 22 - 65535 > 0 { b.len() - 22 - 65535 } else { 0 };
        end_record_from(b, b.len() - 22, lo)
    }
}

/// The zip reader's offset arithmetic can overflow on `b`: a deferred local
/// header offset where it reads central headers, while data precedes the archive
/// (or a zip64 directory is announced, for which any deferred offset counts).
pub open spec fn offset_overflow_risk(b: Seq<u8>) -> bool {
    match end_record(b) {
        None => false,
        Some(e) => if e + 22 > b.len() {
            false
        } else {
            let loc = b.len() - 42 - le_at(b, e + 20, 2);
            if signature_at(b, loc, 0x06u8, 0x07u8) {
                deferred_offset_from(b, 0)
            } else {
                let size = le_at(b, e + 12, 4);
                let offset = le_at(b, e + 16, 4);
                e - size - offset > 0 && deferred_offset_from(b, e - size)
            }
        },
    }
}

/// The archive ends in a 22-byte end record with no comment whose directory
/// size and offset add up to its position.
pub open spec fn plain_end_record(b: Seq<u8>) -> bool {
    let e = b.len() - 22;
    &&& b.len() >= 42
    &&& signature_at(b, e, 0x05u8, 0x06u8)
    &&& le_at(b, e + 20, 2) == 0
    &&& le_at(b, e + 12, 4) + le_at(b, e + 16, 4) == e
    &&& !signature_at(b, b.len() - 42, 0x06u8, 0x07u8)
}

/// The bytes a zip container of these entries takes, with room to spare: local
/// and central headers, names at up to four UTF-8 bytes per character, contents.
pub open spec fn zip_size_bound(es: Seq<(Seq<char>, Seq<u8>)>) -> nat
    decreases es.len(),
{
    if es.len() == 0 {
        100
    } else {
        zip_size_bound(es.drop_last()) + 100 + 8 * es.last().0.len() + es.last().1.len()
    }
}

/// Entries that a package container holds: under 65536 entries, names under
/// 16384 characters, and the whole container under 0x07064b50 bytes (about
/// 112 MiB). Below that size no header offset or size field of the last central
/// header can read as the zip64 locator signature that the zip reader looks for
/// in front of the end record.
pub open spec fn fits_zip32(es: Seq<(Seq<char>, Seq<u8>)>) -> bool {
    &&& es.len() < 65536
    &&& zip_size_bound(es) < 0x0706_4b50
    &&& forall|i: int| 0 <= i < es.len() ==> (#[trigger] es[i]).0.len() < 16384
}

/// Relies on `zip::ZipArchive::new`: whether it opens depends on `bytes` alone,
/// and the archive reads from `bytes`.
#[verifier::external_body]
fn open_archive(bytes: Vec<u8>) -> (r: Result<
    zip::ZipArchive<std::io::Cursor<Vec<u8>>>,
    zip::result::ZipError,
>)
    requires
        !offset_overflow_risk(bytes@),
        bytes@.len() < 0x1_0000_0000,
    ensures
        r is Ok <==> zip_opens(bytes@),
        r matches Ok(a) ==> reader_source(a) == bytes@,
{
    zip::ZipArchive::new(std::io::Cursor::new(bytes))
}

/// Relies on `zip::ZipArchive::len`: the number of entries.
#[verifier::external_body]
fn entry_count(a: &zip::ZipArchive<std::io::Cursor<Vec<u8>>>) -> (r: usize)
    ensures
        r == zip_entries(reader_source(*a)).len(),
{
    a.len()
}

/// Relies on `zip::ZipArchive::by_index`: the entry at `i`, its name and its
/// whole uncompressed content; whether it reads depends on the bytes and `i`.
#[verifier::external_body]
fn read_entry(a: &mut zip::ZipArchive<std::io::Cursor<Vec<u8>>>, i: usize) -> (r: Result<PackageEntry, zip::result::ZipError>)
    requires
        i < zip_entries(reader_source(*old(a))).len(),
    ensures
        reader_source(*final(a)) == reader_source(*old(a)),
        r is Ok <==> zip_entry_readable(reader_source(*old(a)), i as int),
        r matches Ok(e) ==> (e.name@, e.content@) == zip_entries(reader_source(*old(a)))[i as int],
{
    let mut f = a.by_index(i)?;
    let name = f.name().to_string();
    let mut content = Vec::new();
    std::io::Read::read_to_end(&mut f, &mut content)?;
    Ok(PackageEntry { name, content })
}

/// Relies on `zip::ZipWriter::new` over an empty in-memory cursor: no entries yet.
#[verifier::external_body]
fn new_writer() -> (r: PackageWriter)
    ensures
        writer_entries(r) == Seq::<(Seq<char>, Seq<u8>)>::empty(),
{
    PackageWriter { inner: zip::ZipWriter::new(std::io::Cursor::new(Vec::new())) }
}

/// Relies on `zip::ZipWriter::start_file` with the `Stored` method: a new, empty,
/// uncompressed entry under `name`; writing to memory fails only past zip's
/// 32-bit limits.
#[verifier::external_body]
fn start_stored_entry(w: &mut PackageWriter, name: &String) -> (r: Result<(), zip::result::ZipError>)
    requires
        name@.len() < 16384,
    ensures
        fits_zip32(writer_entries(*old(w)).push((name@, Seq::<u8>::empty()))) ==> r is Ok,
        r is Ok ==> writer_entries(*final(w)) == writer_entries(*old(w)).push(
            (name@, Seq::<u8>::empty()),
        ),
{
    let options = zip::write::FileOptions::default().compression_method(
        zip::CompressionMethod::Stored,
    );
    w.inner.start_file(name.as_str(), options)
}

/// Relies on `ZipWriter`'s `std::io::Write::write_all`: `b` is appended to the
/// entry being written; writing to memory fails only past 4 GiB in one entry.
#[verifier::external_body]
fn write_entry_bytes(w: &mut PackageWriter, b: &Vec<u8>) -> (r: Result<(), zip::result::ZipError>)
    requires
        writer_entries(*old(w)).len() > 0,
    ensures
        fits_zip32(
            writer_entries(*old(w)).drop_last().push(
                (writer_entries(*old(w)).last().0, writer_entries(*old(w)).last().1 + b@),
            ),
        ) ==> r is Ok,
        r is Ok ==> writer_entries(*final(w)) == writer_entries(*old(w)).drop_last().push(
            (writer_entries(*old(w)).last().0, writer_entries(*old(w)).last().1 + b@),
        ),
{
    match std::io::Write::write_all(&mut w.inner, b.as_slice()) {
        Ok(()) => Ok(()),
        Err(e) => Err(zip::result::ZipError::Io(e)),
    }
}

/// Relies on `zip::ZipWriter::finish`, which consumes the writer here: within
/// the package limits, with names free of control characters, it succeeds; the
/// zip reader opens the result, reads every entry, and finds exactly the entries
/// written, names and bytes, in order, all stored without compression. The
/// result ends in a 22-byte end record without comment whose directory offset
/// and size add up to the record's position, so nothing precedes the archive.
#[verifier::external_body]
fn finish_writer(w: PackageWriter) -> (r: Result<Vec<u8>, zip::result::ZipError>)
    requires
        fits_zip32(writer_entries(w)),
        forall|i: int| 0 <= i < writer_entries(w).len() ==> no_control_chars(
            #[trigger] writer_entries(w)[i].0,
        ),
    ensures
        r is Ok,
        r matches Ok(b) ==> zip_entries(b@) == writer_entries(w) && zip_opens(b@)
            && zip_entries_readable(b@) && zip_stored_only(b@) && plain_end_record(b@) && b@.len()
            <= zip_size_bound(writer_entries(w)),
{
    let mut w = w;
    match w.inner.finish() {
        Ok(cursor) => Ok(cursor.into_inner()),
        Err(e) => Err(e),
    }
}

/// The zip crate may be handed these bytes: no risk of offset overflow, and
/// under 4 GiB.
pub open spec fn safe_to_open(bytes: Seq<u8>) -> bool {
    !offset_overflow_risk(bytes) && bytes.len() < 0x1_0000_0000
}

/// The entries of the package stored in `bytes`, or why they cannot be read:
/// `NotAPackage` when the container cannot be opened (or is refused before
/// opening), `CorruptEntry` when some entry cannot be read whole.
pub open spec fn package_entries(bytes: Seq<u8>) -> Result<Seq<(Seq<char>, Seq<u8>)>, PackageError> {
    if !(safe_to_open(bytes) && zip_opens(bytes)) {
        Err(PackageError::NotAPackage)
    } else if !zip_entries_readable(bytes) {
        Err(PackageError::CorruptEntry)
    } else {
        Ok(zip_entries(bytes))
    }
}

/// The digest of the package stored in `bytes`, or why there is none.
pub open spec fn package_digest(bytes: Seq<u8>) -> Result<Seq<u8>, PackageError> {
    match package_entries(bytes) {
        Ok(es) => entries_digest(es),
        Err(e) => Err(e),
    }
}

/// An archive that ends in a plain end record, with nothing before it, is safe
/// to open.
pub proof fn lemma_plain_end_record_safe(b: Seq<u8>)
    requires
        plain_end_record(b),
        b.len() < 0x1_0000_0000,
    ensures
        safe_to_open(b),
{
    let lo = if b.len() - 22 - 65535 > 0 { b.len() - 22 - 65535 } else { 0 };
    assert(end_record_from(b, b.len() - 22, lo) == Some(b.len() - 22));
    assert(end_record(b) == Some(b.len() - 22));
}

/// Whether some central directory header at or after `start` defers its offset.
fn has_deferred_offset_from(b: &Vec<u8>, start: usize) -> (r: bool)
    ensures
        r == deferred_offset_from(b@, start as int),
{
    let n = b.len();
    if n < 46 || start > n - 46 {
        assert forall|i: int| start <= i implies !#[trigger] deferred_offset_at(b@, i) by {}
        return false;
    }
    let mut i: usize = start;
    while i <= n - 46
        invariant
            n == b@.len(),
            n >= 46,
            start <= i <= n - 45,
            forall|j: int| start <= j < i ==> !#[trigger] deferred_offset_at(b@, j),
        decreases n - i,
    {
        if b[i] == 0x50 && b[i + 1] == 0x4b && b[i + 2] == 0x01 && b[i + 3] == 0x02 && b[i + 42]
            == 0xff && b[i + 43] == 0xff && b[i + 44] == 0xff && b[i + 45] == 0xff {
            assert(deferred_offset_at(b@, i as int));
            return true;
        }
        i = i + 1;
    }
    assert forall|j: int| start <= j implies !#[trigger] deferred_offset_at(b@, j) by {
        if j < i {
        }
    }
    false
}

/// Whether `b` holds the signature `PK`, `x`, `y` at `i`.
fn has_signature_at(b: &Vec<u8>, i: usize, x: u8, y: u8) -> (r: bool)
    ensures
        r == signature_at(b@, i as int, x, y),
{
    i < b.len() && b.len() - i >= 4 && b[i] == 0x50 && b[i + 1] == 0x4b && b[i + 2] == x && b[i
        + 3] == y
}

/// The little-endian number in the two bytes at `i`.
fn le16_at(b: &Vec<u8>, i: usize) -> (r: u64)
    requires
        i + 2 <= b@.len(),
    ensures
        r == le_at(b@, i as int, 2),
{
    proof {
        reveal_with_fuel(le_at, 3);
    }
    let _n = b.len();
    let x0: u64 = b[i] as u64;
    let x1: u64 = b[i + 1] as u64;
    x0 + 256 * x1
}

/// The little-endian number in the four bytes at `i`.
fn le32_at(b: &Vec<u8>, i: usize) -> (r: u64)
    requires
        i + 4 <= b@.len(),
    ensures
        r == le_at(b@, i as int, 4),
{
    proof {
        reveal_with_fuel(le_at, 5);
    }
    let _n = b.len();
    let x0: u64 = b[i] as u64;
    let x1: u64 = b[i + 1] as u64;
    let x2: u64 = b[i + 2] as u64;
    let x3: u64 = b[i + 3] as u64;
    x0 + 256 * (x1 + 256 * (x2 + 256 * x3))
}

/// The end record the zip reader settles on.
fn find_end_record(b: &Vec<u8>) -> (r: Option<usize>)
    ensures
        r matches Some(e) ==> end_record(b@) == Some(e as int),
        r is None ==> end_record(b@) is None,
{
    let n = b.len();
    if n < 22 {
        return None;
    }
    let lo: usize = if n - 22 > 65535 { n - 22 - 65535 } else { 0 };
    let ghost glo: int = if b@.len() - 22 - 65535 > 0 { b@.len() - 22 - 65535 } else { 0 };
    assert(glo == lo);
    let mut p: usize = n - 22;
    while p >= lo
        invariant
            n == b@.len(),
            n >= 22,
            lo <= n - 22,
            glo == lo,
            p <= n - 22,
            end_record(b@) == end_record_from(b@, p as int, glo),
        decreases p,
    {
        if has_signature_at(b, p, 0x05, 0x06) {
            return Some(p);
        }
        if p == 0 {
            assert(end_record_from(b@, -1, glo) is None);
            return None;
        }
        p = p - 1;
    }
    None
}

/// Whether the zip reader's offset arithmetic can overflow on `b`.
fn has_overflow_risk(b: &Vec<u8>) -> (r: bool)
    ensures
        r == offset_overflow_risk(b@),
{
    let n = b.len();
    match find_end_record(b) {
        None => false,
        Some(e) => {
            if e > n - 22 {
                return false;
            }
            let comment = le16_at(b, e + 20);
            let loc_found = if (n as u64) >= 42 && comment <= (n as u64) - 42 {
                has_signature_at(b, (n as u64 - 42 - comment) as usize, 0x06, 0x07)
            } else {
                false
            };
            if loc_found {
                has_deferred_offset_from(b, 0)
            } else {
                let size = le32_at(b, e + 12);
                let offset = le32_at(b, e + 16);
                if (e as u64) > size && (e as u64) - size > offset {
                    has_deferred_offset_from(b, e - size as usize)
                } else {
                    false
                }
            }
        },
    }
}

/// Reads every entry of the package in `bytes`, in stored order.
pub fn read_package(bytes: Vec<u8>) -> (r: Result<Vec<PackageEntry>, PackageError>)
    ensures
        r matches Ok(es) ==> package_entries(bytes@) == Ok::<
            Seq<(Seq<char>, Seq<u8>)>,
            PackageError,
        >(entries_view(es@)),
        r matches Err(e) ==> package_entries(bytes@) == Err::<Seq<(Seq<char>, Seq<u8>)>, PackageError>(
            e,
        ),
{
    let ghost b = bytes@;
    let ghost model = zip_entries(bytes@);
    if bytes.len() as u64 >= 0x1_0000_0000u64 || has_overflow_risk(&bytes) {
        assert(!safe_to_open(b));
        return Err(PackageError::NotAPackage);
    }
    let mut a = match open_archive(bytes) {
        Ok(a) => a,
        Err(_) => {
            return Err(PackageError::NotAPackage);
        },
    };
    let n = entry_count(&a);
    let mut out: Vec<PackageEntry> = Vec::new();
    let mut i: usize = 0;
    while i < n
        invariant
            reader_source(a) == b,
            bytes@ == b,
            model == zip_entries(b),
            safe_to_open(b) && zip_opens(b),
            n == model.len(),
            0 <= i <= n,
            entries_view(out@) =~= model.subrange(0, i as int),
            forall|j: int| 0 <= j < i ==> #[trigger] zip_entry_readable(b, j),
        decreases n - i,
    {
        let e = match read_entry(&mut a, i) {
            Ok(e) => e,
            Err(_) => {
                assert(!zip_entry_readable(b, i as int));
                assert(!zip_entries_readable(b));
                assert(package_entries(b) == Err::<Seq<(Seq<char>, Seq<u8>)>, PackageError>(
                    PackageError::CorruptEntry,
                ));
                return Err(PackageError::CorruptEntry);
            },
        };
        let ghost prev = out@;
        let ghost ev = (e.name@, e.content@);
        assert(ev == model[i as int]);
        out.push(e);
        assert(out@ == prev.push(e));
        assert(entries_view(out@) =~= entries_view(prev).push(ev));
        assert(entries_view(out@) =~= model.subrange(0, i as int + 1));
        i = i + 1;
    }
    assert(model.subrange(0, n as int) =~= model);
    assert(zip_entries_readable(b));
    Ok(out)
}

/// The raw 32-byte digest of the package stored in `bytes`. Fails with
/// `NotAPackage` when the container cannot be opened or is refused before
/// opening (4 GiB or more, or crafted so that the zip reader's offset arithmetic
/// would overflow), and with `CorruptEntry`
/// when an entry cannot be read or its name leaves the package's namespace.
pub fn digest_package(bytes: Vec<u8>) -> (r: Result<Vec<u8>, PackageError>)
    ensures
        match r {
            Ok(d) => package_digest(bytes@) == Ok::<Seq<u8>, PackageError>(d@) && d@.len() == 32,
            Err(e) => package_digest(bytes@) == Err::<Seq<u8>, PackageError>(e),
        },
{
    let es = read_package(bytes)?;
    digest_entries(&es)
}

/// The digest of the package stored in `bytes`, as lowercase hexadecimal.
pub fn hash_package(bytes: Vec<u8>) -> (r: Result<String, PackageError>)
    ensures
        match r {
            Ok(h) => package_digest(bytes@) is Ok && h@ == hex_lower(package_digest(bytes@)->Ok_0),
            Err(e) => package_digest(bytes@) == Err::<Seq<u8>, PackageError>(e),
        },
{
    let d = digest_package(bytes)?;
    Ok(to_hex(&d))
}

/// The logical prefix under which assets are stored.
pub open spec fn assets_prefix() -> Seq<char> {
    seq!['a', 's', 's', 'e', 't', 's', '/']
}

/// The entry name of an asset whose relative path is `path`.
pub open spec fn asset_entry_name(path: Seq<char>) -> Seq<char> {
    assets_prefix() + path
}

/// The entries of a package built from this metadata record, document (its path
/// and bytes) and assets (relative path and bytes each): the metadata record
/// first, then the document under its base name, then the assets under the
/// assets prefix in the order given.
pub open spec fn planned_entries(
    meta: Seq<u8>,
    doc_path: Seq<char>,
    doc: Seq<u8>,
    assets: Seq<(Seq<char>, Seq<u8>)>,
) -> Seq<(Seq<char>, Seq<u8>)> {
    seq![(metadata_name(), meta), (base_name(doc_path), doc)] + assets.map_values(
        |a: (Seq<char>, Seq<u8>)| (asset_entry_name(a.0), a.1),
    )
}

/// The inputs name every entry inside the package: the document's base name is
/// a plain name other than the metadata record's, and each asset path is
/// relative and free of `..` segments.
pub open spec fn names_acceptable(doc_path: Seq<char>, assets: Seq<(Seq<char>, Seq<u8>)>) -> bool {
    &&& is_contained_name(base_name(doc_path))
    &&& no_control_chars(base_name(doc_path))
    &&& base_name(doc_path) != metadata_name()
    &&& forall|i: int| 0 <= i < assets.len() ==> is_contained_name(#[trigger] assets[i].0)
    &&& forall|i: int| 0 <= i < assets.len() ==> no_control_chars(#[trigger] assets[i].0)
}

/// Every planned entry name is free of control characters.
pub proof fn lemma_planned_names_plain(
    meta: Seq<u8>,
    doc_path: Seq<char>,
    doc: Seq<u8>,
    assets: Seq<(Seq<char>, Seq<u8>)>,
)
    requires
        names_acceptable(doc_path, assets),
    ensures
        forall|i: int|
            0 <= i < planned_entries(meta, doc_path, doc, assets).len() ==> no_control_chars(
                #[trigger] planned_entries(meta, doc_path, doc, assets)[i].0,
            ),
{
    let es = planned_entries(meta, doc_path, doc, assets);
    let m = metadata_name();
    assert(m[0] == 'm' && m[1] == 'e' && m[2] == 't' && m[3] == 'a' && m[4] == '.' && m[5] == 't'
        && m[6] == 'o' && m[7] == 'm' && m[8] == 'l');
    let pre = assets_prefix();
    assert(pre[0] == 'a' && pre[1] == 's' && pre[2] == 's' && pre[3] == 'e' && pre[4] == 't'
        && pre[5] == 's' && pre[6] == '/');
    assert forall|i: int| 0 <= i < es.len() implies no_control_chars(#[trigger] es[i].0) by {
        if i >= 2 {
            let path = assets[i - 2].0;
            let name = asset_entry_name(path);
            assert(es[i].0 == name);
            assert(no_control_chars(path));
            assert forall|j: int| 0 <= j < name.len() implies (#[trigger] name[j]) >= ' '
                && name[j] != '\x7f' by {
                if j >= 7 {
                    assert(name[j] == path[j - 7]);
                }
            }
        }
    }
}

/// Adding an entry to the end grows the size bound by that entry's share.
pub proof fn lemma_size_bound_push(es: Seq<(Seq<char>, Seq<u8>)>, e: (Seq<char>, Seq<u8>))
    ensures
        zip_size_bound(es.push(e)) == zip_size_bound(es) + 100 + 8 * e.0.len() + e.1.len(),
{
    assert(es.push(e).drop_last() =~= es);
}

/// Whatever fits a 32-bit container, each of its prefixes fits too.
pub proof fn lemma_fits_prefix(es: Seq<(Seq<char>, Seq<u8>)>, k: int)
    requires
        fits_zip32(es),
        0 <= k <= es.len(),
    ensures
        fits_zip32(es.subrange(0, k)),
    decreases es.len(),
{
    if k == es.len() {
        assert(es.subrange(0, k) =~= es);
    } else {
        let d = es.drop_last();
        assert(fits_zip32(d)) by {
            assert forall|i: int| 0 <= i < d.len() implies (#[trigger] d[i]).0.len() < 16384 by {
                assert(d[i] == es[i]);
            }
        }
        lemma_fits_prefix(d, k);
        assert(d.subrange(0, k) =~= es.subrange(0, k));
    }
}

/// Writes one whole stored entry.
fn write_entry(w: &mut PackageWriter, name: &String, content: &Vec<u8>) -> (r: Result<(), PackageError>)
    requires
        name@.len() < 16384,
    ensures
        fits_zip32(writer_entries(*old(w)).push((name@, content@))) ==> r is Ok,
        r is Ok ==> writer_entries(*final(w)) == writer_entries(*old(w)).push((name@, content@)),
        r matches Err(e) ==> e == PackageError::IOFailure,
{
    let ghost before = writer_entries(*w);
    proof {
        let with_empty = before.push((name@, Seq::<u8>::empty()));
        let whole = before.push((name@, content@));
        lemma_size_bound_push(before, (name@, Seq::<u8>::empty()));
        lemma_size_bound_push(before, (name@, content@));
        if fits_zip32(whole) {
            assert forall|i: int| 0 <= i < with_empty.len() implies (
            #[trigger] with_empty[i]).0.len() < 16384 by {
                assert(with_empty[i].0 == whole[i].0);
            }
        }
    }
    if start_stored_entry(w, name).is_err() {
        return Err(PackageError::IOFailure);
    }
    assert(writer_entries(*w).last().1 + content@ =~= content@);
    assert(writer_entries(*w).drop_last() =~= before);
    if write_entry_bytes(w, content).is_err() {
        return Err(PackageError::IOFailure);
    }
    assert(writer_entries(*w) =~= before.push((name@, content@)));
    Ok(())
}

/// The entry name of the asset at `path`.
fn asset_name(path: &str) -> (r: String)
    ensures
        r@ == asset_entry_name(path@),
{
    proof {
        reveal_strlit("assets/");
    }
    let mut name = chars_of("assets/");
    let p = chars_of(path);
    let mut j: usize = 0;
    let ghost start = name@;
    while j < p.len()
        invariant
            0 <= j <= p@.len(),
            name@ == start + p@.subrange(0, j as int),
        decreases p@.len() - j,
    {
        name.push(p[j]);
        assert(start + p@.subrange(0, j as int + 1) =~= (start + p@.subrange(0, j as int)).push(
            p@[j as int],
        ));
        j = j + 1;
    }
    assert(p@.subrange(0, p@.len() as int) =~= p@);
    assert(start =~= assets_prefix());
    string_of(&name)
}

/// The size bound's share of one entry, or `None` when its name is too long
/// for the container.
fn entry_share(name_len: usize, content_len: usize) -> (r: Option<u64>)
    ensures
        r is Some <==> name_len < 16384,
        r matches Some(v) ==> v == 100 + 8 * name_len + content_len || content_len
            >= 0x1_0000_0000 && v >= 0x1_0000_0000,
{
    if name_len >= 16384 {
        return None;
    }
    if content_len as u64 >= 0x1_0000_0000u64 {
        return Some(0x1_0000_0000u64);
    }
    Some(100 + 8 * name_len as u64 + content_len as u64)
}

/// Builds a package from a serialized metadata record, the primary document (its
/// path and bytes) and the assets (relative path and bytes each), in that order,
/// all stored without compression. Fails with `CorruptEntry` when a name would
/// leave the package's namespace or holds a control character, and with
/// `IOFailure` when the entries exceed the package limits. A package it builds
/// always hashes.
pub fn build_package(meta: &Vec<u8>, document: &PackageEntry, assets: &Vec<PackageEntry>) -> (r:
    Result<Vec<u8>, PackageError>)
    ensures
        !names_acceptable(document.name@, entries_view(assets@)) ==> r == Err::<Vec<u8>,
            PackageError>(PackageError::CorruptEntry),
        names_acceptable(document.name@, entries_view(assets@)) && !fits_zip32(
            planned_entries(meta@, document.name@, document.content@, entries_view(assets@)),
        ) ==> r == Err::<Vec<u8>, PackageError>(PackageError::IOFailure),
        r is Ok <==> names_acceptable(document.name@, entries_view(assets@)) && fits_zip32(
            planned_entries(meta@, document.name@, document.content@, entries_view(assets@)),
        ),
        r matches Ok(b) ==> zip_entries(b@) == planned_entries(
            meta@,
            document.name@,
            document.content@,
            entries_view(assets@),
        ) && zip_opens(b@) && zip_entries_readable(b@) && zip_stored_only(b@) && safe_to_open(b@)
            && package_digest(b@) == Ok::<Seq<u8>, PackageError>(
            sha256_of(
                content_stream(
                    planned_entries(
                        meta@,
                        document.name@,
                        document.content@,
                        entries_view(assets@),
                    ),
                ),
            ),
        ),
{
    let ghost av = entries_view(assets@);
    let doc_name = base_name_of(document.name.as_str());
    if !is_contained(doc_name.as_str()) || !has_no_control_chars(doc_name.as_str())
        || is_metadata_name(doc_name.as_str()) {
        assert(!names_acceptable(document.name@, av));
        return Err(PackageError::CorruptEntry);
    }
    let mut k: usize = 0;
    while k < assets.len()
        invariant
            av == entries_view(assets@),
            0 <= k <= assets@.len(),
            forall|j: int| 0 <= j < k ==> is_contained_name(#[trigger] av[j].0),
            forall|j: int| 0 <= j < k ==> no_control_chars(#[trigger] av[j].0),
        decreases assets@.len() - k,
    {
        if !is_contained(assets[k].name.as_str()) || !has_no_control_chars(
            assets[k].name.as_str(),
        ) {
            assert(av[k as int].0 == assets@[k as int].name@);
            assert(!names_acceptable(document.name@, av));
            return Err(PackageError::CorruptEntry);
        }
        k = k + 1;
    }
    assert(names_acceptable(document.name@, av));
    let ghost plan = planned_entries(meta@, document.name@, document.content@, av);
    assert(plan.len() == assets@.len() + 2);
    if assets.len() >= 65534 {
        return Err(PackageError::IOFailure);
    }
    let meta_name = string_of(&vec!['m', 'e', 't', 'a', '.', 't', 'o', 'm', 'l']);
    assert(meta_name@ =~= metadata_name());
    let doc_len = chars_of(doc_name.as_str()).len();
    assert(plan.subrange(0, 0) =~= Seq::<(Seq<char>, Seq<u8>)>::empty());
    assert(plan.subrange(0, 1) =~= plan.subrange(0, 0).push(plan[0]));
    assert(plan.subrange(0, 2) =~= plan.subrange(0, 1).push(plan[1]));
    proof {
        lemma_size_bound_push(plan.subrange(0, 0), plan[0]);
        lemma_size_bound_push(plan.subrange(0, 1), plan[1]);
    }
    let mut total: u64 = 100 + 100 + 8 * 9 + if meta.len() as u64 >= 0x1_0000_0000u64 {
        0x1_0000_0000u64
    } else {
        meta.len() as u64
    };
    if total >= 0x0706_4b50u64 {
        proof {
            if fits_zip32(plan) {
                lemma_fits_prefix(plan, 1);
            }
        }
        return Err(PackageError::IOFailure);
    }
    match entry_share(doc_len, document.content.len()) {
        Some(v) => {
            if v >= 0x0706_4b50u64 - total {
                proof {
                    if fits_zip32(plan) {
                        lemma_fits_prefix(plan, 2);
                    }
                }
                return Err(PackageError::IOFailure);
            }
            total = total + v;
        },
        None => {
            assert(plan[1].0.len() >= 16384);
            return Err(PackageError::IOFailure);
        },
    }
    assert(total == zip_size_bound(plan.subrange(0, 2)));
    let mut i: usize = 0;
    while i < assets.len()
        invariant
            av == entries_view(assets@),
            plan == planned_entries(meta@, document.name@, document.content@, av),
            plan.len() == assets@.len() + 2,
            0 <= i <= assets@.len(),
            total == zip_size_bound(plan.subrange(0, i as int + 2)),
            total < 0x0706_4b50,
            names_acceptable(document.name@, av),
            forall|j: int| 0 <= j < i + 2 ==> (#[trigger] plan[j]).0.len() < 16384,
        decreases assets@.len() - i,
    {
        let plen = chars_of(assets[i].name.as_str()).len();
        assert(plan[i as int + 2].0 == asset_entry_name(av[i as int].0));
        assert(plan[i as int + 2].0.len() == 7 + plen);
        assert(plan.subrange(0, i as int + 3) =~= plan.subrange(0, i as int + 2).push(
            plan[i as int + 2],
        ));
        proof {
            lemma_size_bound_push(plan.subrange(0, i as int + 2), plan[i as int + 2]);
        }
        if plen >= 16384 {
            return Err(PackageError::IOFailure);
        }
        match entry_share(plen + 7, assets[i].content.len()) {
            Some(v) => {
                if v >= 0x0706_4b50u64 - total {
                    proof {
                        if fits_zip32(plan) {
                            lemma_fits_prefix(plan, i as int + 3);
                        }
                    }
                    return Err(PackageError::IOFailure);
                }
                total = total + v;
            },
            None => {
                return Err(PackageError::IOFailure);
            },
        }
        i = i + 1;
    }
    assert(plan.subrange(0, plan.len() as int) =~= plan);
    assert(fits_zip32(plan));
    let mut w = new_writer();
    proof {
        lemma_fits_prefix(plan, 1);
        lemma_fits_prefix(plan, 2);
    }
    write_entry(&mut w, &meta_name, meta)?;
    assert(writer_entries(w) =~= plan.subrange(0, 1));
    write_entry(&mut w, &doc_name, &document.content)?;
    assert(writer_entries(w) =~= plan.subrange(0, 2));
    let mut i: usize = 0;
    while i < assets.len()
        invariant
            av == entries_view(assets@),
            plan == planned_entries(meta@, document.name@, document.content@, av),
            plan.len() == assets@.len() + 2,
            names_acceptable(document.name@, av),
            fits_zip32(plan),
            0 <= i <= assets@.len(),
            writer_entries(w) =~= plan.subrange(0, i as int + 2),
        decreases assets@.len() - i,
    {
        let entry_name = asset_name(assets[i].name.as_str());
        assert(plan[i as int + 2] == (asset_entry_name(av[i as int].0), av[i as int].1));
        assert(plan.subrange(0, i as int + 3) =~= plan.subrange(0, i as int + 2).push(
            plan[i as int + 2],
        ));
        proof {
            lemma_fits_prefix(plan, i as int + 3);
        }
        write_entry(&mut w, &entry_name, &assets[i].content)?;
        i = i + 1;
    }
    assert(plan.subrange(0, assets@.len() as int + 2) =~= plan);
    proof {
        lemma_planned_names_plain(meta@, document.name@, document.content@, av);
    }
    match finish_writer(w) {
        Ok(b) => {
            proof {
                lemma_plain_end_record_safe(b@);
                lemma_built_names_contained(meta@, document.name@, document.content@, av);
            }
            Ok(b)
        },
        Err(_) => Err(PackageError::IOFailure),
    }
}

/// No asset is ever stored under the metadata record's name.
pub proof fn lemma_asset_name_not_metadata(path: Seq<char>)
    ensures
        asset_entry_name(path) != metadata_name(),
{
    assert(asset_entry_name(path)[0] == 'a');
    assert(metadata_name()[0] == 'm');
}

/// The metadata record's name stays inside the package.
pub proof fn lemma_metadata_name_contained()
    ensures
        is_contained_name(metadata_name()),
{
    let m = metadata_name();
    assert forall|i: int| !#[trigger] crate::names::parent_segment_at(m, i) by {
        if 0 <= i && i + 1 < m.len() {
            assert(m[i] != '.' || m[i + 1] != '.') by {
                assert(m[0] == 'm' && m[1] == 'e' && m[2] == 't' && m[3] == 'a' && m[4] == '.'
                    && m[5] == 't' && m[6] == 'o' && m[7] == 'm' && m[8] == 'l');
            }
        }
    }
    assert forall|i: int| 0 <= i < m.len() implies m[i] != '\\' by {
        assert(m[0] == 'm' && m[1] == 'e' && m[2] == 't' && m[3] == 'a' && m[4] == '.' && m[5]
            == 't' && m[6] == 'o' && m[7] == 'm' && m[8] == 'l');
    }
}

/// The hashed bytes of a built package: the document's bytes followed by the
/// hashed bytes of the assets; the metadata record takes no part.
pub proof fn lemma_planned_stream(
    meta: Seq<u8>,
    doc_path: Seq<char>,
    doc: Seq<u8>,
    assets: Seq<(Seq<char>, Seq<u8>)>,
)
    requires
        base_name(doc_path) != metadata_name(),
    ensures
        content_stream(planned_entries(meta, doc_path, doc, assets)) == doc + content_stream(
            assets.map_values(|a: (Seq<char>, Seq<u8>)| (asset_entry_name(a.0), a.1)),
        ),
{
    let m = (metadata_name(), meta);
    let d = (base_name(doc_path), doc);
    let mapped = assets.map_values(|a: (Seq<char>, Seq<u8>)| (asset_entry_name(a.0), a.1));
    assert(seq![m, d] =~= seq![m] + seq![d]);
    lemma_content_stream_append(seq![m, d], mapped);
    lemma_content_stream_append(seq![m], seq![d]);
    lemma_content_stream_single(m);
    lemma_content_stream_single(d);
    assert(Seq::<u8>::empty() + doc =~= doc);
}

/// The asset contents concatenated in the order given.
pub open spec fn asset_bytes(assets: Seq<(Seq<char>, Seq<u8>)>) -> Seq<u8>
    decreases assets.len(),
{
    if assets.len() == 0 {
        Seq::empty()
    } else {
        asset_bytes(assets.drop_last()) + assets.last().1
    }
}

/// The hashed bytes of stored assets are their contents in order.
pub proof fn lemma_asset_stream(assets: Seq<(Seq<char>, Seq<u8>)>)
    ensures
        content_stream(assets.map_values(|a: (Seq<char>, Seq<u8>)| (asset_entry_name(a.0), a.1)))
            == asset_bytes(assets),
    decreases assets.len(),
{
    let f = |a: (Seq<char>, Seq<u8>)| (asset_entry_name(a.0), a.1);
    let m = assets.map_values(f);
    if assets.len() > 0 {
        lemma_asset_stream(assets.drop_last());
        assert(m.drop_last() =~= assets.drop_last().map_values(f));
        lemma_asset_name_not_metadata(assets.last().0);
        assert(hashed_part(m.last()) == assets.last().1);
    } else {
        assert(m.len() == 0);
    }
}

/// Building the same metadata and document with assets in another order (or
/// any other assets) hashes different bytes whenever the assets' contents,
/// concatenated in order, differ.
pub proof fn lemma_asset_order_changes_stream(
    p1: Seq<u8>,
    p2: Seq<u8>,
    meta: Seq<u8>,
    doc_path: Seq<char>,
    doc: Seq<u8>,
    a1: Seq<(Seq<char>, Seq<u8>)>,
    a2: Seq<(Seq<char>, Seq<u8>)>,
)
    requires
        zip_entries(p1) == planned_entries(meta, doc_path, doc, a1),
        zip_entries(p2) == planned_entries(meta, doc_path, doc, a2),
        base_name(doc_path) != metadata_name(),
        asset_bytes(a1) != asset_bytes(a2),
    ensures
        content_stream(zip_entries(p1)) != content_stream(zip_entries(p2)),
{
    lemma_planned_stream(meta, doc_path, doc, a1);
    lemma_planned_stream(meta, doc_path, doc, a2);
    lemma_asset_stream(a1);
    lemma_asset_stream(a2);
    let s1 = content_stream(zip_entries(p1));
    let s2 = content_stream(zip_entries(p2));
    if s1 == s2 {
        assert(asset_bytes(a1) =~= s1.subrange(doc.len() as int, s1.len() as int));
        assert(asset_bytes(a2) =~= s2.subrange(doc.len() as int, s2.len() as int));
    }
}

/// A package built from a metadata record and a document alone has as digest
/// the SHA-256 of the document's bytes: the metadata record is not hashed.
pub proof fn lemma_document_only_digest(p: Seq<u8>, meta: Seq<u8>, doc_path: Seq<char>, doc: Seq<u8>)
    requires
        zip_entries(p) == planned_entries(meta, doc_path, doc, Seq::empty()),
        names_acceptable(doc_path, Seq::empty()),
        safe_to_open(p),
        zip_opens(p),
        zip_entries_readable(p),
    ensures
        package_digest(p) == Ok::<Seq<u8>, PackageError>(sha256_of(doc)),
{
    let none = Seq::<(Seq<char>, Seq<u8>)>::empty();
    lemma_planned_stream(meta, doc_path, doc, none);
    let mapped = none.map_values(|a: (Seq<char>, Seq<u8>)| (asset_entry_name(a.0), a.1));
    assert(mapped =~= none);
    assert(content_stream(mapped) == Seq::<u8>::empty());
    assert(doc + Seq::<u8>::empty() =~= doc);
    lemma_built_names_contained(meta, doc_path, doc, none);
}

/// An asset's entry name stays inside the package exactly when its relative
/// path does.
pub proof fn lemma_asset_name_contained(path: Seq<char>)
    requires
        is_contained_name(path),
    ensures
        is_contained_name(asset_entry_name(path)),
{
    let pre = assets_prefix();
    let s = asset_entry_name(path);
    assert(pre[0] == 'a' && pre[1] == 's' && pre[2] == 's' && pre[3] == 'e' && pre[4] == 't'
        && pre[5] == 's' && pre[6] == '/');
    assert forall|i: int| 0 <= i < s.len() implies s[i] != '\\' by {
        if i >= 7 {
            assert(s[i] == path[i - 7]);
        }
    }
    assert forall|i: int| !#[trigger] crate::names::parent_segment_at(s, i) by {
        if crate::names::parent_segment_at(s, i) {
            if i >= 7 {
                assert(s[i] == path[i - 7] && s[i + 1] == path[i - 6]);
                if i > 7 {
                    assert(s[i - 1] == path[i - 8]);
                }
                if i + 2 < s.len() {
                    assert(s[i + 2] == path[i - 5]);
                }
                assert(crate::names::parent_segment_at(path, i - 7));
            }
        }
    }
}

/// Every entry of a package built from acceptable names stays inside the
/// package, so its digest never fails on a name.
pub proof fn lemma_built_names_contained(
    meta: Seq<u8>,
    doc_path: Seq<char>,
    doc: Seq<u8>,
    assets: Seq<(Seq<char>, Seq<u8>)>,
)
    requires
        names_acceptable(doc_path, assets),
    ensures
        all_contained(planned_entries(meta, doc_path, doc, assets)),
{
    let es = planned_entries(meta, doc_path, doc, assets);
    lemma_metadata_name_contained();
    assert forall|i: int| 0 <= i < es.len() implies is_contained_name(#[trigger] es[i].0) by {
        if i >= 2 {
            assert(es[i].0 == asset_entry_name(assets[i - 2].0));
            lemma_asset_name_contained(assets[i - 2].0);
        }
    }
}

/// Two readable packages whose entries differ in one byte of one content entry
/// have digests computed over different bytes.
pub proof fn lemma_byte_change_changes_package_digest_input(
    p1: Seq<u8>,
    p2: Seq<u8>,
    k: int,
    j: int,
    v: u8,
)
    requires
        package_entries(p1) is Ok,
        all_contained(package_entries(p1)->Ok_0),
        0 <= k < package_entries(p1)->Ok_0.len(),
        package_entries(p1)->Ok_0[k].0 != metadata_name(),
        0 <= j < package_entries(p1)->Ok_0[k].1.len(),
        v != package_entries(p1)->Ok_0[k].1[j],
        package_entries(p2) == Ok::<Seq<(Seq<char>, Seq<u8>)>, PackageError>(
            package_entries(p1)->Ok_0.update(
                k,
                (package_entries(p1)->Ok_0[k].0, package_entries(p1)->Ok_0[k].1.update(j, v)),
            ),
        ),
    ensures
        package_digest(p1) == Ok::<Seq<u8>, PackageError>(
            sha256_of(content_stream(package_entries(p1)->Ok_0)),
        ),
        package_digest(p2) == Ok::<Seq<u8>, PackageError>(
            sha256_of(content_stream(package_entries(p2)->Ok_0)),
        ),
        content_stream(package_entries(p1)->Ok_0) != content_stream(package_entries(p2)->Ok_0),
{
    let es = package_entries(p1)->Ok_0;
    let es2 = package_entries(p2)->Ok_0;
    assert forall|i: int| 0 <= i < es2.len() implies is_contained_name(#[trigger] es2[i].0) by {
        assert(es2[i].0 == es[i].0);
    }
    crate::digest::lemma_byte_change_changes_stream(es, k, j, v);
}

/// Two readable packages whose entries differ only in one entry that hashes
/// the same way (a renamed content entry, or a changed metadata record) have
/// the same digest: names and the metadata record are not hashed.
pub proof fn lemma_unhashed_change_keeps_package_digest(
    p1: Seq<u8>,
    p2: Seq<u8>,
    k: int,
    e: (Seq<char>, Seq<u8>),
)
    requires
        package_entries(p1) is Ok,
        0 <= k < package_entries(p1)->Ok_0.len(),
        is_contained_name(e.0),
        is_contained_name(package_entries(p1)->Ok_0[k].0),
        hashed_part(e) == hashed_part(package_entries(p1)->Ok_0[k]),
        package_entries(p2) == Ok::<Seq<(Seq<char>, Seq<u8>)>, PackageError>(
            package_entries(p1)->Ok_0.update(k, e),
        ),
    ensures
        package_digest(p1) == package_digest(p2),
{
    let es = package_entries(p1)->Ok_0;
    let es2 = es.update(k, e);
    crate::digest::lemma_same_hashed_part_keeps_stream(es, k, e);
    if all_contained(es) {
        assert forall|i: int| 0 <= i < es2.len() implies is_contained_name(#[trigger] es2[i].0) by {
            if i != k {
                assert(es2[i] == es[i]);
            }
        }
    } else {
        let i = choose|i: int| 0 <= i < es.len() && !is_contained_name(#[trigger] es[i].0);
        assert(es2[i] == es[i]);
    }
}

} // verus!
