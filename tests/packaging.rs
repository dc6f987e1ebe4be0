use blogify::digest::{digest_entries, hex_digest_entries, to_hex, PackageEntry};
use blogify::model::{slug_is_valid, PackageError, PostMetadata};
use blogify::names::{base_name_of, is_contained};
use blogify::package::{build_package, digest_package, hash_package, read_package};
use blogify::signature::{sign, verify, Signature, SignatureAlgorithm, Verdict};
use std::io::Write;

fn entry(name: &str, content: &[u8]) -> PackageEntry {
    PackageEntry { name: name.to_string(), content: content.to_vec() }
}

fn meta_record() -> Vec<u8> {
    b"name = \"Hello\"\nslug = \"hello-world\"\npublished = \"2024-01-01T00:00:00Z\"\n".to_vec()
}

fn hello_package() -> Vec<u8> {
    build_package(&meta_record(), &entry("index.html", b"<p>hi</p>"), &Vec::new()).unwrap()
}

fn raw_zip(entries: &[(&str, &[u8])]) -> Vec<u8> {
    let mut w = zip::ZipWriter::new(std::io::Cursor::new(Vec::new()));
    let opts = zip::write::FileOptions::default().compression_method(zip::CompressionMethod::Stored);
    for (name, content) in entries {
        w.start_file(*name, opts).unwrap();
        w.write_all(content).unwrap();
    }
    w.finish().unwrap().into_inner()
}

fn key_pair(seed: u8) -> (Vec<u8>, Vec<u8>) {
    let sk = ed25519_dalek::SigningKey::from_bytes(&[seed; 32]);
    (sk.to_bytes().to_vec(), sk.verifying_key().to_bytes().to_vec())
}

#[test]
fn document_only_package_hashes_document_bytes() {
    let h = hash_package(hello_package()).unwrap();
    assert_eq!(h, "0a4735281db700223af63abc387c351f64ea6961a1ef955631df08d96169e772");
    assert_eq!(h.len(), 64);
}

#[test]
fn built_package_holds_entries_in_order() {
    let assets = vec![entry("img/a.png", b"A"), entry("b.css", b"B")];
    let p = build_package(&meta_record(), &entry("posts/index.html", b"<p>hi</p>"), &assets).unwrap();
    let es = read_package(p.clone()).unwrap();
    let names: Vec<&str> = es.iter().map(|e| e.name.as_str()).collect();
    assert_eq!(names, vec!["meta.toml", "index.html", "assets/img/a.png", "assets/b.css"]);
    assert_eq!(es[0].content, meta_record());
    assert_eq!(es[1].content, b"<p>hi</p>".to_vec());
    assert_eq!(
        hash_package(p).unwrap(),
        "125eab854221574483a3abe56840d4c57bad6d36d5e386ca7f4bce5d90ab7374"
    );
}

#[test]
fn digest_is_deterministic() {
    let p = hello_package();
    assert_eq!(hash_package(p.clone()).unwrap(), hash_package(p.clone()).unwrap());
    assert_eq!(hash_package(p).unwrap(), hash_package(hello_package()).unwrap());
}

#[test]
fn byte_change_changes_digest() {
    let a = build_package(&meta_record(), &entry("index.html", b"<p>hi</p>"), &Vec::new()).unwrap();
    let b = build_package(&meta_record(), &entry("index.html", b"<p>ho</p>"), &Vec::new()).unwrap();
    assert_ne!(hash_package(a).unwrap(), hash_package(b).unwrap());
}

#[test]
fn renaming_an_entry_keeps_digest() {
    let a = build_package(&meta_record(), &entry("index.html", b"<p>hi</p>"), &Vec::new()).unwrap();
    let b = build_package(&meta_record(), &entry("other.html", b"<p>hi</p>"), &Vec::new()).unwrap();
    assert_eq!(hash_package(a).unwrap(), hash_package(b).unwrap());
}

#[test]
fn metadata_is_not_hashed() {
    let a = build_package(&b"name = \"A\"".to_vec(), &entry("index.html", b"x"), &Vec::new()).unwrap();
    let b = build_package(&b"name = \"B\"".to_vec(), &entry("index.html", b"x"), &Vec::new()).unwrap();
    assert_eq!(hash_package(a).unwrap(), hash_package(b).unwrap());
}

#[test]
fn asset_order_changes_digest() {
    let doc = entry("index.html", b"<p>hi</p>");
    let ab = vec![entry("a.png", b"A"), entry("b.png", b"B")];
    let ba = vec![entry("b.png", b"B"), entry("a.png", b"A")];
    let p1 = build_package(&meta_record(), &doc, &ab).unwrap();
    let p2 = build_package(&meta_record(), &doc, &ba).unwrap();
    assert_ne!(hash_package(p1).unwrap(), hash_package(p2).unwrap());
}

#[test]
fn escaping_entry_is_rejected() {
    let p = raw_zip(&[("meta.toml", b"m"), ("../evil.html", b"x")]);
    assert_eq!(hash_package(p.clone()), Err(PackageError::CorruptEntry));
    assert_eq!(digest_package(p), Err(PackageError::CorruptEntry));
    let abs = raw_zip(&[("/etc/passwd", b"x")]);
    assert_eq!(hash_package(abs), Err(PackageError::CorruptEntry));
}

#[test]
fn escaping_asset_is_not_built() {
    let r = build_package(&meta_record(), &entry("index.html", b"x"), &vec![entry("../up.png", b"u")]);
    assert_eq!(r, Err(PackageError::CorruptEntry));
    let r = build_package(&meta_record(), &entry("dir/", b"x"), &Vec::new());
    assert_eq!(r, Err(PackageError::CorruptEntry));
    let r = build_package(&meta_record(), &entry("meta.toml", b"x"), &Vec::new());
    assert_eq!(r, Err(PackageError::CorruptEntry));
}

#[test]
fn garbage_is_not_a_package() {
    assert_eq!(hash_package(b"not a zip".to_vec()), Err(PackageError::NotAPackage));
    assert_eq!(hash_package(Vec::new()), Err(PackageError::NotAPackage));
}

#[test]
fn digest_of_entries_skips_metadata_record() {
    let es = vec![entry("meta.toml", b"ignored"), entry("a", b"ab"), entry("b", b"c")];
    assert_eq!(
        hex_digest_entries(&es).unwrap(),
        "ba7816bf8f01cfea414140de5dae2223b00361a396177a9cb410ff61f20015ad"
    );
    assert_eq!(digest_entries(&es).unwrap().len(), 32);
    let bad = vec![entry("a/../../b", b"x")];
    assert_eq!(digest_entries(&bad), Err(PackageError::CorruptEntry));
}

#[test]
fn hex_is_lowercase_two_digits_per_byte() {
    assert_eq!(to_hex(&vec![0xab, 0x01, 0xff, 0x00]), "ab01ff00");
    assert_eq!(to_hex(&Vec::new()), "");
}

#[test]
fn contained_names() {
    assert!(is_contained("index.html"));
    assert!(is_contained("assets/img/a..b.png"));
    assert!(is_contained("assets/..hidden"));
    assert!(!is_contained(""));
    assert!(!is_contained("/abs"));
    assert!(!is_contained(".."));
    assert!(!is_contained("a/../b"));
    assert!(!is_contained("a/.."));
    assert!(!is_contained("a\\b"));
}

#[test]
fn base_names() {
    assert_eq!(base_name_of("posts/2024/index.html"), "index.html");
    assert_eq!(base_name_of("index.html"), "index.html");
    assert_eq!(base_name_of("dir/"), "");
}

#[test]
fn slugs_and_paths() {
    assert!(slug_is_valid("hello-world"));
    assert!(slug_is_valid("a_b.c~9"));
    assert!(!slug_is_valid(""));
    assert!(!slug_is_valid("hello world"));
    assert!(!slug_is_valid("a/b"));
    assert!(!slug_is_valid(".."));
    assert!(PostMetadata::new("Hello".to_string(), "bad slug".to_string(), 0).is_none());
    let m = PostMetadata::new("Hello".to_string(), "hello-world".to_string(), 1704067200).unwrap();
    assert_eq!(m.name, "Hello");
    assert_eq!(m.published, 1704067200);
    assert_eq!(m.package_path("demo"), "demo/hello-world.post");
}

#[test]
fn sign_then_verify_is_valid() {
    let (secret, public) = key_pair(7);
    let p = hello_package();
    let s = sign(p.clone(), &secret).unwrap();
    assert_eq!(s.algorithm, SignatureAlgorithm::Ed25519);
    assert_eq!(s.digest, digest_package(p.clone()).unwrap());
    assert_eq!(s.bytes.len(), 64);
    assert_eq!(verify(p, &s, &public), Ok(Verdict::Valid));
}

#[test]
fn tampered_package_is_invalid() {
    let (secret, public) = key_pair(7);
    let s = sign(hello_package(), &secret).unwrap();
    let tampered =
        build_package(&meta_record(), &entry("index.html", b"<p>HI</p>"), &Vec::new()).unwrap();
    assert_eq!(verify(tampered, &s, &public), Ok(Verdict::Invalid));
}

#[test]
fn other_key_is_invalid() {
    let (secret, _) = key_pair(7);
    let (_, other_public) = key_pair(9);
    let p = hello_package();
    let s = sign(p.clone(), &secret).unwrap();
    assert_eq!(verify(p, &s, &other_public), Ok(Verdict::Invalid));
}

#[test]
fn forged_signature_bytes_are_invalid() {
    let (secret, public) = key_pair(7);
    let p = hello_package();
    let mut s = sign(p.clone(), &secret).unwrap();
    s.bytes[0] ^= 1;
    assert_eq!(verify(p, &s, &public), Ok(Verdict::Invalid));
}

#[test]
fn key_and_format_errors() {
    let (secret, public) = key_pair(7);
    let p = hello_package();
    assert!(matches!(sign(p.clone(), &vec![0u8; 31]), Err(PackageError::KeyError)));
    let s = sign(p.clone(), &secret).unwrap();
    assert_eq!(verify(p.clone(), &s, &vec![0u8; 33]), Err(PackageError::KeyError));
    let short = Signature { algorithm: SignatureAlgorithm::Ed25519, digest: s.digest.clone(), bytes: vec![0u8; 63] };
    assert_eq!(verify(p.clone(), &short, &public), Err(PackageError::SignatureFormatError));
    let no_digest = Signature { algorithm: SignatureAlgorithm::Ed25519, digest: Vec::new(), bytes: s.bytes.clone() };
    assert_eq!(verify(p, &no_digest, &public), Err(PackageError::SignatureFormatError));
}

#[test]
fn signing_garbage_fails_with_digest_error() {
    let (secret, public) = key_pair(7);
    assert!(matches!(sign(b"junk".to_vec(), &secret), Err(PackageError::NotAPackage)));
    let good = sign(hello_package(), &secret).unwrap();
    assert_eq!(verify(b"junk".to_vec(), &good, &public), Err(PackageError::NotAPackage));
}

#[test]
fn signature_text_round_trip() {
    let (secret, public) = key_pair(3);
    let p = hello_package();
    let s = sign(p.clone(), &secret).unwrap();
    let text = s.to_text();
    assert_eq!(text.len(), 201);
    assert!(text.starts_with("ed25519:0a4735281db700223af63abc387c351f64ea6961a1ef955631df08d96169e772:"));
    let back = Signature::from_text(&text).unwrap();
    assert_eq!(back.algorithm, SignatureAlgorithm::Ed25519);
    assert_eq!(back.digest, s.digest);
    assert_eq!(back.bytes, s.bytes);
    assert_eq!(verify(p, &back, &public), Ok(Verdict::Valid));
}

#[test]
fn malformed_signature_text_is_rejected() {
    let (secret, _) = key_pair(3);
    let text = sign(hello_package(), &secret).unwrap().to_text();
    let is_format_error = |t: &str| matches!(Signature::from_text(t), Err(PackageError::SignatureFormatError));
    assert!(is_format_error(""));
    assert!(is_format_error(&text[..200]));
    assert!(is_format_error(&text.replacen("ed25519", "rsa4096", 1)));
    assert!(is_format_error(&text.to_uppercase()));
    let mut no_colon = text.clone();
    no_colon.replace_range(72..73, "0");
    assert!(is_format_error(&no_colon));
    let mut bad_digit = text.clone();
    bad_digit.replace_range(10..11, "g");
    assert!(is_format_error(&bad_digit));
}

#[test]
fn header_like_bytes_in_content_are_hashed() {
    let mut content = b"PK\x01\x02".to_vec();
    content.extend_from_slice(&[0u8; 38]);
    content.extend_from_slice(&[0xff; 4]);
    let p = raw_zip(&[("a.bin", &content)]);
    let expected = to_hex(&digest_entries(&vec![entry("a.bin", &content)]).unwrap());
    assert_eq!(hash_package(p), Ok(expected));
    let built = build_package(&meta_record(), &entry("index.html", &content), &Vec::new()).unwrap();
    assert!(hash_package(built).is_ok());
}

#[test]
fn control_characters_in_names_are_refused() {
    let spoof = format!("x{}{}", "PK\u{6}\u{7}", "abcdefghijklmnop");
    let r = build_package(&meta_record(), &entry("index.html", b"x"), &vec![entry(&spoof, b"u")]);
    assert_eq!(r, Err(PackageError::CorruptEntry));
    let r = build_package(&meta_record(), &entry("in\ndex.html", b"x"), &Vec::new());
    assert_eq!(r, Err(PackageError::CorruptEntry));
}

#[test]
fn overlong_asset_name_is_an_io_failure() {
    let long = "a".repeat(16384);
    let r = build_package(&meta_record(), &entry("index.html", b"x"), &vec![entry(&long, b"u")]);
    assert_eq!(r, Err(PackageError::IOFailure));
    let ok = "a".repeat(16000);
    assert!(build_package(&meta_record(), &entry("index.html", b"x"), &vec![entry(&ok, b"u")]).is_ok());
}
