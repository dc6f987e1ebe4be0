//! The post's metadata record and the error kinds of the packaging operations.

use vstd::prelude::*;

verus! {

/// Why a packaging, digest or signature operation did not complete.
#[derive(Debug, Clone, Copy, PartialEq, Eq, Structural)]
pub enum PackageError {
    /// A referenced source file does not exist or cannot be read.
    SourceFileMissing,
    /// The destination exists and overwriting was not allowed.
    OutputConflict,
    /// A low-level create or write failed.
    IOFailure,
    /// The bytes cannot be opened as a package container.
    NotAPackage,
    /// An entry cannot be fully read, or its name leaves the package's namespace.
    CorruptEntry,
    /// Key material is malformed.
    KeyError,
    /// A signature value is malformed.
    SignatureFormatError,
    /// The package or signature cannot be checked at all.
    Unverifiable,
}

/// A character allowed in a slug: ASCII letters and digits, `-`, `_`, `.` and `~`.
pub open spec fn is_slug_char(c: char) -> bool {
    ('a' <= c && c <= 'z') || ('A' <= c && c <= 'Z') || ('0' <= c && c <= '9') || c == '-' || c
        == '_' || c == '.' || c == '~'
}

/// A non-empty URL-safe token that is not a relative directory reference.
pub open spec fn is_valid_slug(s: Seq<char>) -> bool {
    &&& s.len() > 0
    &&& forall|i: int| 0 <= i < s.len() ==> is_slug_char(#[trigger] s[i])
    &&& s != seq!['.']
    &&& s != seq!['.', '.']
}

/// What is known of a post: its title, its slug, and when it was published
/// (seconds since the Unix epoch, UTC).
pub struct PostMetadata {
    pub name: String,
    pub slug: String,
    pub published: i64,
}

impl PostMetadata {
    pub open spec fn wf(&self) -> bool {
        is_valid_slug(self.slug@)
    }

    /// A metadata record, or `None` when `slug` is not a valid slug.
    pub fn new(name: String, slug: String, published: i64) -> (r: Option<PostMetadata>)
        ensures
            r is Some <==> is_valid_slug(slug@),
            r is Some ==> r->Some_0.wf() && r->Some_0.name@ == name@ && r->Some_0.slug@ == slug@
                && r->Some_0.published == published,
    {
        if slug_is_valid(&slug) {
            Some(PostMetadata { name, slug, published })
        } else {
            None
        }
    }
}

/// Whether `slug` is a valid slug.
pub fn slug_is_valid(slug: &str) -> (r: bool)
    ensures
        r == is_valid_slug(slug@),
{
    let s = crate::names::chars_of(slug);
    let n = s.len();
    if n == 0 {
        return false;
    }
    if n == 1 && s[0] == '.' {
        assert(s@ =~= seq!['.']);
        return false;
    }
    if n == 2 && s[0] == '.' && s[1] == '.' {
        assert(s@ =~= seq!['.', '.']);
        return false;
    }
    let mut i: usize = 0;
    while i < n
        invariant
            n == s@.len(),
            s@ == slug@,
            0 <= i <= n,
            forall|j: int| 0 <= j < i ==> is_slug_char(#[trigger] s@[j]),
        decreases n - i,
    {
        let c = s[i];
        if !(('a' <= c && c <= 'z') || ('A' <= c && c <= 'Z') || ('0' <= c && c <= '9') || c == '-'
            || c == '_' || c == '.' || c == '~') {
            return false;
        }
        i = i + 1;
    }
    if n == 1 {
        assert(s@ != seq!['.', '.']);
        assert(s@ != seq!['.']) by {
            if s@ == seq!['.'] {
                assert(s@[0] == '.');
            }
        }
    } else if n == 2 {
        assert(s@ != seq!['.']);
        assert(s@ != seq!['.', '.']) by {
            if s@ == seq!['.', '.'] {
                assert(s@[0] == '.' && s@[1] == '.');
            }
        }
    } else {
        assert(s@ != seq!['.']);
        assert(s@ != seq!['.', '.']);
    }
    true
}

/// Where the package of the post with this slug is written: `<output_dir>/<slug>.post`.
pub open spec fn package_path_spec(output_dir: Seq<char>, slug: Seq<char>) -> Seq<char> {
    output_dir + seq!['/'] + slug + seq!['.', 'p', 'o', 's', 't']
}

impl PostMetadata {
    /// The destination file of this post's package inside `output_dir`.
    pub fn package_path(&self, output_dir: &str) -> (r: String)
        ensures
            r@ == package_path_spec(output_dir@, self.slug@),
    {
        let mut v = crate::names::chars_of(output_dir);
        let slug = crate::names::chars_of(self.slug.as_str());
        v.push('/');
        let mut i: usize = 0;
        let ghost start = v@;
        while i < slug.len()
            invariant
                0 <= i <= slug@.len(),
                v@ == start + slug@.subrange(0, i as int),
            decreases slug@.len() - i,
        {
            v.push(slug[i]);
            assert(start + slug@.subrange(0, i as int + 1) =~= (start + slug@.subrange(
                0,
                i as int,
            )).push(slug@[i as int]));
            i = i + 1;
        }
        v.push('.');
        v.push('p');
        v.push('o');
        v.push('s');
        v.push('t');
        assert(slug@.subrange(0, slug@.len() as int) =~= slug@);
        assert(v@ =~= package_path_spec(output_dir@, self.slug@));
        crate::names::string_of(&v)
    }
}

} // verus!
