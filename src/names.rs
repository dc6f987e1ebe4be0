//! Logical entry names inside a post package, and the rule that keeps them inside
//! the package's own namespace.

use vstd::prelude::*;
use vstd::std_specs::iter::IteratorSpec;

verus! {

/// `s` has a `..` path segment starting at index `i`.
pub open spec fn parent_segment_at(s: Seq<char>, i: int) -> bool {
    0 <= i && i + 1 < s.len() && s[i] == '.' && s[i + 1] == '.' && (i == 0 || s[i - 1] == '/')
        && (i + 2 == s.len() || s[i + 2] == '/')
}

/// An entry name that stays inside the package: non-empty, relative, no backslash
/// separators and no `..` segment.
pub open spec fn is_contained_name(s: Seq<char>) -> bool {
    &&& s.len() > 0
    &&& s[0] != '/'
    &&& forall|i: int| 0 <= i < s.len() ==> s[i] != '\\'
    &&& forall|i: int| !#[trigger] parent_segment_at(s, i)
}

/// The last `/`-separated segment of a path.
pub open spec fn base_name(s: Seq<char>) -> Seq<char>
    decreases s.len(),
{
    if s.len() == 0 {
        s
    } else if s.last() == '/' {
        Seq::empty()
    } else {
        base_name(s.drop_last()).push(s.last())
    }
}

/// The characters of `s` in order.
pub(crate) fn chars_of(s: &str) -> (r: Vec<char>)
    ensures
        r@ == s@,
{
    broadcast use vstd::string::axiom_spec_iter, vstd::string::next_postcondition;

    let mut it = s.chars();
    let mut out: Vec<char> = Vec::new();
    loop
        invariant
            it.obeys_prophetic_iter_laws(),
            it.decrease() is Some,
            out@ + it.remaining() == s@,
        decreases it.decrease()->0,
    {
        let ghost before = it.remaining();
        match it.next() {
            Some(c) => {
                out.push(c);
                assert(out@ + it.remaining() =~= s@);
            },
            None => {
                assert(before.len() == 0);
                assert(out@ =~= s@);
                return out;
            },
        }
    }
}

/// Relies on collecting `char`s into a `String`: the string of exactly these characters.
#[verifier::external_body]
pub(crate) fn string_of(v: &Vec<char>) -> (r: String)
    ensures
        r@ == v@,
{
    v.iter().collect()
}

/// Whether `name` stays inside the package's namespace.
pub fn is_contained(name: &str) -> (r: bool)
    ensures
        r == is_contained_name(name@),
{
    let s = chars_of(name);
    let n = s.len();
    if n == 0 || s[0] == '/' {
        return false;
    }
    let mut i: usize = 0;
    while i < n
        invariant
            n == s@.len(),
            s@ == name@,
            0 <= i <= n,
            forall|j: int| 0 <= j < i ==> s@[j] != '\\',
            forall|j: int| 0 <= j < i ==> !#[trigger] parent_segment_at(s@, j),
        decreases n - i,
    {
        if s[i] == '\\' {
            return false;
        }
        if s[i] == '.' && i + 1 < n && s[i + 1] == '.' && (i == 0 || s[i - 1] == '/') && (i + 2
            == n || s[i + 2] == '/') {
            assert(parent_segment_at(s@, i as int));
            return false;
        }
        i = i + 1;
    }
    assert forall|j: int| !#[trigger] parent_segment_at(s@, j) by {
        if 0 <= j < n {
        }
    }
    true
}

/// The last `/`-separated segment of `path`.
pub fn base_name_of(path: &str) -> (r: String)
    ensures
        r@ == base_name(path@),
{
    let s = chars_of(path);
    let mut cur: Vec<char> = Vec::new();
    let mut i: usize = 0;
    while i < s.len()
        invariant
            s@ == path@,
            0 <= i <= s@.len(),
            cur@ == base_name(s@.subrange(0, i as int)),
        decreases s@.len() - i,
    {
        let c = s[i];
        assert(s@.subrange(0, i as int + 1).drop_last() =~= s@.subrange(0, i as int));
        if c == '/' {
            cur = Vec::new();
        } else {
            cur.push(c);
        }
        i = i + 1;
    }
    assert(s@.subrange(0, s@.len() as int) =~= s@);
    string_of(&cur)
}

/// No character below U+0020, and no U+007F.
pub open spec fn no_control_chars(s: Seq<char>) -> bool {
    forall|i: int| 0 <= i < s.len() ==> (#[trigger] s[i]) >= ' ' && s[i] != '\x7f'
}

/// Whether `name` is free of control characters.
pub fn has_no_control_chars(name: &str) -> (r: bool)
    ensures
        r == no_control_chars(name@),
{
    let s = chars_of(name);
    let mut i: usize = 0;
    while i < s.len()
        invariant
            s@ == name@,
            0 <= i <= s@.len(),
            forall|j: int| 0 <= j < i ==> (#[trigger] s@[j]) >= ' ' && s@[j] != '\x7f',
        decreases s@.len() - i,
    {
        if s[i] < ' ' || s[i] == '\x7f' {
            return false;
        }
        i = i + 1;
    }
    true
}

} // verus!
