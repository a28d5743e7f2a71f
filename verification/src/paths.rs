use vstd::prelude::*;
use vstd::utf8::{decode_utf8, encode_utf8, encode_utf8_decode_utf8};

verus! {

/// What `std::path::Path::parent` gives for the path `path`, as text, or
/// `None` where the path ends in a root or is empty.
pub uninterp spec fn path_parent(path: Seq<char>) -> Option<Seq<char>>;

/// What `std::path::Path::file_name` gives for the path `path`, as text, or
/// `None` where the path ends in `..` or has no final component.
pub uninterp spec fn path_file_name(path: Seq<char>) -> Option<Seq<char>>;

/// Calls `std::path::Path::parent` on `path` and turns the parent into a
/// `String`. The contract claims that the result is `path_parent` of the text
/// of `path` (equal paths give equal parents), and that a parent, being the
/// path without its final component, has fewer bytes than the path; which
/// parent std picks is left to the name.
#[verifier::external_body]
pub(crate) fn parent_of(path: &str) -> (res: Option<String>)
    ensures
        match res {
            Some(p) => path_parent(path@) == Some(p@) && encode_utf8(p@).len() < encode_utf8(path@).len(),
            None => path_parent(path@) is None,
        },
{
    match std::path::Path::new(path).parent() {
        Some(p) => Some(p.to_string_lossy().to_string()),
        None => None,
    }
}

/// Calls `std::path::Path::file_name` on `path` and turns the name into a
/// `String`. The contract claims only that the result is `path_file_name` of
/// the text of `path`.
#[verifier::external_body]
pub(crate) fn file_name_of(path: &str) -> (res: Option<String>)
    ensures
        match res {
            Some(n) => path_file_name(path@) == Some(n@),
            None => path_file_name(path@) is None,
        },
{
    match std::path::Path::new(path).file_name() {
        Some(n) => Some(n.to_string_lossy().to_string()),
        None => None,
    }
}

/// The number of bytes of `s`.
pub fn text_len(s: &str) -> (n: usize)
    ensures
        n == encode_utf8(s@).len(),
{
    s.as_bytes().len()
}

/// Whether `a` and `b` hold the same text, compared byte by byte.
pub fn same_text(a: &str, b: &str) -> (res: bool)
    ensures
        res == (a@ == b@),
{
    let x = a.as_bytes();
    let y = b.as_bytes();
    proof {
        broadcast use encode_utf8_decode_utf8;
        assert(decode_utf8(x@) == a@);
        assert(decode_utf8(y@) == b@);
    }
    if x.len() != y.len() {
        return false;
    }
    let mut i: usize = 0;
    while i < x.len()
        invariant
            x.len() == y.len(),
            i <= x.len(),
            forall|k: int| 0 <= k < i ==> x@[k] == y@[k],
            decode_utf8(x@) == a@,
            decode_utf8(y@) == b@,
            x@ == encode_utf8(a@),
            y@ == encode_utf8(b@),
        decreases x.len() - i,
    {
        if x[i] != y[i] {
            assert(x@[i as int] != y@[i as int]);
            return false;
        }
        i = i + 1;
    }
    proof {
        assert(x@ =~= y@);
    }
    true
}

} // verus!
