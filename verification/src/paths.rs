//! File locations, as text. Joining and file-stem extraction are those of
//! `std::path`.
use vstd::prelude::*;

verus! {

/// The text of `Path::new(base).join(part)` on this platform.
pub uninterp spec fn joined_path(base: Seq<char>, part: Seq<char>) -> Seq<char>;

/// `Path::join`: `part` appended to `base` as a further component. The claim
/// is only that the result is a function of the two texts (`joined_path`);
/// the separator is the platform's.
#[verifier::external_body]
pub(crate) fn join_path(base: &str, part: &str) -> (r: String)
    ensures
        r@ == joined_path(base@, part@),
{
    std::path::Path::new(base).join(part).to_string_lossy().into_owned()
}

/// The text of `Path::new(path).file_stem()`, where there is one.
pub uninterp spec fn file_stem_of(path: Seq<char>) -> Option<Seq<char>>;

/// `Path::file_stem`: the final component without its extension. The claim
/// is only that the result is a function of the path (`file_stem_of`).
#[verifier::external_body]
pub(crate) fn file_stem(path: &str) -> (r: Option<String>)
    ensures
        r matches Some(s) ==> file_stem_of(path@) == Some(s@),
        r is None ==> file_stem_of(path@) is None,
{
    std::path::Path::new(path).file_stem().and_then(|s| s.to_str()).map(|s| s.to_string())
}

} // verus!
