//! What the library takes from `std::path`: the final component of a path
//! and the joining of a directory with a name. Paths are held as text; the
//! platform's path syntax stays with the standard library.

use vstd::prelude::*;

verus! {

/// The final component of the path written as `path`, in the path syntax of
/// the platform the library is built for; `None` where the path has none, as
/// a root has none, nor a path that ends in `..`.
pub uninterp spec fn path_file_name(path: Seq<char>) -> Option<Seq<char>>;

/// The path that results from joining the directory `dir` with `name`, in the
/// path syntax of the platform the library is built for.
pub uninterp spec fn path_join(dir: Seq<char>, name: Seq<char>) -> Seq<char>;

/// Calls `std::path::Path::file_name` on `path` and hands the component back
/// as text. Trusted: the result is what [`path_file_name`] names, and nothing
/// more is claimed of it.
#[verifier::external_body]
pub(crate) fn file_name(path: &str) -> (r: Option<String>)
    ensures
        r is None <==> path_file_name(path@) is None,
        r matches Some(name) ==> path_file_name(path@) == Some(name@),
{
    match std::path::Path::new(path).file_name() {
        Some(name) => Some(name.to_string_lossy().into_owned()),
        None => None,
    }
}

/// Calls `std::path::Path::join` on `dir` with `name` and hands the joined
/// path back as text. Trusted: the result is what [`path_join`] names, and
/// nothing more is claimed of it.
#[verifier::external_body]
pub(crate) fn join(dir: &str, name: &str) -> (r: String)
    ensures
        r@ == path_join(dir@, name@),
{
    std::path::PathBuf::from(dir).join(std::path::PathBuf::from(name)).to_string_lossy().into_owned()
}

} // verus!
