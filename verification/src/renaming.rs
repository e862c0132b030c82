//! The renaming plan: for each listed file, where it is and where it goes.

use vstd::prelude::*;
use crate::normalize::{trim_leading_zeros, trimmed};
use crate::paths::{file_name, join, path_file_name, path_join};

verus! {

/// One move: the file at `current_name` goes to `new_name`.
#[derive(Debug, PartialEq, Eq)]
pub struct Renaming {
    pub current_name: String,
    pub new_name: String,
}

/// A [`Renaming`] as the two texts it holds.
pub struct RenamingView {
    pub current_name: Seq<char>,
    pub new_name: Seq<char>,
}

impl View for Renaming {
    type V = RenamingView;

    open spec fn view(&self) -> RenamingView {
        RenamingView { current_name: self.current_name@, new_name: self.new_name@ }
    }
}

/// A listed path that has no final component to rename.
#[derive(Clone, Copy, Debug, PartialEq, Eq)]
pub struct NoFileName {
    /// Where the path stands in the list.
    pub index: usize,
}

/// True when `path` has a final component.
pub open spec fn has_file_name(path: Seq<char>) -> bool {
    path_file_name(path) is Some
}

/// True when each of `paths` has a final component.
pub open spec fn all_have_file_names(paths: Seq<String>) -> bool {
    forall|i: int| 0 <= i < paths.len() ==> has_file_name(#[trigger] paths[i]@)
}

/// The move planned for `path`: it stays where it is as the source, and goes
/// into `output_directory` under its own file name without the leading zeros.
pub open spec fn planned(path: Seq<char>, output_directory: Seq<char>) -> RenamingView {
    RenamingView {
        current_name: path,
        new_name: path_join(output_directory, trimmed(path_file_name(path)->0)),
    }
}

/// True when `plan` holds, in order, the planned move of each of `paths`.
pub open spec fn is_plan_for(
    plan: Seq<Renaming>,
    paths: Seq<String>,
    output_directory: Seq<char>,
) -> bool {
    &&& plan.len() == paths.len()
    &&& forall|i: int|
        0 <= i < paths.len() ==> (#[trigger] plan[i])@ == planned(paths[i]@, output_directory)
}

/// True when `i` is the first place in `paths` whose path has no file name.
pub open spec fn is_first_without_file_name(paths: Seq<String>, i: int) -> bool {
    &&& 0 <= i < paths.len()
    &&& !has_file_name(paths[i]@)
    &&& forall|j: int| 0 <= j < i ==> has_file_name(#[trigger] paths[j]@)
}

impl Renaming {
    /// Plans the move of the one file at `path`.
    pub fn derive(path: &str, output_directory: &str) -> (r: Renaming)
        requires
            has_file_name(path@),
        ensures
            r@ == planned(path@, output_directory@),
    {
        let name = file_name(path).unwrap();
        let new_name = join(output_directory, trim_leading_zeros(name.as_str()));
        Renaming { current_name: path.to_owned(), new_name }
    }
}

/// Plans one move for each of `file_paths`, in their order.
pub fn derive_renamings(file_paths: &[String], output_directory: &str) -> (r: Vec<Renaming>)
    requires
        all_have_file_names(file_paths@),
    ensures
        is_plan_for(r@, file_paths@, output_directory@),
{
    let mut renamings: Vec<Renaming> = Vec::new();
    let mut i: usize = 0;
    while i < file_paths.len()
        invariant
            i <= file_paths@.len(),
            all_have_file_names(file_paths@),
            is_plan_for(renamings@, file_paths@.take(i as int), output_directory@),
        decreases file_paths@.len() - i,
    {
        let renaming = Renaming::derive(file_paths[i].as_str(), output_directory);
        renamings.push(renaming);
        i = i + 1;
    }
    assert(file_paths@.take(i as int) =~= file_paths@);
    renamings
}

/// Plans one move for each of `file_paths` where every one of them has a file
/// name, and otherwise tells the first that has none.
pub fn try_derive_renamings(
    file_paths: &[String],
    output_directory: &str,
) -> (r: Result<Vec<Renaming>, NoFileName>)
    ensures
        r is Ok <==> all_have_file_names(file_paths@),
        r matches Ok(plan) ==> is_plan_for(plan@, file_paths@, output_directory@),
        r matches Err(e) ==> is_first_without_file_name(file_paths@, e.index as int),
{
    let mut i: usize = 0;
    while i < file_paths.len()
        invariant
            i <= file_paths@.len(),
            forall|j: int| 0 <= j < i ==> has_file_name(#[trigger] file_paths@[j]@),
        decreases file_paths@.len() - i,
    {
        if file_name(file_paths[i].as_str()).is_none() {
            return Err(NoFileName { index: i });
        }
        i = i + 1;
    }
    Ok(derive_renamings(file_paths, output_directory))
}

} // verus!
