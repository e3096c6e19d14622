//! The read-only view of a git repository that resolution needs: tag names,
//! the commit a tag points at, the head commit, and a commit's parents.
//!
//! Every function here wraps a call into the `git2` crate. What a repository
//! holds is outside the library's reach, so none of these promises anything
//! about the values that come back; the verified code states what holds
//! whatever they return.

use vstd::prelude::*;

verus! {

#[verifier::external_type_specification]
#[verifier::external_body]
pub struct ExRepository(git2::Repository);

#[verifier::external_type_specification]
#[verifier::external_body]
pub struct ExGitError(git2::Error);

/// Relies on git2's `Repository::tag_names`: lists the repository's tag
/// names, dropping the ones that are not valid UTF-8.
#[verifier::external_body]
pub(crate) fn repo_tag_names(repo: &git2::Repository) -> (r: Result<Vec<String>, git2::Error>) {
    match repo.tag_names(None) {
        Ok(names) => Ok(
            names.iter().filter_map(
                |n| match n {
                    Ok(Some(s)) => Some(String::from(s)),
                    _ => None,
                },
            ).collect(),
        ),
        Err(e) => Err(e),
    }
}

/// Relies on git2's `Repository::revparse_single` and `Object::peel_to_commit`:
/// resolves a tag name to the commit it ultimately points at (peeling
/// annotated tags), returned as its hex id.
#[verifier::external_body]
pub(crate) fn get_tagged_commit(repo: &git2::Repository, tag_name: &String) -> (r: Result<
    String,
    git2::Error,
>) {
    let object = repo.revparse_single(&format!("refs/tags/{}", tag_name))?;
    let commit = object.peel_to_commit()?;
    Ok(commit.id().to_string())
}

/// Relies on git2's `Repository::head` and `Reference::peel_to_commit`: the
/// hex id of the commit the current head points at.
#[verifier::external_body]
pub(crate) fn head_commit_id(repo: &git2::Repository) -> (r: Result<String, git2::Error>) {
    let commit = repo.head()?.peel_to_commit()?;
    Ok(commit.id().to_string())
}

/// Relies on git2's `Oid::from_str`, `Repository::find_commit` and
/// `Commit::parent_ids`: the hex ids of a commit's parents.
#[verifier::external_body]
pub(crate) fn commit_parent_ids(repo: &git2::Repository, commit_id: &String) -> (r: Result<
    Vec<String>,
    git2::Error,
>) {
    let oid = git2::Oid::from_str(commit_id)?;
    let commit = repo.find_commit(oid)?;
    Ok(commit.parent_ids().map(|p| p.to_string()).collect())
}

} // verus!
