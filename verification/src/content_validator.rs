//! The background integrity pass over a commit.
//!
//! The pass eventually sets an `is_valid` flag for each commit: a commit
//! is sound when its node DB and its dir-hashes index are both
//! retrievable. Until the pass has run, a commit reads as not validated.

use vstd::prelude::*;
use crate::error::OxenError;
use crate::repo::{Commit, LocalRepository, ValidityFlag};

verus! {

/// Whether a commit's content is durably stored: its own node DB and
/// its dir-hashes index both answer.
pub open spec fn spec_commit_is_sound(repo: &LocalRepository, id: u128) -> bool {
    repo.dbs_map().contains_key(id) && repo.dir_hashes_dbs.view_map().contains_key(id)
}

/// Run the integrity pass for one commit: check that everything the
/// commit references is retrievable and record the verdict.
///
/// A verdict already recorded stands; the pass is idempotent.
pub fn compute(repo: &mut LocalRepository, commit: &Commit) -> (r: Result<(), OxenError>)
    requires
        old(repo).wf(),
    ensures
        r is Ok,
        final(repo).wf(),
        final(repo).dbs_map() == old(repo).dbs_map(),
        final(repo).blobs() == old(repo).blobs(),
        final(repo).branches.view_map() == old(repo).branches.view_map(),
        final(repo).cache_map() == old(repo).cache_map(),
        final(repo).staged@ == old(repo).staged@,
        final(repo).validity.view_map() == if old(repo).validity.view_map().contains_key(
            commit.id.value,
        ) {
            old(repo).validity.view_map()
        } else {
            old(repo).validity.view_map().insert(
                commit.id.value,
                spec_commit_is_sound(old(repo), commit.id.value),
            )
        },
{
    let sound = repo.dbs.contains(commit.id.to_u128()) && repo.dir_hashes_dbs.contains(
        commit.id.to_u128(),
    );
    repo.validity.put_new(commit.id.to_u128(), ValidityFlag { valid: sound });
    Ok(())
}

/// Whether the integrity pass has validated this commit. A commit the
/// pass has not reached, or found unsound, reads as not valid.
pub fn is_valid(repo: &LocalRepository, commit: &Commit) -> (r: bool)
    requires
        repo.wf(),
    ensures
        r == (repo.validity.view_map().contains_key(commit.id.value)
            && repo.validity.view_map()[commit.id.value]),
{
    match repo.validity.get(commit.id.to_u128()) {
        Some(f) => f.valid,
        None => false,
    }
}

} // verus!
