//! Guarding writes: whether a file changed on disk since it was indexed or
//! read. The reads and writes themselves are the caller's.
use vstd::prelude::*;

use crate::astedit::error::AstEditError;
use crate::hash::FileHash;
use crate::index::FileMeta;

verus! {

/// A file whose length on disk is the length recorded when it was indexed
/// is taken as unchanged, without hashing it.
pub fn unchanged_by_length(meta: &FileMeta, disk_len: u64) -> (res: bool)
    ensures
        res == (disk_len == meta.len),
{
    disk_len == meta.len
}

/// When the lengths differ, hashes decide: the file is unchanged only when
/// the index recorded a hash and it equals the hash of the file on disk;
/// otherwise it drifted.
pub fn drift_by_hash(rel: &str, index_hash: Option<&FileHash>, on_disk: &FileHash) -> (res: Result<(), AstEditError>)
    ensures
        res is Ok <==> (index_hash matches Some(h) && h@ == on_disk@),
        res matches Err(e) ==> (e matches AstEditError::HashMismatch { file } && file@ == rel@),
{
    match index_hash {
        Some(h) => if h.same_as(on_disk) {
            return Ok(());
        },
        None => {},
    }
    Err(AstEditError::HashMismatch { file: rel.to_owned() })
}

/// Right before writing: a length on disk other than the one read means
/// another writer changed the file meanwhile.
pub fn race_check(rel: &str, original_len: u64, current_len: u64) -> (res: Result<(), AstEditError>)
    ensures
        res is Ok <==> original_len == current_len,
        res matches Err(e) ==> (e matches AstEditError::ConcurrentWrite { file } && file@ == rel@),
{
    if current_len != original_len {
        Err(AstEditError::ConcurrentWrite { file: rel.to_owned() })
    } else {
        Ok(())
    }
}

} // verus!
