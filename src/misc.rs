//! Decisions about the input file, taken on what the caller has found out about it.
use crate::error::FilterError;
use vstd::prelude::*;

verus! {

/// Fails with `MissingFile` unless the input file was found to exist.
pub fn check_if_file_exists(exists: bool) -> (r: Result<(), FilterError>)
    ensures
        exists ==> r is Ok,
        !exists ==> r == Err::<(), FilterError>(FilterError::MissingFile),
{
    if exists {
        Ok(())
    } else {
        Err(FilterError::MissingFile)
    }
}

/// Whether the first bytes of a file are the gzip magic number `1f 8b`.
pub fn is_gzip_header(first: &[u8]) -> (r: bool)
    ensures
        r == (first@.len() >= 2 && first@[0] == 0x1f && first@[1] == 0x8b),
{
    first.len() >= 2 && first[0] == 0x1f && first[1] == 0x8b
}

} // verus!
