//! The few questions the model asks the filesystem. Each answer is whatever
//! the disk says at the moment of the call, so nothing is promised of it;
//! the verified code around these calls is correct for every answer.

use vstd::prelude::*;

verus! {

/// `Path::is_dir`: whether `path` names a directory (following links) right now.
#[verifier::external_body]
pub(crate) fn is_dir(path: &str) -> bool {
    std::path::Path::new(path).is_dir()
}

/// `Path::exists`: whether anything is at `path` (following links) right now.
#[verifier::external_body]
pub(crate) fn path_exists(path: &str) -> bool {
    std::path::Path::new(path).exists()
}

} // verus!
