//! Constants shared between several modules.

use vstd::prelude::*;

verus! {

/// The number of bytes in a SHA-1 hash.
pub const SHA1_HASH_LENGTH: usize = 20;

/// The number of characters in a SHA-1 hash written in hexadecimal.
pub const SHA1_HASH_ASCII_LENGTH: usize = 40;

/// The marker that `git-svn` puts before what it records of the commit of
/// the origin system.
pub const GIT_SVN_ID_STR: &'static str = "git-svn-id";

/// The marker as it stands in its line, with the colon after it.
pub const GIT_SVN_ID_FIELD: &'static str = "git-svn-id:";

} // verus!
