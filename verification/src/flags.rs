//! Sharing flags accepted by the futex operations.

use vstd::prelude::*;

verus! {

/// Flag bit that marks a futex as shared between processes.
///
/// Key derivation currently treats shared and private futexes alike
/// (process-private keying only): a true shared key would need a
/// backing-object identity (inode or page-cache object) that does not
/// exist yet.
pub const FLAGS_SHARED: i32 = 1;

} // verus!
