//! The readiness-set bookkeeping a select-based timed read uses: a fixed
//! bitmap of file descriptors, one bit per descriptor, in machine words.

use vstd::prelude::*;

verus! {

/// The largest file descriptor a readiness set can hold.
pub const FD_SETSIZE: usize = 1024;

/// A set of file descriptors, one bit each, in 16 64-bit words.
#[allow(non_camel_case_types)]
pub struct fd_set {
    /// The bits of the set; descriptor `fd` lives in word `fd / 64`, bit `fd % 64`.
    pub fds_bits: [u64; 16],
}

impl fd_set {
    /// An empty readiness set.
    pub fn new() -> (s: fd_set)
        ensures
            forall|w: int| 0 <= w < 16 ==> s.fds_bits@[w] == 0,
    {
        fd_set { fds_bits: [0u64; 16] }
    }
}

/// Marks descriptor `fd` as a member of the readiness set: its bit is set and
/// every other word is untouched.
#[allow(non_snake_case)]
pub fn fd_set(set: &mut fd_set, fd: i32)
    requires
        0 <= fd < 1024,
    ensures
        final(set).fds_bits@ == old(set).fds_bits@.update(
            fd as int / 64,
            (old(set).fds_bits@[fd as int / 64] | (1u64 << (fd as u64 % 64))) as u64,
        ),
{
    let fd = fd as usize;
    let word = set.fds_bits[fd / 64] | (1u64 << ((fd % 64) as u64));
    set.fds_bits[fd / 64] = word;
    proof {
        assert(set.fds_bits@ =~= old(set).fds_bits@.update(
            fd as int / 64,
            (old(set).fds_bits@[fd as int / 64] | (1u64 << (fd as u64 % 64))) as u64,
        ));
    }
}

} // verus!
