//! Which upstream server a proxy sends a request to.
use vstd::prelude::*;

verus! {

/// Round robin: the `count`-th request goes to server `count % n`.
pub fn round_robin_index(count: usize, n: usize) -> (r: usize)
    requires
        n > 0,
    ensures
        r == count % n,
        r < n,
{
    count % n
}

/// Fixed routing: a request goes to the server that its path's hash picks, so
/// one path always reaches the same server.
pub fn hashed_index(hash: u64, n: usize) -> (r: usize)
    requires
        n > 0,
    ensures
        r as int == (hash as int) % (n as int),
        r < n,
{
    (hash % (n as u64)) as usize
}

} // verus!
