//! The anti-spam proof-of-work nonce search.
use vstd::prelude::*;
use crate::ledger::Block;

verus! {

/// Nonces tried before the search gives up.
pub const MAX_POW_ITERATIONS: u64 = 10_000_000;

/// `b` with its work nonce set to `n`.
pub open spec fn with_work(b: Block, n: u64) -> Block {
    Block { work: n, ..b }
}

/// Tries the nonces 0, 1, 2, ... as the work of `block` until `verify_pow`
/// accepts the block or `MAX_POW_ITERATIONS` nonces were tried; returns
/// whether an accepted nonce was found. The block keeps the last nonce
/// tried: the accepted one, or the last of the range. Nothing else of the
/// block changes.
pub fn solve_pow<F: Fn(&Block) -> bool>(block: &mut Block, verify_pow: F) -> (found: bool)
    requires
        forall|b: Block| call_requires(verify_pow, (&b,)),
    ensures
        *final(block) == with_work(*old(block), final(block).work),
        final(block).work < MAX_POW_ITERATIONS,
        found ==> call_ensures(verify_pow, (&*final(block),), true),
        !found ==> final(block).work == MAX_POW_ITERATIONS - 1 && call_ensures(
            verify_pow,
            (&*final(block),),
            false,
        ),
        forall|n: u64|
            n < final(block).work ==> call_ensures(
                verify_pow,
                (&with_work(*old(block), n),),
                false,
            ),
{
    let ghost orig = *block;
    let mut nonce: u64 = 0;
    loop
        invariant
            orig == *old(block),
            nonce < MAX_POW_ITERATIONS,
            *block == with_work(orig, block.work),
            forall|b: Block| call_requires(verify_pow, (&b,)),
            forall|n: u64| n < nonce ==> call_ensures(verify_pow, (&with_work(orig, n),), false),
        decreases MAX_POW_ITERATIONS - nonce,
    {
        block.work = nonce;
        proof {
            assert(*block == with_work(orig, nonce));
        }
        let ok = verify_pow(&*block);
        if ok {
            return true;
        }
        if nonce + 1 >= MAX_POW_ITERATIONS {
            return false;
        }
        nonce = nonce + 1;
    }
}

} // verus!
