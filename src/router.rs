//! Deterministic routing of strings (tokens and document ids) to shards.
use vstd::prelude::*;

verus! {

/// The multiplier of the routing hash.
pub const ROUTER_MULTIPLIER: u32 = 123456789;

/// The hash accumulated over the code points of `s`, in 32-bit wrapping arithmetic:
/// each code point `c` adds `ROUTER_MULTIPLIER + c * c`.
pub open spec fn route_accumulator(s: Seq<char>) -> u32
    decreases s.len(),
{
    if s.len() == 0 {
        0
    } else {
        let c = s.last() as u32;
        route_accumulator(s.drop_last()).wrapping_add(
            ROUTER_MULTIPLIER.wrapping_add(c.wrapping_mul(c)),
        )
    }
}

/// The shard that `s` belongs to among `shard_count` shards.
pub open spec fn route(s: Seq<char>, shard_count: u32) -> u32
    recommends
        shard_count >= 1,
{
    (route_accumulator(s).wrapping_mul(ROUTER_MULTIPLIER) % shard_count) as u32
}

/// Maps `s` to its shard in `[0, shard_count)`.
pub fn calculate_shard_id(s: &str, shard_count: u32) -> (r: u32)
    requires
        shard_count >= 1,
    ensures
        r == route(s@, shard_count),
        r < shard_count,
{
    let mut acc: u32 = 0;
    for c in it: s.chars()
        invariant
            it.seq() == s@,
            acc == route_accumulator(s@.take(it.index() as int)),
    {
        proof {
            assert(s@.take(it.index() + 1).drop_last() =~= s@.take(it.index() as int));
        }
        let code = c as u32;
        acc = acc.wrapping_add(ROUTER_MULTIPLIER.wrapping_add(code.wrapping_mul(code)));
    }
    proof {
        assert(s@.take(s@.len() as int) =~= s@);
    }
    acc.wrapping_mul(ROUTER_MULTIPLIER) % shard_count
}

/// Every string is routed to a shard that exists.
pub proof fn lemma_route_in_range(s: Seq<char>, shard_count: u32)
    requires
        shard_count >= 1,
    ensures
        route(s, shard_count) < shard_count,
{
}

/// Routing depends on the string and the shard count alone: equal inputs give equal shards.
pub proof fn lemma_route_deterministic(s: Seq<char>, t: Seq<char>, shard_count: u32)
    requires
        s == t,
    ensures
        route(s, shard_count) == route(t, shard_count),
{
}

} // verus!
