//! How a gateway numbers its orders.
use std::sync::atomic::{AtomicU64, Ordering};
use vstd::prelude::*;

verus! {

/// The orders of one gateway that have ids of their own.
pub open spec fn id_span() -> int {
    0x1_0000_0000_0000
}

/// The id of the order that gateway `gateway_id` counts as `local`: the gateway
/// stands in the upper bits and the count in the lower ones.
pub open spec fn order_id(gateway_id: u16, local: u64) -> int {
    gateway_id * id_span() + local as int % id_span()
}

/// The id of the order that gateway `gateway_id` counts as `local`.
pub fn compose_order_id(gateway_id: u16, local: u64) -> (id: u64)
    ensures
        id == order_id(gateway_id, local),
{
    let gateway: u64 = gateway_id as u64;
    proof {
        assert(gateway <= 0xFFFF ==> (gateway << 48 | (local & 0x0000_FFFF_FFFF_FFFF)) == gateway
            * 0x1_0000_0000_0000 + local % 0x1_0000_0000_0000) by (bit_vector);
    }
    gateway << 48 | (local & 0x0000_FFFF_FFFF_FFFF)
}

/// Whether `local` is a count that adding one to `counter` gave back.
pub open spec fn counted(counter: &AtomicU64, local: u64) -> bool {
    call_ensures(AtomicU64::fetch_add, (counter, 1u64, Ordering::Relaxed), local)
}

/// The id of the next order of gateway `gateway_id`; `counter` counts its
/// orders. Other threads may count on `counter` too, so which count comes back
/// is open; the id is that of the very count that did.
pub fn next_order_id(gateway_id: u16, counter: &AtomicU64) -> (id: u64)
    ensures
        exists|local: u64| id == #[trigger] order_id(gateway_id, local),
        exists|local: u64|
            counted(counter, local) && id == #[trigger] order_id(gateway_id, local),
{
    let local = counter.fetch_add(1, Ordering::Relaxed);
    assert(counted(counter, local));
    compose_order_id(gateway_id, local)
}

/// Two orders have the same id only where they are of one gateway and a whole
/// span of its count apart; the id tells the gateway.
pub proof fn ids_tell_orders_apart(gateway_a: u16, local_a: u64, gateway_b: u16, local_b: u64)
    ensures
        order_id(gateway_a, local_a) == order_id(gateway_b, local_b) <==> gateway_a == gateway_b
            && local_a as int % id_span() == local_b as int % id_span(),
        order_id(gateway_a, local_a) / id_span() == gateway_a,
        0 <= order_id(gateway_a, local_a) <= u64::MAX,
{
}

/// An id is made of all of the count's lower 48 bits and of the gateway above
/// them, and of nothing else: both can be read off the id again.
pub proof fn id_holds_gateway_and_count(gateway_id: u16, local: u64)
    ensures
        0 <= order_id(gateway_id, local) <= u64::MAX,
        order_id(gateway_id, local) / 0x1_0000_0000_0000 == gateway_id,
        order_id(gateway_id, local) % 0x1_0000_0000_0000 == local % 0x1_0000_0000_0000,
{
}

/// Two counts of one gateway that are less than 2^48 apart never make the same
/// id.
pub proof fn no_id_comes_twice(gateway_id: u16, earlier: u64, later: u64)
    requires
        earlier < later,
        later - earlier < 0x1_0000_0000_0000,
    ensures
        order_id(gateway_id, earlier) != order_id(gateway_id, later),
        later == earlier + 1 && later % 0x1_0000_0000_0000 != 0 ==> order_id(gateway_id, later)
            == order_id(gateway_id, earlier) + 1,
{
}

/// A count is one that came back from adding exactly one to the counter itself.
pub proof fn count_comes_from_the_counter(counter: &AtomicU64, local: u64)
    ensures
        counted(counter, local) <==> call_ensures(
            AtomicU64::fetch_add,
            (counter, 1u64, Ordering::Relaxed),
            local,
        ),
{
}

} // verus!
