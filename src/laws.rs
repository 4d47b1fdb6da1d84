//! What holds of every state that the till's operations can reach. `Store::new` returns
//! a well-formed store and every operation keeps it well-formed, so each statement
//! below holds after any sequence of operations.
use vstd::prelude::*;

use crate::model::{OrderStatus, PosError};
use crate::model::Order;
use crate::session::{
    active_session, close_refusal, in_session, lemma_orders_count_le, lemma_orders_count_pos,
    open_in_session, orders_count, orders_revenue,
};
use crate::store::{item_sum, Store};

verus! {

/// Every product's stock on hand is zero or more.
pub proof fn stock_never_negative(s: Store)
    requires
        s.wf(),
    ensures
        forall|i: int| 0 <= i < s.products@.len() ==> (#[trigger] s.products@[i]).quantity >= 0,
{
}

/// The total of every open order is Σ quantity × price at sale over its items.
pub proof fn open_order_totals_match(s: Store)
    requires
        s.wf(),
    ensures
        forall|i: int|
            0 <= i < s.orders@.len() && (#[trigger] s.orders@[i]).status == OrderStatus::Open
                ==> s.orders@[i].total == item_sum(s.items@, s.orders@[i].id),
{
}

/// At most one session is active.
pub proof fn at_most_one_active_session(s: Store)
    requires
        s.wf(),
    ensures
        forall|i: int, j: int|
            0 <= i < s.sessions@.len() && 0 <= j < s.sessions@.len()
                && #[trigger] s.sessions@[i].is_active && #[trigger] s.sessions@[j].is_active
                ==> i == j,
{
}

/// Closing the day is refused, naming how many orders are open, while any order of
/// the active session is open.
pub proof fn close_refused_while_orders_open(s: Store, k: int)
    requires
        s.wf(),
        active_session(s) is Some,
        0 <= k < s.orders@.len(),
        s.orders@[k].session_id == Some(active_session(s)->Some_0.id),
        s.orders@[k].status == OrderStatus::Open,
    ensures
        ({
            let n = orders_count(s.orders@, open_in_session(active_session(s)->Some_0.id));
            &&& 1 <= n <= s.orders@.len()
            &&& close_refusal(s) == Some(PosError::OpenOrdersRemain(n as u64))
        }),
{
    let sid = active_session(s)->Some_0.id;
    lemma_orders_count_pos(s.orders@, in_session(sid), k);
    lemma_orders_count_pos(s.orders@, open_in_session(sid), k);
    lemma_orders_count_le(s.orders@, open_in_session(sid));
}

/// Closing the day is not refused once the active session has orders and all of them
/// are paid (and their revenue fits in an `i64`); `Store::close_day` then freezes that
/// revenue and order count on the session.
pub proof fn close_allowed_when_all_paid(s: Store, k: int)
    requires
        s.wf(),
        active_session(s) is Some,
        0 <= k < s.orders@.len(),
        s.orders@[k].session_id == Some(active_session(s)->Some_0.id),
        forall|i: int|
            0 <= i < s.orders@.len() && (#[trigger] s.orders@[i]).session_id == Some(
                active_session(s)->Some_0.id,
            ) ==> s.orders@[i].status == OrderStatus::Paid,
        orders_revenue(s.orders@, in_session(active_session(s)->Some_0.id)) <= i64::MAX,
    ensures
        close_refusal(s) is None,
{
    let sid = active_session(s)->Some_0.id;
    lemma_orders_count_pos(s.orders@, in_session(sid), k);
    lemma_orders_count_none(s.orders@, open_in_session(sid));
}

/// No order that `pick` accepts: the count is zero.
proof fn lemma_orders_count_none(os: Seq<Order>, pick: spec_fn(Order) -> bool)
    requires
        forall|i: int| 0 <= i < os.len() ==> !pick(#[trigger] os[i]),
    ensures
        orders_count(os, pick) == 0,
    decreases os.len(),
{
    if os.len() > 0 {
        let d = os.drop_last();
        assert forall|i: int| 0 <= i < d.len() implies !pick(#[trigger] d[i]) by {
            assert(d[i] == os[i]);
        }
        lemma_orders_count_none(d, pick);
        assert(!pick(os[os.len() - 1]));
    }
}

} // verus!
