//! Day sessions: starting one, closing it with frozen totals, the backup snapshot of a
//! closed session, and the recovery of orders that never had a session.
use vstd::prelude::*;
use vstd::seq_lib::{to_multiset_build, to_multiset_insert};

use crate::model::{
    day_of, DaySession, DaySummary, Order, OrderStatus, OrderWithItems, PosError, SessionSnapshot,
    SECONDS_PER_DAY,
};
use crate::ledger::lemma_take_step;
use crate::store::{items_of, keeps_catalog, keeps_orders, Store};

verus! {

/// Orders that belong to session `sid`.
pub open spec fn in_session(sid: i64) -> spec_fn(Order) -> bool {
    |o: Order| o.session_id == Some(sid)
}

/// Open orders that belong to session `sid`.
pub open spec fn open_in_session(sid: i64) -> spec_fn(Order) -> bool {
    |o: Order| o.session_id == Some(sid) && o.status == OrderStatus::Open
}

/// Orders taken on day `date` that have no session.
pub open spec fn unlinked_on(date: u64) -> spec_fn(Order) -> bool {
    |o: Order| o.session_id is None && day_of(o.created_at) == date
}

/// Orders still open.
pub open spec fn is_open() -> spec_fn(Order) -> bool {
    |o: Order| o.status == OrderStatus::Open
}

/// Orders taken on a day from `first` to `last`, both included.
pub open spec fn taken_between(first: u64, last: u64) -> spec_fn(Order) -> bool {
    |o: Order| first <= day_of(o.created_at) <= last
}

/// How many of `os` satisfy `pick`.
pub open spec fn orders_count(os: Seq<Order>, pick: spec_fn(Order) -> bool) -> int
    decreases os.len(),
{
    if os.len() == 0 {
        0
    } else {
        orders_count(os.drop_last(), pick) + if pick(os.last()) {
            1int
        } else {
            0
        }
    }
}

/// Σ total over the orders of `os` that satisfy `pick`.
pub open spec fn orders_revenue(os: Seq<Order>, pick: spec_fn(Order) -> bool) -> int
    decreases os.len(),
{
    if os.len() == 0 {
        0
    } else {
        orders_revenue(os.drop_last(), pick) + if pick(os.last()) {
            os.last().total as int
        } else {
            0
        }
    }
}

/// The orders of `os` that satisfy `pick`, in their order.
pub open spec fn orders_where(os: Seq<Order>, pick: spec_fn(Order) -> bool) -> Seq<Order>
    decreases os.len(),
{
    if os.len() == 0 {
        Seq::empty()
    } else if pick(os.last()) {
        orders_where(os.drop_last(), pick).push(os.last())
    } else {
        orders_where(os.drop_last(), pick)
    }
}

/// The active session, if one is active.
pub open spec fn active_session(s: Store) -> Option<DaySession> {
    if s.day_active() {
        Some(s.sessions@[active_pos(s)])
    } else {
        None
    }
}

/// Where the active session stands.
pub open spec fn active_pos(s: Store) -> int {
    choose|k: int| 0 <= k < s.sessions@.len() && #[trigger] s.sessions@[k].is_active
}

/// Why closing the day is refused, if it is.
pub open spec fn close_refusal(s: Store) -> Option<PosError> {
    match active_session(s) {
        None => Some(PosError::NoActiveSession),
        Some(a) => if orders_count(s.orders@, in_session(a.id)) == 0 {
            Some(PosError::EmptySession)
        } else if orders_count(s.orders@, open_in_session(a.id)) > 0 {
            Some(PosError::OpenOrdersRemain(orders_count(s.orders@, open_in_session(a.id)) as u64))
        } else if orders_revenue(s.orders@, in_session(a.id)) > i64::MAX {
            Some(PosError::AmountOverflow)
        } else {
            None
        },
    }
}

/// Why the recovery closing of day `date` is refused, if it is.
pub open spec fn recovery_refusal(s: Store, date: u64) -> Option<PosError> {
    if exists|k: int|
        0 <= k < s.sessions@.len() && !(#[trigger] s.sessions@[k]).is_active && s.sessions@[k].date
            == Some(date) {
        Some(PosError::ClosedSessionExists(date))
    } else if orders_count(s.orders@, unlinked_on(date)) == 0 {
        Some(PosError::NoOrdersForDate(date))
    } else if orders_revenue(s.orders@, unlinked_on(date)) > i64::MAX {
        Some(PosError::AmountOverflow)
    } else if s.next_session_id == i64::MAX {
        Some(PosError::IdsExhausted)
    } else {
        None
    }
}

/// `date` is the date of session `sid`, or none when no such session is recorded.
pub open spec fn session_date(ss: Seq<DaySession>, sid: i64, date: Option<u64>) -> bool {
    ||| exists|k: int| 0 <= k < ss.len() && (#[trigger] ss[k]).id == sid && date == ss[k].date
    ||| (forall|k: int| 0 <= k < ss.len() ==> (#[trigger] ss[k]).id != sid) && date is None
}

/// The closed sessions among `ss`, in their order.
pub open spec fn closed_sessions(ss: Seq<DaySession>) -> Seq<DaySession>
    decreases ss.len(),
{
    if ss.len() == 0 {
        Seq::empty()
    } else if !ss.last().is_active && ss.last().closed_at is Some {
        closed_sessions(ss.drop_last()).push(ss.last())
    } else {
        closed_sessions(ss.drop_last())
    }
}

/// When a session closed, or -1 when it has not.
pub open spec fn closing_key(d: DaySession) -> int {
    match d.closed_at {
        Some(t) => t as int,
        None => -1,
    }
}

/// `v` is ordered by closing time, latest first.
pub open spec fn by_closing(v: Seq<DaySession>) -> bool {
    forall|a: int, b: int|
        0 <= a < b < v.len() ==> closing_key(#[trigger] v[a]) >= closing_key(#[trigger] v[b])
}

/// How many sessions a history of at most `n` shows out of `len`.
pub open spec fn history_len(n: int, len: int) -> int {
    if n <= 0 {
        0
    } else if n < len {
        n
    } else {
        len
    }
}

/// How a listing orders its orders.
#[derive(Clone, Copy, Debug, PartialEq, Eq, Structural)]
pub enum ListingOrder {
    /// Latest `created_at` first.
    NewestFirst,
    /// Paid orders ahead of open ones, each group latest `created_at` first.
    PaidThenNewest,
    /// Earliest `created_at` first.
    OldestFirst,
}

/// The key by which a listing orders its orders, largest first.
pub open spec fn listing_key(o: Order, mode: ListingOrder) -> int {
    match mode {
        ListingOrder::NewestFirst => o.created_at as int,
        ListingOrder::PaidThenNewest => (if o.status == OrderStatus::Paid {
            0x1_0000_0000_0000_0000int
        } else {
            0int
        }) + o.created_at as int,
        ListingOrder::OldestFirst => -(o.created_at as int),
    }
}

/// `v` is ordered by `listing_key`, largest first.
pub open spec fn listed(v: Seq<OrderWithItems>, mode: ListingOrder) -> bool {
    forall|a: int, b: int|
        0 <= a < b < v.len() ==> listing_key((#[trigger] v[a]).order, mode) >= listing_key(
            (#[trigger] v[b]).order,
            mode,
        )
}

/// `v` lists exactly the orders of `os` that `pick` accepts, each with its items from
/// `items`, ordered by `listing_key`.
pub open spec fn listing_of(
    v: Seq<OrderWithItems>,
    os: Seq<Order>,
    items: Seq<crate::model::OrderItem>,
    pick: spec_fn(Order) -> bool,
    mode: ListingOrder,
) -> bool {
    &&& listed(v, mode)
    &&& orders_of(v).to_multiset() == orders_where(os, pick).to_multiset()
    &&& forall|j: int| 0 <= j < v.len() ==> (#[trigger] v[j]).items@ == items_of(items, v[j].order.id)
}

/// The orders that `v` holds, in its order.
pub open spec fn orders_of(v: Seq<OrderWithItems>) -> Seq<Order> {
    v.map_values(|w: OrderWithItems| w.order)
}

/// `v` is ordered by table number.
pub open spec fn by_table(v: Seq<OrderWithItems>) -> bool {
    forall|a: int, b: int|
        0 <= a < b < v.len() ==> (#[trigger] v[a]).order.table_number <= (#[trigger] v[b]).order.table_number
}

/// `o` linked to session `sid`.
pub open spec fn linked(o: Order, sid: i64) -> Order {
    Order { session_id: Some(sid), ..o }
}

/// Session `a` closed at `now` with `revenue` and `count` frozen on it.
pub open spec fn closed(a: DaySession, now: u64, revenue: int, count: int) -> DaySession {
    DaySession {
        is_active: false,
        closed_at: Some(now),
        total_revenue: Some(revenue as i64),
        total_orders: Some(count as u64),
        ..a
    }
}

/// An order that `pick` accepts makes the count positive.
pub proof fn lemma_orders_count_pos(os: Seq<Order>, pick: spec_fn(Order) -> bool, k: int)
    requires
        0 <= k < os.len(),
        pick(os[k]),
    ensures
        orders_count(os, pick) >= 1,
    decreases os.len(),
{
    lemma_orders_count_nonneg(os.drop_last(), pick);
    if k < os.len() - 1 {
        assert(os.drop_last()[k] == os[k]);
        lemma_orders_count_pos(os.drop_last(), pick, k);
    }
}

proof fn lemma_orders_count_nonneg(os: Seq<Order>, pick: spec_fn(Order) -> bool)
    ensures
        orders_count(os, pick) >= 0,
    decreases os.len(),
{
    if os.len() > 0 {
        lemma_orders_count_nonneg(os.drop_last(), pick);
    }
}

/// A count never exceeds the number of orders.
pub proof fn lemma_orders_count_le(os: Seq<Order>, pick: spec_fn(Order) -> bool)
    ensures
        orders_count(os, pick) <= os.len(),
    decreases os.len(),
{
    if os.len() > 0 {
        lemma_orders_count_le(os.drop_last(), pick);
    }
}

/// The position of the active session is the one that the scan finds.
pub proof fn lemma_active_pos(s: Store, k: int)
    requires
        s.wf(),
        0 <= k < s.sessions@.len(),
        s.sessions@[k].is_active,
    ensures
        active_pos(s) == k,
        active_session(s) == Some(s.sessions@[k]),
{
    let j = active_pos(s);
    assert(s.sessions@[j].is_active);
}

/// `closing_key` of a session, computed.
fn closing_key_of(d: &DaySession) -> (r: i128)
    ensures
        r == closing_key(*d),
{
    match d.closed_at {
        Some(t) => t as i128,
        None => -1,
    }
}

/// `listing_key` of an order, computed.
fn order_key(o: &Order, mode: ListingOrder) -> (r: i128)
    ensures
        r == listing_key(*o, mode),
{
    match mode {
        ListingOrder::NewestFirst => o.created_at as i128,
        ListingOrder::PaidThenNewest => {
            let rank: i128 = if o.status == OrderStatus::Paid {
                0x1_0000_0000_0000_0000
            } else {
                0
            };
            rank + o.created_at as i128
        },
        ListingOrder::OldestFirst => -(o.created_at as i128),
    }
}

impl Store {
    /// Position of the session with id `id`.
    pub fn session_index(&self, id: i64) -> (r: Option<usize>)
        ensures
            match r {
                Some(k) => k < self.sessions@.len() && self.sessions@[k as int].id == id,
                None => forall|k: int|
                    0 <= k < self.sessions@.len() ==> #[trigger] self.sessions@[k].id != id,
            },
    {
        let mut i: usize = 0;
        while i < self.sessions.len()
            invariant
                i <= self.sessions@.len(),
                forall|k: int| 0 <= k < i ==> #[trigger] self.sessions@[k].id != id,
            decreases self.sessions@.len() - i,
        {
            if self.sessions[i].id == id {
                return Some(i);
            }
            i = i + 1;
        }
        None
    }

    /// The active session, if any.
    pub fn get_active_session(&self) -> (r: Option<DaySession>)
        requires
            self.wf(),
        ensures
            r == active_session(*self),
    {
        match self.active_index() {
            Some(k) => {
                proof {
                    lemma_active_pos(*self, k as int);
                }
                Some(self.sessions[k])
            },
            None => None,
        }
    }

    /// Is a session active?
    pub fn is_day_active(&self) -> (r: bool)
        ensures
            r == self.day_active(),
    {
        self.active_index().is_some()
    }

    /// Starts a new session at `now`, by staff member `staff_id`. Refused while another
    /// session is active; several sessions may share a date.
    pub fn start_day(&mut self, staff_id: i64, now: u64) -> (r: Result<DaySession, PosError>)
        requires
            old(self).wf(),
        ensures
            final(self).wf(),
            match r {
                Err(e) => *final(self) == *old(self) && if old(self).day_active() {
                    e == PosError::SessionAlreadyActive
                } else {
                    e == PosError::IdsExhausted && old(self).next_session_id == i64::MAX
                },
                Ok(d) => {
                    &&& !old(self).day_active()
                    &&& d == DaySession {
                        id: old(self).next_session_id,
                        date: Some(day_of(now)),
                        started_by: staff_id,
                        started_at: now,
                        closed_at: None,
                        is_active: true,
                        total_revenue: None,
                        total_orders: None,
                    }
                    &&& final(self).sessions@ == old(self).sessions@.push(d)
                    &&& final(self).next_session_id == old(self).next_session_id + 1
                    &&& final(self).day_active()
                    &&& keeps_catalog(*old(self), *final(self))
                    &&& keeps_orders(*old(self), *final(self))
                },
            },
    {
        if self.active_index().is_some() {
            return Err(PosError::SessionAlreadyActive);
        }
        if self.next_session_id == i64::MAX {
            return Err(PosError::IdsExhausted);
        }
        let d = DaySession {
            id: self.next_session_id,
            date: Some(now / SECONDS_PER_DAY),
            started_by: staff_id,
            started_at: now,
            closed_at: None,
            is_active: true,
            total_revenue: None,
            total_orders: None,
        };
        let ghost prev = self.sessions@;
        self.sessions.push(d);
        self.next_session_id = self.next_session_id + 1;
        proof {
            let ss = self.sessions@;
            assert forall|i: int| 0 <= i < ss.len() implies 1 <= #[trigger] ss[i].id
                < self.next_session_id by {
                if i < prev.len() {
                    assert(ss[i] == prev[i]);
                }
            }
            assert forall|i: int, j: int|
                0 <= i < ss.len() && 0 <= j < ss.len() && #[trigger] ss[i].id == #[trigger] ss[j].id
                    implies i == j by {
                if i < prev.len() {
                    assert(ss[i] == prev[i]);
                }
                if j < prev.len() {
                    assert(ss[j] == prev[j]);
                }
            }
            assert forall|i: int, j: int|
                0 <= i < ss.len() && 0 <= j < ss.len() && #[trigger] ss[i].is_active
                    && #[trigger] ss[j].is_active implies i == j by {
                if i < prev.len() {
                    assert(ss[i] == prev[i]);
                    assert(!prev[i].is_active);
                }
                if j < prev.len() {
                    assert(ss[j] == prev[j]);
                    assert(!prev[j].is_active);
                }
            }
        }
        proof {
            assert(self.sessions@[self.sessions@.len() - 1].is_active);
        }
        Ok(d)
    }

    /// Counts the orders of session `sid`, the open ones among them, and their revenue,
    /// capped just above what an `i64` holds.
    fn session_totals(&self, sid: i64) -> (r: (u64, u64, i128))
        requires
            self.wf(),
        ensures
            r.0 == orders_count(self.orders@, in_session(sid)),
            r.1 == orders_count(self.orders@, open_in_session(sid)),
            r.2 >= 0,
            r.2 == if orders_revenue(self.orders@, in_session(sid)) <= i64::MAX {
                orders_revenue(self.orders@, in_session(sid))
            } else {
                i64::MAX + 1
            },
    {
        let ghost os = self.orders@;
        let cap: i128 = i64::MAX as i128 + 1;
        let mut count: u64 = 0;
        let mut open: u64 = 0;
        let mut revenue: i128 = 0;
        let mut i: usize = 0;
        proof {
            assert(os.take(0) =~= Seq::<Order>::empty());
        }
        while i < self.orders.len()
            invariant
                os == self.orders@,
                i <= os.len(),
                cap == i64::MAX + 1,
                count == orders_count(os.take(i as int), in_session(sid)),
                open == orders_count(os.take(i as int), open_in_session(sid)),
                count <= i,
                open <= i,
                0 <= revenue <= cap,
                revenue == if orders_revenue(os.take(i as int), in_session(sid)) < cap {
                    orders_revenue(os.take(i as int), in_session(sid))
                } else {
                    cap as int
                },
                forall|k: int| 0 <= k < os.len() ==> (#[trigger] os[k]).total >= 0,
            decreases os.len() - i,
        {
            proof {
                lemma_take_step(os, i as int);
            }
            let o = &self.orders[i];
            if o.session_id == Some(sid) {
                count = count + 1;
                let t = o.total as i128;
                assert(t >= 0);
                let sum = revenue + t;
                revenue = if sum < cap {
                    sum
                } else {
                    cap
                };
                if o.status == OrderStatus::Open {
                    open = open + 1;
                }
            }
            i = i + 1;
        }
        proof {
            assert(os.take(i as int) =~= os);
        }
        (count, open, revenue)
    }

    /// Closes the active session at `now`. Refused when no session is active, when the
    /// session has no order, and while any of its orders is still open; otherwise the
    /// session's revenue (Σ total of its orders) and order count are frozen on it.
    pub fn close_day(&mut self, now: u64) -> (r: Result<DaySession, PosError>)
        requires
            old(self).wf(),
        ensures
            final(self).wf(),
            match r {
                Err(e) => close_refusal(*old(self)) == Some(e) && *final(self) == *old(self),
                Ok(d) => {
                    let a = active_session(*old(self))->Some_0;
                    &&& close_refusal(*old(self)) is None
                    &&& d == closed(
                        a,
                        now,
                        orders_revenue(old(self).orders@, in_session(a.id)),
                        orders_count(old(self).orders@, in_session(a.id)),
                    )
                    &&& final(self).sessions@ == old(self).sessions@.update(
                        active_pos(*old(self)),
                        d,
                    )
                    &&& !final(self).day_active()
                    &&& final(self).next_session_id == old(self).next_session_id
                    &&& keeps_catalog(*old(self), *final(self))
                    &&& keeps_orders(*old(self), *final(self))
                },
            },
    {
        let k = match self.active_index() {
            Some(k) => k,
            None => {
                return Err(PosError::NoActiveSession);
            },
        };
        proof {
            lemma_active_pos(*self, k as int);
        }
        let a = self.sessions[k];
        let (count, open, revenue) = self.session_totals(a.id);
        if count == 0 {
            return Err(PosError::EmptySession);
        }
        if open > 0 {
            return Err(PosError::OpenOrdersRemain(open));
        }
        if revenue > i64::MAX as i128 {
            return Err(PosError::AmountOverflow);
        }
        let d = DaySession {
            is_active: false,
            closed_at: Some(now),
            total_revenue: Some(revenue as i64),
            total_orders: Some(count),
            ..a
        };
        let ghost prev = self.sessions@;
        self.sessions.set(k, d);
        proof {
            let ss = self.sessions@;
            assert forall|i: int| 0 <= i < ss.len() implies 1 <= #[trigger] ss[i].id
                < self.next_session_id by {
                assert(ss[i].id == prev[i].id);
            }
            assert forall|i: int, j: int|
                0 <= i < ss.len() && 0 <= j < ss.len() && #[trigger] ss[i].id == #[trigger] ss[j].id
                    implies i == j by {
                assert(ss[i].id == prev[i].id);
                assert(ss[j].id == prev[j].id);
            }
            assert forall|i: int, j: int|
                0 <= i < ss.len() && 0 <= j < ss.len() && #[trigger] ss[i].is_active
                    && #[trigger] ss[j].is_active implies i == j by {
                assert(ss[i] == prev[i]);
                assert(ss[j] == prev[j]);
            }
            assert forall|i: int| 0 <= i < ss.len() implies !#[trigger] ss[i].is_active by {
                if i != k {
                    assert(ss[i] == prev[i]);
                    assert(prev[k as int].is_active);
                }
            }
        }
        Ok(d)
    }

    /// Everything recorded about session `session_id`: its frozen totals and each of its
    /// orders, earliest `created_at` first, with their items.
    pub fn session_snapshot(&self, session_id: i64) -> (r: Option<SessionSnapshot>)
        requires
            self.wf(),
        ensures
            match r {
                None => forall|k: int|
                    0 <= k < self.sessions@.len() ==> #[trigger] self.sessions@[k].id
                        != session_id,
                Some(snap) => {
                    &&& exists|k: int|
                        0 <= k < self.sessions@.len() && #[trigger] self.sessions@[k].id
                            == session_id && snap.date == self.sessions@[k].date
                            && snap.session_started_at == self.sessions@[k].started_at
                            && snap.closed_at == self.sessions@[k].closed_at
                            && snap.total_revenue == self.sessions@[k].total_revenue
                            && snap.total_orders == self.sessions@[k].total_orders
                    &&& snap.session_id == session_id
                    &&& listing_of(
                        snap.orders@,
                        self.orders@,
                        self.items@,
                        in_session(session_id),
                        ListingOrder::OldestFirst,
                    )
                },
            },
    {
        let k = match self.session_index(session_id) {
            Some(k) => k,
            None => {
                return None;
            },
        };
        let s = self.sessions[k];
        let orders = self.collect_listing(Some(session_id), 0, 0, ListingOrder::OldestFirst);
        proof {
            assert(self.sessions@[k as int].id == session_id);
        }
        Some(
            SessionSnapshot {
                session_id,
                date: s.date,
                session_started_at: s.started_at,
                closed_at: s.closed_at,
                total_revenue: s.total_revenue,
                total_orders: s.total_orders,
                orders,
            },
        )
    }

    /// Recovery for orders that were taken on day `date` without a session: records a
    /// session already closed at `now`, started at that day's midnight, whose frozen
    /// totals are those orders' revenue and count, and links the orders to it. Refused
    /// when a closed session already covers the day or no such order exists.
    pub fn create_day_closing_for_date(&mut self, date: u64, now: u64) -> (r: Result<
        DaySession,
        PosError,
    >)
        requires
            old(self).wf(),
        ensures
            final(self).wf(),
            match r {
                Err(e) => recovery_refusal(*old(self), date) == Some(e) && *final(self)
                    == *old(self),
                Ok(d) => {
                    &&& recovery_refusal(*old(self), date) is None
                    &&& d == DaySession {
                        id: old(self).next_session_id,
                        date: Some(date),
                        started_by: if old(self).staff@.len() > 0 {
                            old(self).staff@[0].id
                        } else {
                            1
                        },
                        started_at: (date * SECONDS_PER_DAY) as u64,
                        closed_at: Some(now),
                        is_active: false,
                        total_revenue: Some(
                            orders_revenue(old(self).orders@, unlinked_on(date)) as i64,
                        ),
                        total_orders: Some(orders_count(old(self).orders@, unlinked_on(date)) as u64),
                    }
                    &&& final(self).sessions@ == old(self).sessions@.push(d)
                    &&& final(self).next_session_id == old(self).next_session_id + 1
                    &&& final(self).orders@.len() == old(self).orders@.len()
                    &&& forall|i: int|
                        0 <= i < old(self).orders@.len() ==> #[trigger] final(self).orders@[i]
                            == if unlinked_on(date)(old(self).orders@[i]) {
                            linked(old(self).orders@[i], d.id)
                        } else {
                            old(self).orders@[i]
                        }
                    &&& final(self).items == old(self).items
                    &&& final(self).next_order_id == old(self).next_order_id
                    &&& final(self).next_item_id == old(self).next_item_id
                    &&& keeps_catalog(*old(self), *final(self))
                },
            },
    {
        let mut j: usize = 0;
        while j < self.sessions.len()
            invariant
                j <= self.sessions@.len(),
                *self == *old(self),
                self.wf(),
                forall|k: int|
                    0 <= k < j ==> (#[trigger] self.sessions@[k]).is_active
                        || self.sessions@[k].date != Some(date),
            decreases self.sessions@.len() - j,
        {
            if !self.sessions[j].is_active && self.sessions[j].date == Some(date) {
                proof {
                    assert(!self.sessions@[j as int].is_active);
                }
                return Err(PosError::ClosedSessionExists(date));
            }
            j = j + 1;
        }
        let ghost os = self.orders@;
        let ghost pick = unlinked_on(date);
        let cap: i128 = i64::MAX as i128 + 1;
        let mut count: u64 = 0;
        let mut revenue: i128 = 0;
        let mut seen: u64 = 0;
        let mut i: usize = 0;
        proof {
            assert(os.take(0) =~= Seq::<Order>::empty());
        }
        while i < self.orders.len()
            invariant
                os == self.orders@,
                pick == unlinked_on(date),
                *self == *old(self),
                self.wf(),
                i <= os.len(),
                cap == i64::MAX + 1,
                count == orders_count(os.take(i as int), pick),
                count <= i,
                count > 0 ==> day_of(seen) == date,
                0 <= revenue <= cap,
                revenue == if orders_revenue(os.take(i as int), pick) < cap {
                    orders_revenue(os.take(i as int), pick)
                } else {
                    cap as int
                },
            decreases os.len() - i,
        {
            proof {
                lemma_take_step(os, i as int);
            }
            let o = &self.orders[i];
            if o.session_id.is_none() && o.created_at / SECONDS_PER_DAY == date {
                count = count + 1;
                seen = o.created_at;
                assert(os[i as int].total >= 0);
                let sum = revenue + o.total as i128;
                revenue = if sum < cap {
                    sum
                } else {
                    cap
                };
            }
            i = i + 1;
        }
        proof {
            assert(os.take(i as int) =~= os);
        }
        if count == 0 {
            return Err(PosError::NoOrdersForDate(date));
        }
        if revenue > i64::MAX as i128 {
            return Err(PosError::AmountOverflow);
        }
        if self.next_session_id == i64::MAX {
            return Err(PosError::IdsExhausted);
        }
        proof {
            assert(date * SECONDS_PER_DAY <= seen) by (nonlinear_arith)
                requires
                    date == seen / 86400,
                    SECONDS_PER_DAY == 86400,
            ;
        }
        let started_by = if self.staff.len() > 0 {
            self.staff[0].id
        } else {
            1
        };
        let id = self.next_session_id;
        let d = DaySession {
            id,
            date: Some(date),
            started_by,
            started_at: date * SECONDS_PER_DAY,
            closed_at: Some(now),
            is_active: false,
            total_revenue: Some(revenue as i64),
            total_orders: Some(count),
        };
        let ghost before = *self;
        self.sessions.push(d);
        self.next_session_id = self.next_session_id + 1;
        let mut i: usize = 0;
        while i < self.orders.len()
            invariant
                i <= self.orders@.len(),
                self.orders@.len() == before.orders@.len(),
                pick == unlinked_on(date),
                forall|k: int|
                    0 <= k < self.orders@.len() ==> #[trigger] self.orders@[k] == if k < i
                        && pick(before.orders@[k]) {
                        linked(before.orders@[k], id)
                    } else {
                        before.orders@[k]
                    },
                self.items == before.items,
                self.products == before.products,
                self.sessions@ == before.sessions@.push(d),
                self.next_session_id == before.next_session_id + 1,
                self.categories == before.categories,
                self.staff == before.staff,
                self.next_category_id == before.next_category_id,
                self.next_product_id == before.next_product_id,
                self.next_staff_id == before.next_staff_id,
                self.next_order_id == before.next_order_id,
                self.next_item_id == before.next_item_id,
            decreases self.orders@.len() - i,
        {
            if self.orders[i].session_id.is_none() && self.orders[i].created_at / SECONDS_PER_DAY
                == date {
                let mut o = self.orders[i].clone();
                o.session_id = Some(id);
                self.orders.set(i, o);
            }
            i = i + 1;
        }
        proof {
            let ss = self.sessions@;
            let prev = before.sessions@;
            assert forall|a: int| 0 <= a < ss.len() implies 1 <= #[trigger] ss[a].id
                < self.next_session_id by {
                if a < prev.len() {
                    assert(ss[a] == prev[a]);
                }
            }
            assert forall|a: int, b: int|
                0 <= a < ss.len() && 0 <= b < ss.len() && #[trigger] ss[a].id == #[trigger] ss[b].id
                    implies a == b by {
                if a < prev.len() {
                    assert(ss[a] == prev[a]);
                }
                if b < prev.len() {
                    assert(ss[b] == prev[b]);
                }
            }
            assert forall|a: int, b: int|
                0 <= a < ss.len() && 0 <= b < ss.len() && #[trigger] ss[a].is_active
                    && #[trigger] ss[b].is_active implies a == b by {
                if a < prev.len() {
                    assert(ss[a] == prev[a]);
                }
                if b < prev.len() {
                    assert(ss[b] == prev[b]);
                }
            }
            let os2 = self.orders@;
            let po = before.orders@;
            assert forall|a: int| 0 <= a < os2.len() implies {
                &&& 1 <= (#[trigger] os2[a]).id < self.next_order_id
                &&& os2[a].total >= 0
                &&& os2[a].status == OrderStatus::Open ==> os2[a].total == crate::store::item_sum(
                    self.items@,
                    os2[a].id,
                )
            } by {
                assert(os2[a].total == po[a].total && os2[a].id == po[a].id);
            }
            assert forall|a: int, b: int|
                0 <= a < os2.len() && 0 <= b < os2.len() && #[trigger] os2[a].id
                    == #[trigger] os2[b].id implies a == b by {
                assert(os2[a].id == po[a].id);
                assert(os2[b].id == po[b].id);
            }
        }
        Ok(d)
    }

    /// The orders of a session, latest `created_at` first, with their revenue and count:
    /// of session `session_id` when one is named, else of the active session, dated
    /// `today`; with no active session the summary is empty.
    pub fn get_day_summary(&self, session_id: Option<i64>, today: u64) -> (r: Result<
        DaySummary,
        PosError,
    >)
        requires
            self.wf(),
        ensures
            ({
                let sid = match session_id {
                    Some(s) => Some(s),
                    None => match active_session(*self) {
                        Some(a) => Some(a.id),
                        None => None,
                    },
                };
                match sid {
                    None => r matches Ok(d) && d.date == Some(today) && d.total_revenue == 0
                        && d.total_orders == 0 && d.orders@.len() == 0,
                    Some(s) => {
                        let rev = orders_revenue(self.orders@, in_session(s));
                        match r {
                            Err(e) => e == PosError::AmountOverflow && rev > i64::MAX,
                            Ok(d) => {
                                &&& rev <= i64::MAX
                                &&& d.total_revenue == rev
                                &&& d.total_orders == orders_count(self.orders@, in_session(s))
                                &&& listing_of(
                                    d.orders@,
                                    self.orders@,
                                    self.items@,
                                    in_session(s),
                                    ListingOrder::NewestFirst,
                                )
                                &&& session_id is None ==> d.date == Some(today)
                                &&& session_id is Some ==> session_date(self.sessions@, s, d.date)
                            },
                        }
                    },
                }
            }),
    {
        let sid = match session_id {
            Some(s) => s,
            None => match self.get_active_session() {
                Some(a) => a.id,
                None => {
                    return Ok(
                        DaySummary {
                            date: Some(today),
                            total_revenue: 0,
                            total_orders: 0,
                            orders: Vec::new(),
                        },
                    );
                },
            },
        };
        let (count, _open, revenue) = self.session_totals(sid);
        if revenue > i64::MAX as i128 {
            return Err(PosError::AmountOverflow);
        }
        let date = match session_id {
            None => Some(today),
            Some(_) => match self.session_index(sid) {
                Some(k) => {
                    proof {
                        assert(self.sessions@[k as int].id == sid);
                    }
                    self.sessions[k].date
                },
                None => None,
            },
        };
        let orders = self.collect_listing(Some(sid), 0, 0, ListingOrder::NewestFirst);
        Ok(DaySummary { date, total_revenue: revenue as i64, total_orders: count, orders })
    }

    /// The open orders with their items, by table number (orders of one table in the
    /// order they were taken).
    pub fn get_open_orders(&self) -> (r: Vec<OrderWithItems>)
        ensures
            by_table(r@),
            orders_of(r@).to_multiset() == orders_where(self.orders@, is_open()).to_multiset(),
            forall|j: int|
                0 <= j < r@.len() ==> (#[trigger] r@[j]).items@ == items_of(
                    self.items@,
                    r@[j].order.id,
                ),
    {
        let ghost os = self.orders@;
        let ghost pick = is_open();
        let mut r: Vec<OrderWithItems> = Vec::new();
        let mut i: usize = 0;
        proof {
            assert(os.take(0) =~= Seq::<Order>::empty());
            assert(orders_of(r@) =~= Seq::<Order>::empty());
        }
        while i < self.orders.len()
            invariant
                os == self.orders@,
                pick == is_open(),
                i <= os.len(),
                by_table(r@),
                orders_of(r@).to_multiset() == orders_where(os.take(i as int), pick).to_multiset(),
                forall|j: int|
                    0 <= j < r@.len() ==> (#[trigger] r@[j]).items@ == items_of(
                        self.items@,
                        r@[j].order.id,
                    ),
            decreases os.len() - i,
        {
            proof {
                lemma_take_step(os, i as int);
            }
            if self.orders[i].status == OrderStatus::Open {
                let t = self.orders[i].table_number;
                let mut p: usize = 0;
                while p < r.len() && r[p].order.table_number <= t
                    invariant
                        p <= r@.len(),
                        forall|j: int| 0 <= j < p ==> (#[trigger] r@[j]).order.table_number <= t,
                    decreases r@.len() - p,
                {
                    p = p + 1;
                }
                let o = self.orders[i].clone();
                let its = self.order_items(o.id);
                let w = OrderWithItems { order: o, items: its };
                let ghost prev = r@;
                proof {
                    assert(forall|j: int| p <= j < prev.len() ==> (#[trigger] prev[j]).order.table_number > t) by {
                        assert forall|j: int| p <= j < prev.len() implies (#[trigger] prev[j]).order.table_number > t by {
                            if p < prev.len() {
                                assert(prev[p as int].order.table_number > t);
                                if j > p {
                                    assert(prev[p as int].order.table_number <= prev[j].order.table_number);
                                }
                            }
                        }
                    }
                }
                r.insert(p, w);
                proof {
                    let cur = r@;
                    assert(cur == prev.insert(p as int, w));
                    assert forall|a: int, b: int| 0 <= a < b < cur.len() implies (#[trigger] cur[a]).order.table_number <= (#[trigger] cur[b]).order.table_number by {
                        let a2 = if a < p { a } else { a - 1 };
                        let b2 = if b < p { b } else { b - 1 };
                        if a < p && b < p {
                            assert(cur[a] == prev[a]);
                            assert(cur[b] == prev[b]);
                        } else if a < p && b == p {
                            assert(cur[a] == prev[a]);
                        } else if a < p {
                            assert(cur[a] == prev[a]);
                            assert(cur[b] == prev[b - 1]);
                        } else if a == p {
                            assert(cur[b] == prev[b - 1]);
                        } else {
                            assert(cur[a] == prev[a - 1]);
                            assert(cur[b] == prev[b - 1]);
                        }
                    }
                    assert forall|j: int| 0 <= j < cur.len() implies (#[trigger] cur[j]).items@ == items_of(
                        self.items@,
                        cur[j].order.id,
                    ) by {
                        if j < p {
                            assert(cur[j] == prev[j]);
                        } else if j > p {
                            assert(cur[j] == prev[j - 1]);
                        }
                    }
                    assert(orders_of(cur) =~= orders_of(prev).insert(p as int, w.order));
                    to_multiset_insert(orders_of(prev), p as int, w.order);
                    to_multiset_build(orders_where(os.take(i as int), pick), os[i as int]);
                }
            }
            i = i + 1;
        }
        proof {
            assert(os.take(i as int) =~= os);
        }
        r
    }

    /// The orders taken from day `first` to day `last` (both included) with their
    /// items, latest `created_at` first.
    pub fn get_orders_by_date_range(&self, first: u64, last: u64) -> (r: Vec<OrderWithItems>)
        ensures
            listing_of(r@, self.orders@, self.items@, taken_between(first, last), ListingOrder::NewestFirst),
    {
        self.collect_listing(None, first, last, ListingOrder::NewestFirst)
    }

    /// The orders taken on day `today` with their items: paid orders ahead of open ones,
    /// each group latest `created_at` first.
    pub fn get_today_orders(&self, today: u64) -> (r: Vec<OrderWithItems>)
        ensures
            listing_of(r@, self.orders@, self.items@, taken_between(today, today), ListingOrder::PaidThenNewest),
    {
        self.collect_listing(None, today, today, ListingOrder::PaidThenNewest)
    }

    /// The closed sessions, latest closing first, at most `limit` of them (30 when no
    /// limit is given).
    pub fn get_sales_history(&self, limit: Option<i32>) -> (r: Vec<DaySession>)
        ensures
            exists|all: Seq<DaySession>|
                {
                    &&& by_closing(all)
                    &&& all.to_multiset() == closed_sessions(self.sessions@).to_multiset()
                    &&& r@ == all.subrange(
                        0,
                        history_len(
                            match limit {
                                Some(n) => n as int,
                                None => 30,
                            },
                            all.len() as int,
                        ),
                    )
                },
    {
        let ghost ss = self.sessions@;
        let mut all: Vec<DaySession> = Vec::new();
        let mut i: usize = 0;
        proof {
            assert(ss.take(0) =~= Seq::<DaySession>::empty());
        }
        while i < self.sessions.len()
            invariant
                ss == self.sessions@,
                i <= ss.len(),
                by_closing(all@),
                all@.to_multiset() == closed_sessions(ss.take(i as int)).to_multiset(),
            decreases ss.len() - i,
        {
            proof {
                lemma_take_step(ss, i as int);
            }
            let d = self.sessions[i];
            if !d.is_active && d.closed_at.is_some() {
                let key = closing_key_of(&d);
                let mut p: usize = 0;
                while p < all.len() && closing_key_of(&all[p]) >= key
                    invariant
                        p <= all@.len(),
                        key == closing_key(d),
                        forall|j: int| 0 <= j < p ==> closing_key(#[trigger] all@[j]) >= key,
                    decreases all@.len() - p,
                {
                    p = p + 1;
                }
                let ghost prev = all@;
                proof {
                    assert forall|j: int| p <= j < prev.len() implies closing_key(#[trigger] prev[j]) < key by {
                        assert(closing_key(prev[p as int]) < key);
                        if j > p {
                            assert(closing_key(prev[p as int]) >= closing_key(prev[j]));
                        }
                    }
                }
                all.insert(p, d);
                proof {
                    let cur = all@;
                    assert forall|a: int, b: int| 0 <= a < b < cur.len() implies closing_key(#[trigger] cur[a]) >= closing_key(#[trigger] cur[b]) by {
                        if a < p && b < p {
                            assert(cur[a] == prev[a]);
                            assert(cur[b] == prev[b]);
                        } else if a < p && b == p {
                            assert(cur[a] == prev[a]);
                        } else if a < p {
                            assert(cur[a] == prev[a]);
                            assert(cur[b] == prev[b - 1]);
                        } else if a == p {
                            assert(cur[b] == prev[b - 1]);
                        } else {
                            assert(cur[a] == prev[a - 1]);
                            assert(cur[b] == prev[b - 1]);
                        }
                    }
                    to_multiset_insert(prev, p as int, d);
                    to_multiset_build(closed_sessions(ss.take(i as int)), d);
                }
            }
            i = i + 1;
        }
        proof {
            assert(ss.take(i as int) =~= ss);
        }
        let ghost sorted = all@;
        let n: usize = match limit {
            Some(n) => if n <= 0 {
                0
            } else {
                n as usize
            },
            None => 30,
        };
        all.truncate(n);
        proof {
            let m = history_len(
                match limit {
                    Some(n) => n as int,
                    None => 30,
                },
                sorted.len() as int,
            );
            assert(all@ =~= sorted.subrange(0, m));
        }
        all
    }

    /// The orders of session `sid` when one is given, else those taken from day `first`
    /// to day `last`, with their items, ordered by `listing_key`.
    fn collect_listing(&self, sid: Option<i64>, first: u64, last: u64, mode: ListingOrder) -> (r: Vec<
        OrderWithItems,
    >)
        ensures
            listing_of(
                r@,
                self.orders@,
                self.items@,
                match sid {
                    Some(id) => in_session(id),
                    None => taken_between(first, last),
                },
                mode,
            ),
    {
        let ghost os = self.orders@;
        let ghost pick = match sid {
            Some(id) => in_session(id),
            None => taken_between(first, last),
        };
        let mut r: Vec<OrderWithItems> = Vec::new();
        let mut i: usize = 0;
        proof {
            assert(os.take(0) =~= Seq::<Order>::empty());
            assert(orders_of(r@) =~= Seq::<Order>::empty());
        }
        while i < self.orders.len()
            invariant
                os == self.orders@,
                pick == match sid {
                    Some(id) => in_session(id),
                    None => taken_between(first, last),
                },
                i <= os.len(),
                listing_of(r@, os.take(i as int), self.items@, pick, mode),
            decreases os.len() - i,
        {
            proof {
                lemma_take_step(os, i as int);
            }
            let wanted = match sid {
                Some(id) => self.orders[i].session_id == Some(id),
                None => {
                    let day = self.orders[i].created_at / SECONDS_PER_DAY;
                    first <= day && day <= last
                },
            };
            if wanted {
                let key = order_key(&self.orders[i], mode);
                let mut p: usize = 0;
                while p < r.len() && order_key(&r[p].order, mode) >= key
                    invariant
                        p <= r@.len(),
                        key == listing_key(os[i as int], mode),
                        forall|j: int| 0 <= j < p ==> listing_key((#[trigger] r@[j]).order, mode) >= key,
                    decreases r@.len() - p,
                {
                    p = p + 1;
                }
                let o = self.orders[i].clone();
                let its = self.order_items(o.id);
                let w = OrderWithItems { order: o, items: its };
                let ghost prev = r@;
                proof {
                    assert forall|j: int| p <= j < prev.len() implies listing_key((#[trigger] prev[j]).order, mode) < key by {
                        assert(listing_key(prev[p as int].order, mode) < key);
                        if j > p {
                            assert(listing_key(prev[p as int].order, mode) >= listing_key(prev[j].order, mode));
                        }
                    }
                }
                r.insert(p, w);
                proof {
                    let cur = r@;
                    assert(cur == prev.insert(p as int, w));
                    assert forall|a: int, b: int| 0 <= a < b < cur.len() implies listing_key((#[trigger] cur[a]).order, mode) >= listing_key((#[trigger] cur[b]).order, mode) by {
                        if a < p && b < p {
                            assert(cur[a] == prev[a]);
                            assert(cur[b] == prev[b]);
                        } else if a < p && b == p {
                            assert(cur[a] == prev[a]);
                        } else if a < p {
                            assert(cur[a] == prev[a]);
                            assert(cur[b] == prev[b - 1]);
                        } else if a == p {
                            assert(cur[b] == prev[b - 1]);
                        } else {
                            assert(cur[a] == prev[a - 1]);
                            assert(cur[b] == prev[b - 1]);
                        }
                    }
                    assert forall|j: int| 0 <= j < cur.len() implies (#[trigger] cur[j]).items@ == items_of(
                        self.items@,
                        cur[j].order.id,
                    ) by {
                        if j < p {
                            assert(cur[j] == prev[j]);
                        } else if j > p {
                            assert(cur[j] == prev[j - 1]);
                        }
                    }
                    assert(orders_of(cur) =~= orders_of(prev).insert(p as int, w.order));
                    to_multiset_insert(orders_of(prev), p as int, w.order);
                    to_multiset_build(orders_where(os.take(i as int), pick), os[i as int]);
                }
            }
            i = i + 1;
        }
        proof {
            assert(os.take(i as int) =~= os);
        }
        r
    }
}

} // verus!
