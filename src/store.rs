//! The till's whole state and the invariant that every operation keeps.
use vstd::prelude::*;

use crate::model::{Category, DaySession, Order, OrderItem, OrderStatus, Product, Staff};

verus! {

/// All records of the till. Each table hands out identifiers from its own counter,
/// starting at 1, as an autoincrement key would.
pub struct Store {
    pub categories: Vec<Category>,
    pub products: Vec<Product>,
    pub staff: Vec<Staff>,
    pub orders: Vec<Order>,
    pub items: Vec<OrderItem>,
    pub sessions: Vec<DaySession>,
    pub next_category_id: i64,
    pub next_product_id: i64,
    pub next_staff_id: i64,
    pub next_order_id: i64,
    pub next_item_id: i64,
    pub next_session_id: i64,
}

/// What one item adds to the total of order `order_id`.
pub open spec fn item_amount(it: OrderItem, order_id: i64) -> int {
    if it.order_id == order_id {
        it.quantity * it.price_at_sale
    } else {
        0
    }
}

/// Σ quantity × price at sale over the items of order `order_id`.
pub open spec fn item_sum(items: Seq<OrderItem>, order_id: i64) -> int
    decreases items.len(),
{
    if items.len() == 0 {
        0
    } else {
        item_sum(items.drop_last(), order_id) + item_amount(items.last(), order_id)
    }
}

/// The items of order `order_id`, in the order they were recorded.
pub open spec fn items_of(items: Seq<OrderItem>, order_id: i64) -> Seq<OrderItem>
    decreases items.len(),
{
    if items.len() == 0 {
        Seq::empty()
    } else if items.last().order_id == order_id {
        items_of(items.drop_last(), order_id).push(items.last())
    } else {
        items_of(items.drop_last(), order_id)
    }
}

pub open spec fn has_items(items: Seq<OrderItem>, order_id: i64) -> bool {
    exists|k: int| 0 <= k < items.len() && #[trigger] items[k].order_id == order_id
}

/// Stock never drops below zero and prices are never negative; product ids are fresh
/// and distinct.
pub open spec fn products_wf(ps: Seq<Product>, next_id: i64) -> bool {
    &&& forall|i: int|
        0 <= i < ps.len() ==> {
            &&& (#[trigger] ps[i]).quantity >= 0
            &&& ps[i].price >= 0
            &&& 1 <= ps[i].id < next_id
        }
    &&& forall|i: int, j: int|
        0 <= i < ps.len() && 0 <= j < ps.len() && #[trigger] ps[i].id == #[trigger] ps[j].id
            ==> i == j
}

/// Each item has a positive quantity, a non-negative price, a fresh distinct id and
/// refers to an order id that has been handed out.
pub open spec fn items_wf(items: Seq<OrderItem>, next_id: i64, next_order_id: i64) -> bool {
    &&& forall|k: int|
        0 <= k < items.len() ==> {
            &&& (#[trigger] items[k]).quantity >= 1
            &&& items[k].price_at_sale >= 0
            &&& 1 <= items[k].id < next_id
            &&& 1 <= items[k].order_id < next_order_id
        }
    &&& forall|i: int, j: int|
        0 <= i < items.len() && 0 <= j < items.len() && #[trigger] items[i].id
            == #[trigger] items[j].id ==> i == j
}

/// Order ids are fresh and distinct, totals are never negative, and the total of every
/// open order is the sum of its items.
pub open spec fn orders_wf(orders: Seq<Order>, items: Seq<OrderItem>, next_id: i64) -> bool {
    &&& forall|i: int|
        0 <= i < orders.len() ==> {
            &&& 1 <= (#[trigger] orders[i]).id < next_id
            &&& orders[i].total >= 0
            &&& orders[i].status == OrderStatus::Open ==> orders[i].total == item_sum(
                items,
                orders[i].id,
            )
        }
    &&& forall|i: int, j: int|
        0 <= i < orders.len() && 0 <= j < orders.len() && #[trigger] orders[i].id
            == #[trigger] orders[j].id ==> i == j
}

/// At most one session is active; session ids are fresh and distinct.
pub open spec fn sessions_wf(ss: Seq<DaySession>, next_id: i64) -> bool {
    &&& forall|i: int| 0 <= i < ss.len() ==> 1 <= #[trigger] ss[i].id < next_id
    &&& forall|i: int, j: int|
        0 <= i < ss.len() && 0 <= j < ss.len() && #[trigger] ss[i].id == #[trigger] ss[j].id
            ==> i == j
    &&& forall|i: int, j: int|
        0 <= i < ss.len() && 0 <= j < ss.len() && #[trigger] ss[i].is_active
            && #[trigger] ss[j].is_active ==> i == j
}

pub open spec fn ids_wf<T>(s: Seq<T>, id: spec_fn(T) -> i64, next_id: i64) -> bool {
    &&& forall|i: int| 0 <= i < s.len() ==> 1 <= #[trigger] id(s[i]) < next_id
    &&& forall|i: int, j: int|
        0 <= i < s.len() && 0 <= j < s.len() && #[trigger] id(s[i]) == #[trigger] id(s[j])
            ==> i == j
}

/// The identifier of a category.
pub open spec fn category_key() -> spec_fn(Category) -> i64 {
    |c: Category| c.id
}

/// The identifier of a staff member.
pub open spec fn staff_key() -> spec_fn(Staff) -> i64 {
    |s: Staff| s.id
}

/// The identifier of a product.
pub open spec fn product_key() -> spec_fn(Product) -> i64 {
    |p: Product| p.id
}

/// Categories and staff, with their counters, are the same in `a` and `b`.
pub open spec fn keeps_people(a: Store, b: Store) -> bool {
    &&& b.categories == a.categories
    &&& b.staff == a.staff
    &&& b.next_category_id == a.next_category_id
    &&& b.next_staff_id == a.next_staff_id
}

/// The whole catalogue (categories, products, staff and their counters) is the same.
pub open spec fn keeps_catalog(a: Store, b: Store) -> bool {
    &&& keeps_people(a, b)
    &&& b.products == a.products
    &&& b.next_product_id == a.next_product_id
}

/// Orders and items, with their counters, are the same.
pub open spec fn keeps_orders(a: Store, b: Store) -> bool {
    &&& b.orders == a.orders
    &&& b.items == a.items
    &&& b.next_order_id == a.next_order_id
    &&& b.next_item_id == a.next_item_id
}

/// Sessions, with their counter, are the same.
pub open spec fn keeps_sessions(a: Store, b: Store) -> bool {
    &&& b.sessions == a.sessions
    &&& b.next_session_id == a.next_session_id
}

impl Store {
    /// The invariant of the till.
    pub open spec fn wf(&self) -> bool {
        &&& products_wf(self.products@, self.next_product_id)
        &&& items_wf(self.items@, self.next_item_id, self.next_order_id)
        &&& orders_wf(self.orders@, self.items@, self.next_order_id)
        &&& sessions_wf(self.sessions@, self.next_session_id)
        &&& ids_wf(self.categories@, category_key(), self.next_category_id)
        &&& ids_wf(self.staff@, staff_key(), self.next_staff_id)
        &&& self.next_category_id >= 1
        &&& self.next_product_id >= 1
        &&& self.next_staff_id >= 1
        &&& self.next_order_id >= 1
        &&& self.next_item_id >= 1
        &&& self.next_session_id >= 1
    }

    /// Is some session active?
    pub open spec fn day_active(&self) -> bool {
        exists|k: int| 0 <= k < self.sessions@.len() && #[trigger] self.sessions@[k].is_active
    }

    /// An empty till.
    pub fn new() -> (r: Store)
        ensures
            r.wf(),
            r.categories@.len() == 0,
            r.products@.len() == 0,
            r.staff@.len() == 0,
            r.orders@.len() == 0,
            r.items@.len() == 0,
            r.sessions@.len() == 0,
            r.next_category_id == 1,
            r.next_product_id == 1,
            r.next_staff_id == 1,
            r.next_order_id == 1,
            r.next_item_id == 1,
            r.next_session_id == 1,
    {
        Store {
            categories: Vec::new(),
            products: Vec::new(),
            staff: Vec::new(),
            orders: Vec::new(),
            items: Vec::new(),
            sessions: Vec::new(),
            next_category_id: 1,
            next_product_id: 1,
            next_staff_id: 1,
            next_order_id: 1,
            next_item_id: 1,
            next_session_id: 1,
        }
    }

    /// Position of the product with id `id`.
    pub fn product_index(&self, id: i64) -> (r: Option<usize>)
        ensures
            match r {
                Some(k) => k < self.products@.len() && self.products@[k as int].id == id,
                None => forall|k: int|
                    0 <= k < self.products@.len() ==> #[trigger] self.products@[k].id != id,
            },
    {
        let mut i: usize = 0;
        while i < self.products.len()
            invariant
                i <= self.products@.len(),
                forall|k: int| 0 <= k < i ==> #[trigger] self.products@[k].id != id,
            decreases self.products@.len() - i,
        {
            if self.products[i].id == id {
                return Some(i);
            }
            i = i + 1;
        }
        None
    }

    /// Position of the order with id `id`.
    pub fn order_index(&self, id: i64) -> (r: Option<usize>)
        ensures
            match r {
                Some(k) => k < self.orders@.len() && self.orders@[k as int].id == id,
                None => forall|k: int|
                    0 <= k < self.orders@.len() ==> #[trigger] self.orders@[k].id != id,
            },
    {
        let mut i: usize = 0;
        while i < self.orders.len()
            invariant
                i <= self.orders@.len(),
                forall|k: int| 0 <= k < i ==> #[trigger] self.orders@[k].id != id,
            decreases self.orders@.len() - i,
        {
            if self.orders[i].id == id {
                return Some(i);
            }
            i = i + 1;
        }
        None
    }

    /// Position of the order item with id `id`.
    pub fn item_index(&self, id: i64) -> (r: Option<usize>)
        ensures
            match r {
                Some(k) => k < self.items@.len() && self.items@[k as int].id == id,
                None => forall|k: int|
                    0 <= k < self.items@.len() ==> #[trigger] self.items@[k].id != id,
            },
    {
        let mut i: usize = 0;
        while i < self.items.len()
            invariant
                i <= self.items@.len(),
                forall|k: int| 0 <= k < i ==> #[trigger] self.items@[k].id != id,
            decreases self.items@.len() - i,
        {
            if self.items[i].id == id {
                return Some(i);
            }
            i = i + 1;
        }
        None
    }

    /// Position of the active session, if one is active.
    pub fn active_index(&self) -> (r: Option<usize>)
        ensures
            match r {
                Some(k) => k < self.sessions@.len() && self.sessions@[k as int].is_active,
                None => !self.day_active(),
            },
    {
        let mut i: usize = 0;
        while i < self.sessions.len()
            invariant
                i <= self.sessions@.len(),
                forall|k: int| 0 <= k < i ==> !#[trigger] self.sessions@[k].is_active,
            decreases self.sessions@.len() - i,
        {
            if self.sessions[i].is_active {
                return Some(i);
            }
            i = i + 1;
        }
        None
    }

    /// The items of order `order_id`, in the order they were recorded.
    pub fn order_items(&self, order_id: i64) -> (r: Vec<OrderItem>)
        ensures
            r@ == items_of(self.items@, order_id),
    {
        let mut r: Vec<OrderItem> = Vec::new();
        let mut i: usize = 0;
        while i < self.items.len()
            invariant
                i <= self.items@.len(),
                r@ == items_of(self.items@.take(i as int), order_id),
            decreases self.items@.len() - i,
        {
            proof {
                assert(self.items@.take(i + 1).drop_last() =~= self.items@.take(i as int));
            }
            if self.items[i].order_id == order_id {
                r.push(self.items[i]);
            }
            i = i + 1;
        }
        proof {
            assert(self.items@.take(i as int) =~= self.items@);
        }
        r
    }

    /// Does order `order_id` still have an item?
    pub fn order_has_items(&self, order_id: i64) -> (r: bool)
        ensures
            r == has_items(self.items@, order_id),
    {
        let mut i: usize = 0;
        while i < self.items.len()
            invariant
                i <= self.items@.len(),
                forall|k: int| 0 <= k < i ==> #[trigger] self.items@[k].order_id != order_id,
            decreases self.items@.len() - i,
        {
            if self.items[i].order_id == order_id {
                return true;
            }
            i = i + 1;
        }
        false
    }
}

/// Appending an item adds its amount to the sum of its order.
pub proof fn lemma_item_sum_push(items: Seq<OrderItem>, it: OrderItem, order_id: i64)
    ensures
        item_sum(items.push(it), order_id) == item_sum(items, order_id) + item_amount(
            it,
            order_id,
        ),
{
    assert(items.push(it).drop_last() =~= items);
}

/// An order with no item has a sum of zero.
pub proof fn lemma_item_sum_absent(items: Seq<OrderItem>, order_id: i64)
    requires
        !has_items(items, order_id),
    ensures
        item_sum(items, order_id) == 0,
    decreases items.len(),
{
    if items.len() > 0 {
        assert(items.last() == items[items.len() - 1]);
        let d = items.drop_last();
        assert forall|k: int| 0 <= k < d.len() implies #[trigger] d[k].order_id != order_id by {
            assert(d[k] == items[k]);
        }
        lemma_item_sum_absent(d, order_id);
    }
}

/// Sums of items with non-negative amounts are non-negative.
pub proof fn lemma_item_sum_nonneg(items: Seq<OrderItem>, order_id: i64)
    requires
        forall|k: int|
            0 <= k < items.len() ==> #[trigger] items[k].quantity >= 1 && items[k].price_at_sale
                >= 0,
    ensures
        item_sum(items, order_id) >= 0,
    decreases items.len(),
{
    if items.len() > 0 {
        let d = items.drop_last();
        assert forall|k: int| 0 <= k < d.len() implies #[trigger] d[k].quantity >= 1
            && d[k].price_at_sale >= 0 by {
            assert(d[k] == items[k]);
        }
        lemma_item_sum_nonneg(d, order_id);
        let l = items.last();
        assert(items.last() == items[items.len() - 1]);
        assert(l.quantity * l.price_at_sale >= 0) by (nonlinear_arith)
            requires
                l.quantity >= 1,
                l.price_at_sale >= 0,
        ;
    }
}

/// Replacing one item changes the sum of an order by the difference of the amounts.
pub proof fn lemma_item_sum_update(items: Seq<OrderItem>, j: int, it: OrderItem, order_id: i64)
    requires
        0 <= j < items.len(),
    ensures
        item_sum(items.update(j, it), order_id) == item_sum(items, order_id) + item_amount(
            it,
            order_id,
        ) - item_amount(items[j], order_id),
    decreases items.len(),
{
    let u = items.update(j, it);
    if j == items.len() - 1 {
        assert(u.drop_last() =~= items.drop_last());
    } else {
        assert(u.drop_last() =~= items.drop_last().update(j, it));
        lemma_item_sum_update(items.drop_last(), j, it, order_id);
    }
}

/// Removing one item takes its amount off the sum of its order.
pub proof fn lemma_item_sum_remove(items: Seq<OrderItem>, j: int, order_id: i64)
    requires
        0 <= j < items.len(),
    ensures
        item_sum(items.remove(j), order_id) == item_sum(items, order_id) - item_amount(
            items[j],
            order_id,
        ),
    decreases items.len(),
{
    let r = items.remove(j);
    if j == items.len() - 1 {
        assert(r =~= items.drop_last());
    } else {
        assert(r.drop_last() =~= items.drop_last().remove(j));
        assert(r.last() == items.last());
        lemma_item_sum_remove(items.drop_last(), j, order_id);
    }
}

} // verus!
