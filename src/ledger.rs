//! Orders and their items: taking orders, adding to them, settling them and changing
//! one item at a time. Stock moves only through the inventory adjustments.
use vstd::prelude::*;

use crate::inventory::{stock_shifted, with_quantity};
use crate::model::{
    CreateOrder, CreateOrderItem, Order, OrderItem, OrderStatus, OrderWithItems,
    PosError, Product,
};
use crate::store::{
    has_items, item_amount, item_sum, items_of, items_wf, lemma_item_sum_absent,
    lemma_item_sum_nonneg, lemma_item_sum_push, lemma_item_sum_remove, lemma_item_sum_update,
    keeps_catalog, keeps_orders, keeps_people, keeps_sessions, orders_wf, products_wf, Store,
};

verus! {

/// Units of product `pid` that `lines` ask for.
pub open spec fn requested(lines: Seq<CreateOrderItem>, pid: i64) -> int
    decreases lines.len(),
{
    if lines.len() == 0 {
        0
    } else {
        requested(lines.drop_last(), pid) + if lines.last().product_id == pid {
            lines.last().quantity as int
        } else {
            0
        }
    }
}

/// The product with id `pid`, if one is recorded.
pub open spec fn find_product(ps: Seq<Product>, pid: i64) -> Option<Product> {
    if exists|k: int| 0 <= k < ps.len() && #[trigger] ps[k].id == pid {
        Some(ps[choose|k: int| 0 <= k < ps.len() && #[trigger] ps[k].id == pid])
    } else {
        None
    }
}

/// The unit price of product `pid`, or zero when it is not recorded.
pub open spec fn price_of(ps: Seq<Product>, pid: i64) -> int {
    match find_product(ps, pid) {
        Some(p) => p.price as int,
        None => 0,
    }
}

/// Σ unit price × quantity over `lines`, at the products' current prices.
pub open spec fn lines_total(ps: Seq<Product>, lines: Seq<CreateOrderItem>) -> int
    decreases lines.len(),
{
    if lines.len() == 0 {
        0
    } else {
        lines_total(ps, lines.drop_last()) + price_of(ps, lines.last().product_id)
            * lines.last().quantity
    }
}

/// Why line `i` of a request is refused, given the stock that the lines before it
/// have already claimed.
pub open spec fn line_error(ps: Seq<Product>, lines: Seq<CreateOrderItem>, i: int) -> Option<
    PosError,
> {
    let l = lines[i];
    match find_product(ps, l.product_id) {
        None => Some(PosError::ProductNotFound(l.product_id)),
        Some(p) => if l.quantity < 1 {
            Some(PosError::InvalidQuantity { product_id: l.product_id, quantity: l.quantity as i64 })
        } else if p.quantity - requested(lines.take(i), l.product_id) < l.quantity {
            Some(
                PosError::InsufficientStock {
                    product_id: l.product_id,
                    requested: l.quantity as i64,
                    available: (p.quantity - requested(lines.take(i), l.product_id)) as i64,
                },
            )
        } else {
            None
        },
    }
}

/// The refusal of the first refused line from position `i` on.
pub open spec fn first_line_error(ps: Seq<Product>, lines: Seq<CreateOrderItem>, i: int) -> Option<
    PosError,
>
    decreases lines.len() - i,
{
    if i < 0 || i >= lines.len() {
        None
    } else {
        match line_error(ps, lines, i) {
            Some(e) => Some(e),
            None => first_line_error(ps, lines, i + 1),
        }
    }
}

/// The refusal of a whole request, or its total in cents.
pub open spec fn lines_outcome(ps: Seq<Product>, lines: Seq<CreateOrderItem>) -> Result<
    int,
    PosError,
> {
    match first_line_error(ps, lines, 0) {
        Some(e) => Err(e),
        None => if lines_total(ps, lines) > i64::MAX {
            Err(PosError::AmountOverflow)
        } else {
            Ok(lines_total(ps, lines))
        },
    }
}

/// The items that `lines` become in order `order_id`, numbered from `first_id`.
pub open spec fn new_items(
    ps: Seq<Product>,
    lines: Seq<CreateOrderItem>,
    order_id: i64,
    first_id: i64,
) -> Seq<OrderItem> {
    Seq::new(
        lines.len(),
        |i: int|
            OrderItem {
                id: (first_id + i) as i64,
                order_id,
                product_id: lines[i].product_id,
                quantity: lines[i].quantity as i64,
                price_at_sale: price_of(ps, lines[i].product_id) as i64,
            },
    )
}

/// The stock of every product lowered by what `lines` ask for.
pub open spec fn stock_taken(before: Seq<Product>, after: Seq<Product>, lines: Seq<CreateOrderItem>) -> bool {
    &&& after.len() == before.len()
    &&& forall|k: int|
        0 <= k < before.len() ==> #[trigger] after[k] == with_quantity(
            before[k],
            before[k].quantity - requested(lines, before[k].id),
        )
}

/// Too few identifiers are left to record an order of `n` lines.
pub open spec fn ids_short(s: Store, n: int) -> bool {
    s.next_order_id == i64::MAX || s.next_item_id + n > i64::MAX
}

/// Why taking an order of `lines` is refused, if it is.
pub open spec fn order_refusal(s: Store, lines: Seq<CreateOrderItem>) -> Option<PosError> {
    if !s.day_active() {
        Some(PosError::DayNotStarted)
    } else {
        match lines_outcome(s.products@, lines) {
            Err(e) => Some(e),
            Ok(_) => if ids_short(s, lines.len() as int) {
                Some(PosError::IdsExhausted)
            } else {
                None
            },
        }
    }
}

proof fn lemma_find_product(ps: Seq<Product>, next_id: i64, k: int)
    requires
        products_wf(ps, next_id),
        0 <= k < ps.len(),
    ensures
        find_product(ps, ps[k].id) == Some(ps[k]),
{
    let j = choose|j: int| 0 <= j < ps.len() && #[trigger] ps[j].id == ps[k].id;
    assert(ps[j].id == ps[k].id);
}

proof fn lemma_first_line_error_skip(ps: Seq<Product>, lines: Seq<CreateOrderItem>, a: int, i: int)
    requires
        0 <= a <= i <= lines.len(),
        forall|k: int| a <= k < i ==> #[trigger] line_error(ps, lines, k) is None,
    ensures
        first_line_error(ps, lines, a) == first_line_error(ps, lines, i),
    decreases i - a,
{
    if a < i {
        assert(line_error(ps, lines, a) is None);
        lemma_first_line_error_skip(ps, lines, a + 1, i);
    }
}

proof fn lemma_first_line_error_none(ps: Seq<Product>, lines: Seq<CreateOrderItem>, a: int)
    requires
        0 <= a <= lines.len(),
        first_line_error(ps, lines, a) is None,
    ensures
        forall|k: int| a <= k < lines.len() ==> #[trigger] line_error(ps, lines, k) is None,
    decreases lines.len() - a,
{
    if a < lines.len() {
        lemma_first_line_error_none(ps, lines, a + 1);
    }
}

proof fn lemma_requested_nonneg(lines: Seq<CreateOrderItem>, pid: i64)
    requires
        forall|k: int| 0 <= k < lines.len() ==> (#[trigger] lines[k]).quantity >= 1,
    ensures
        requested(lines, pid) >= 0,
    decreases lines.len(),
{
    if lines.len() > 0 {
        let d = lines.drop_last();
        assert forall|k: int| 0 <= k < d.len() implies (#[trigger] d[k]).quantity >= 1 by {
            assert(d[k] == lines[k]);
        }
        lemma_requested_nonneg(d, pid);
    }
}

/// One more element of `s` taken: the prefix grows by `s[i]`.
pub proof fn lemma_take_step<T>(s: Seq<T>, i: int)
    requires
        0 <= i < s.len(),
    ensures
        s.take(i + 1).drop_last() == s.take(i),
        s.take(i + 1).last() == s[i],
        s.take(i + 1).len() == i + 1,
{
    assert(s.take(i + 1).drop_last() =~= s.take(i));
}

/// An order id above every recorded one has no items and a sum of zero.
proof fn lemma_item_sum_absent_fresh(items: Seq<OrderItem>, order_id: i64)
    requires
        forall|k: int| 0 <= k < items.len() ==> #[trigger] items[k].order_id < order_id,
    ensures
        item_sum(items, order_id) == 0,
        !has_items(items, order_id),
{
    lemma_item_sum_absent(items, order_id);
}

/// The items of an order that only the appended part mentions are those of that part.
proof fn lemma_items_of_fresh(items: Seq<OrderItem>, added: Seq<OrderItem>, order_id: i64)
    requires
        forall|k: int| 0 <= k < items.len() ==> #[trigger] items[k].order_id != order_id,
        forall|k: int| 0 <= k < added.len() ==> #[trigger] added[k].order_id == order_id,
    ensures
        items_of(items + added, order_id) == added,
    decreases added.len(),
{
    if added.len() == 0 {
        assert(items + added =~= items);
        lemma_items_of_absent(items, order_id);
    } else {
        assert((items + added).drop_last() =~= items + added.drop_last());
        lemma_items_of_fresh(items, added.drop_last(), order_id);
        assert(added.drop_last().push(added.last()) =~= added);
    }
}

proof fn lemma_items_of_absent(items: Seq<OrderItem>, order_id: i64)
    requires
        forall|k: int| 0 <= k < items.len() ==> #[trigger] items[k].order_id != order_id,
    ensures
        items_of(items, order_id) == Seq::<OrderItem>::empty(),
    decreases items.len(),
{
    if items.len() > 0 {
        let d = items.drop_last();
        assert forall|k: int| 0 <= k < d.len() implies #[trigger] d[k].order_id != order_id by {
            assert(d[k] == items[k]);
        }
        assert(items.last() == items[items.len() - 1]);
        lemma_items_of_absent(d, order_id);
    }
}

/// The order with id `id`, if one is recorded.
pub open spec fn find_order(os: Seq<Order>, id: i64) -> Option<Order> {
    if exists|k: int| 0 <= k < os.len() && #[trigger] os[k].id == id {
        Some(os[choose|k: int| 0 <= k < os.len() && #[trigger] os[k].id == id])
    } else {
        None
    }
}

/// The order item with id `id`, if one is recorded.
pub open spec fn find_item(items: Seq<OrderItem>, id: i64) -> Option<OrderItem> {
    if exists|k: int| 0 <= k < items.len() && #[trigger] items[k].id == id {
        Some(items[item_pos(items, id)])
    } else {
        None
    }
}

/// Where the item with id `id` stands.
pub open spec fn item_pos(items: Seq<OrderItem>, id: i64) -> int {
    choose|k: int| 0 <= k < items.len() && #[trigger] items[k].id == id
}

/// Where the order with id `id` stands.
pub open spec fn order_pos(os: Seq<Order>, id: i64) -> int {
    choose|k: int| 0 <= k < os.len() && #[trigger] os[k].id == id
}

/// `o` with its total set to `t`.
pub open spec fn with_total(o: Order, t: int) -> Order {
    Order { total: t as i64, ..o }
}

/// `after` is `before` with the order of id `id` replaced by `o`.
pub open spec fn order_replaced(before: Seq<Order>, after: Seq<Order>, id: i64, o: Order) -> bool {
    &&& after.len() == before.len()
    &&& forall|i: int|
        0 <= i < before.len() ==> #[trigger] after[i] == if before[i].id == id {
            o
        } else {
            before[i]
        }
}

/// Why adding `lines` to order `order_id` is refused, if it is.
pub open spec fn add_refusal(s: Store, order_id: i64, lines: Seq<CreateOrderItem>) -> Option<
    PosError,
> {
    match find_order(s.orders@, order_id) {
        None => Some(PosError::OrderNotFound(order_id)),
        Some(o) => if o.status != OrderStatus::Open {
            Some(PosError::OrderClosed(order_id))
        } else {
            match lines_outcome(s.products@, lines) {
                Err(e) => Some(e),
                Ok(t) => if o.total + t > i64::MAX {
                    Some(PosError::AmountOverflow)
                } else if s.next_item_id + lines.len() > i64::MAX {
                    Some(PosError::IdsExhausted)
                } else {
                    None
                },
            }
        },
    }
}

proof fn lemma_find_order(os: Seq<Order>, items: Seq<OrderItem>, next_id: i64, k: int)
    requires
        orders_wf(os, items, next_id),
        0 <= k < os.len(),
    ensures
        find_order(os, os[k].id) == Some(os[k]),
        order_pos(os, os[k].id) == k,
{
    let j = choose|j: int| 0 <= j < os.len() && #[trigger] os[j].id == os[k].id;
    assert(os[j].id == os[k].id);
}

proof fn lemma_find_item(items: Seq<OrderItem>, next_id: i64, next_order_id: i64, k: int)
    requires
        items_wf(items, next_id, next_order_id),
        0 <= k < items.len(),
    ensures
        find_item(items, items[k].id) == Some(items[k]),
        item_pos(items, items[k].id) == k,
{
    let j = item_pos(items, items[k].id);
    assert(items[j].id == items[k].id);
}

/// Why changing the quantity of item `item_id` is refused by its order, if it is.
pub open spec fn item_change_refusal(s: Store, item_id: i64) -> Option<PosError> {
    match find_item(s.items@, item_id) {
        None => Some(PosError::ItemNotFound(item_id)),
        Some(it) => match find_order(s.orders@, it.order_id) {
            None => Some(PosError::OrderNotFound(it.order_id)),
            Some(o) => if o.status != OrderStatus::Open {
                Some(PosError::OrderClosed(it.order_id))
            } else {
                None
            },
        },
    }
}

/// Why taking one unit off item `item_id` is refused, if it is.
pub open spec fn decrease_refusal(s: Store, item_id: i64) -> Option<PosError> {
    match item_change_refusal(s, item_id) {
        Some(e) => Some(e),
        None => match find_product(s.products@, find_item(s.items@, item_id)->Some_0.product_id) {
            Some(p) => if p.quantity == i64::MAX {
                Some(PosError::AmountOverflow)
            } else {
                None
            },
            None => None,
        },
    }
}

/// Why adding one unit to item `item_id` is refused, if it is.
pub open spec fn increase_refusal(s: Store, item_id: i64) -> Option<PosError> {
    match item_change_refusal(s, item_id) {
        Some(e) => Some(e),
        None => {
            let it = find_item(s.items@, item_id)->Some_0;
            let o = find_order(s.orders@, it.order_id)->Some_0;
            match find_product(s.products@, it.product_id) {
                None => Some(PosError::ProductNotFound(it.product_id)),
                Some(p) => if p.quantity < 1 {
                    Some(
                        PosError::InsufficientStock {
                            product_id: it.product_id,
                            requested: 1,
                            available: p.quantity,
                        },
                    )
                } else if it.quantity == i64::MAX || o.total + it.price_at_sale > i64::MAX {
                    Some(PosError::AmountOverflow)
                } else {
                    None
                },
            }
        },
    }
}

/// The items once one unit is taken off the item at position `j`: the item goes
/// when it had a single unit.
pub open spec fn items_decreased(items: Seq<OrderItem>, j: int) -> Seq<OrderItem> {
    if items[j].quantity <= 1 {
        items.remove(j)
    } else {
        items.update(j, OrderItem { quantity: (items[j].quantity - 1) as i64, ..items[j] })
    }
}

/// The stock levels left by the lines before `i`, kept alongside the products.
spec fn stock_left(ps: Seq<Product>, avail: Seq<i64>, lines: Seq<CreateOrderItem>, i: int) -> bool {
    &&& avail.len() == ps.len()
    &&& forall|k: int|
        0 <= k < ps.len() ==> #[trigger] avail[k] == ps[k].quantity - requested(
            lines.take(i),
            ps[k].id,
        ) && avail[k] >= 0
}

impl Store {
    /// Checks every line of a request against the stock before anything is written:
    /// returns the refusal of the first refused line, or the request's total.
    pub fn check_lines(&self, lines: &Vec<CreateOrderItem>) -> (r: Result<i64, PosError>)
        requires
            self.wf(),
        ensures
            match r {
                Ok(t) => lines_outcome(self.products@, lines@) == Ok::<int, PosError>(t as int),
                Err(e) => lines_outcome(self.products@, lines@) == Err::<int, PosError>(e),
            },
    {
        let ghost ps = self.products@;
        let ghost ls = lines@;
        let cap: i128 = i64::MAX as i128 + 1;
        let mut avail: Vec<i64> = Vec::new();
        let mut j: usize = 0;
        while j < self.products.len()
            invariant
                j <= ps.len(),
                ps == self.products@,
                avail@.len() == j,
                forall|k: int| 0 <= k < j ==> #[trigger] avail@[k] == ps[k].quantity,
            decreases ps.len() - j,
        {
            avail.push(self.products[j].quantity);
            j = j + 1;
        }
        proof {
            assert(ls.take(0) =~= Seq::<CreateOrderItem>::empty());
            assert forall|k: int| 0 <= k < ps.len() implies #[trigger] avail@[k] == ps[k].quantity
                - requested(ls.take(0), ps[k].id) && avail@[k] >= 0 by {}
        }
        let mut acc: i128 = 0;
        let mut i: usize = 0;
        while i < lines.len()
            invariant
                i <= ls.len(),
                ps == self.products@,
                ls == lines@,
                self.wf(),
                stock_left(ps, avail@, ls, i as int),
                forall|k: int| 0 <= k < i ==> #[trigger] line_error(ps, ls, k) is None,
                0 <= acc <= cap,
                cap == i64::MAX as i128 + 1,
                acc == if lines_total(ps, ls.take(i as int)) < cap {
                    lines_total(ps, ls.take(i as int))
                } else {
                    cap as int
                },
            decreases ls.len() - i,
        {
            let l = lines[i];
            proof {
                lemma_take_step(ls, i as int);
                lemma_first_line_error_skip(ps, ls, 0, i as int);
            }
            match self.product_index(l.product_id) {
                None => {
                    proof {
                        assert(find_product(ps, l.product_id) is None);
                    }
                    return Err(PosError::ProductNotFound(l.product_id));
                },
                Some(k) => {
                    proof {
                        lemma_find_product(ps, self.next_product_id, k as int);
                    }
                    if l.quantity < 1 {
                        return Err(
                            PosError::InvalidQuantity {
                                product_id: l.product_id,
                                quantity: l.quantity as i64,
                            },
                        );
                    }
                    let left = avail[k];
                    if left < l.quantity as i64 {
                        return Err(
                            PosError::InsufficientStock {
                                product_id: l.product_id,
                                requested: l.quantity as i64,
                                available: left,
                            },
                        );
                    }
                    avail.set(k, left - l.quantity as i64);
                    let price = self.products[k].price;
                    proof {
                        assert(0 <= price * l.quantity <= i64::MAX * i32::MAX) by (nonlinear_arith)
                            requires
                                0 <= price <= i64::MAX,
                                1 <= l.quantity <= i32::MAX,
                        ;
                    }
                    let sum = acc + (price as i128) * (l.quantity as i128);
                    acc = if sum < cap {
                        sum
                    } else {
                        cap
                    };
                    proof {
                        assert(price_of(ps, l.product_id) == price);
                        assert forall|m: int| 0 <= m < ps.len() implies #[trigger] avail@[m]
                            == ps[m].quantity - requested(ls.take(i + 1), ps[m].id) && avail@[m]
                            >= 0 by {
                            if m != k && ps[m].id == l.product_id {
                                assert(ps[k as int].id == ps[m].id);
                            }
                        }
                    }
                },
            }
            i = i + 1;
        }
        proof {
            assert(ls.take(i as int) =~= ls);
            lemma_first_line_error_skip(ps, ls, 0, i as int);
        }
        if acc > i64::MAX as i128 {
            Err(PosError::AmountOverflow)
        } else {
            Ok(acc as i64)
        }
    }

    /// Records `lines` as items of order `order_id` and takes their units out of stock,
    /// one relative adjustment per line. The lines have passed `check_lines`.
    fn record_lines(&mut self, order_id: i64, lines: &Vec<CreateOrderItem>)
        requires
            products_wf(old(self).products@, old(self).next_product_id),
            items_wf(old(self).items@, old(self).next_item_id, old(self).next_order_id),
            1 <= order_id < old(self).next_order_id,
            old(self).next_item_id >= 1,
            first_line_error(old(self).products@, lines@, 0) is None,
            old(self).next_item_id + lines@.len() <= i64::MAX,
        ensures
            products_wf(final(self).products@, final(self).next_product_id),
            items_wf(final(self).items@, final(self).next_item_id, final(self).next_order_id),
            stock_taken(old(self).products@, final(self).products@, lines@),
            final(self).items@ == old(self).items@ + new_items(
                old(self).products@,
                lines@,
                order_id,
                old(self).next_item_id,
            ),
            final(self).next_item_id == old(self).next_item_id + lines@.len(),
            forall|oid: i64| #[trigger]
                item_sum(final(self).items@, oid) == item_sum(old(self).items@, oid) + if oid
                    == order_id {
                    lines_total(old(self).products@, lines@)
                } else {
                    0
                },
            final(self).categories == old(self).categories,
            final(self).staff == old(self).staff,
            final(self).orders == old(self).orders,
            final(self).sessions == old(self).sessions,
            final(self).next_category_id == old(self).next_category_id,
            final(self).next_product_id == old(self).next_product_id,
            final(self).next_staff_id == old(self).next_staff_id,
            final(self).next_order_id == old(self).next_order_id,
            final(self).next_session_id == old(self).next_session_id,
    {
        let ghost ps = old(self).products@;
        let ghost ls = lines@;
        let ghost first = old(self).next_item_id;
        let ghost fresh = new_items(ps, ls, order_id, first);
        proof {
            lemma_first_line_error_none(ps, ls, 0);
            assert(ls.take(0) =~= Seq::<CreateOrderItem>::empty());
            assert(old(self).items@ + fresh.take(0) =~= old(self).items@);
        }
        let mut i: usize = 0;
        while i < lines.len()
            invariant
                i <= ls.len(),
                ls == lines@,
                fresh == new_items(ps, ls, order_id, first),
                forall|k: int| 0 <= k < ls.len() ==> #[trigger] line_error(ps, ls, k) is None,
                first + ls.len() <= i64::MAX,
                first >= 1,
                1 <= order_id < self.next_order_id,
                products_wf(ps, self.next_product_id),
                products_wf(self.products@, self.next_product_id),
                items_wf(self.items@, self.next_item_id, self.next_order_id),
                stock_taken(ps, self.products@, ls.take(i as int)),
                self.items@ == old(self).items@ + fresh.take(i as int),
                self.next_item_id == first + i,
                forall|oid: i64| #[trigger]
                    item_sum(self.items@, oid) == item_sum(old(self).items@, oid) + if oid
                        == order_id {
                        lines_total(ps, ls.take(i as int))
                    } else {
                        0
                    },
                self.categories == old(self).categories,
                self.staff == old(self).staff,
                self.orders == old(self).orders,
                self.sessions == old(self).sessions,
                self.next_category_id == old(self).next_category_id,
                self.next_product_id == old(self).next_product_id,
                self.next_staff_id == old(self).next_staff_id,
                self.next_order_id == old(self).next_order_id,
                self.next_session_id == old(self).next_session_id,
            decreases ls.len() - i,
        {
            let l = lines[i];
            proof {
                lemma_take_step(ls, i as int);
                assert(line_error(ps, ls, i as int) is None);
            }
            let k = match self.product_index(l.product_id) {
                Some(k) => k,
                None => {
                    proof {
                        let j = choose|j: int| 0 <= j < ps.len() && #[trigger] ps[j].id == l.product_id;
                        assert(self.products@[j].id == l.product_id);
                    }
                    return ;
                },
            };
            let price = self.products[k].price;
            let ghost prev_items = self.items@;
            let ghost prev_products = self.products@;
            let it = OrderItem {
                id: self.next_item_id,
                order_id,
                product_id: l.product_id,
                quantity: l.quantity as i64,
                price_at_sale: price,
            };
            proof {
                lemma_find_product(ps, self.next_product_id, k as int);
                assert(ps[k as int].id == l.product_id);
                assert(price == ps[k as int].price);
                assert(it == fresh[i as int]);
                let pre = ls.take(i as int);
                assert forall|m: int| 0 <= m < pre.len() implies (#[trigger] pre[m]).quantity
                    >= 1 by {
                    assert(pre[m] == ls[m]);
                    assert(line_error(ps, ls, m) is None);
                }
                lemma_requested_nonneg(pre, l.product_id);
                assert(self.products@[k as int].quantity == ps[k as int].quantity - requested(
                    ls.take(i as int),
                    ps[k as int].id,
                ));
                assert forall|m: int|
                    0 <= m < self.products@.len() && #[trigger] self.products@[m].id
                        == l.product_id implies self.products@[m].quantity >= l.quantity by {
                    assert(self.products@[k as int].id == l.product_id);
                }
                assert(lines_total(ps, ls.take(i + 1)) == lines_total(ps, ls.take(i as int))
                    + price * l.quantity);
            }
            self.items.push(it);
            self.next_item_id = self.next_item_id + 1;
            self.deduct(l.product_id, l.quantity as i64);
            proof {
                assert(self.items@ == prev_items.push(it));
                assert(self.items@ =~= old(self).items@ + fresh.take(i + 1));
                assert forall|oid: i64| #[trigger]
                    item_sum(self.items@, oid) == item_sum(old(self).items@, oid) + if oid
                        == order_id {
                        lines_total(ps, ls.take(i + 1))
                    } else {
                        0
                    } by {
                    lemma_item_sum_push(prev_items, it, oid);
                    if oid == order_id {
                        assert(it.quantity * it.price_at_sale == price * l.quantity)
                            by (nonlinear_arith)
                            requires
                                it.quantity == l.quantity,
                                it.price_at_sale == price,
                        ;
                    }
                }
                assert forall|m: int| 0 <= m < ps.len() implies #[trigger] self.products@[m]
                    == with_quantity(ps[m], ps[m].quantity - requested(ls.take(i + 1), ps[m].id)) by {
                    assert(prev_products[m] == with_quantity(ps[m], ps[m].quantity - requested(ls.take(i as int), ps[m].id)));
                }
                let its = self.items@;
                assert forall|a: int| 0 <= a < its.len() implies {
                    &&& (#[trigger] its[a]).quantity >= 1
                    &&& its[a].price_at_sale >= 0
                    &&& 1 <= its[a].id < self.next_item_id
                    &&& 1 <= its[a].order_id < self.next_order_id
                } by {
                    if a < prev_items.len() {
                        assert(its[a] == prev_items[a]);
                    } else {
                        assert(its[a] == it);
                    }
                }
                assert forall|a: int, b: int|
                    0 <= a < its.len() && 0 <= b < its.len() && #[trigger] its[a].id
                        == #[trigger] its[b].id implies a == b by {
                    if a < prev_items.len() && b < prev_items.len() {
                        assert(its[a] == prev_items[a]);
                        assert(its[b] == prev_items[b]);
                    } else if a < prev_items.len() {
                        assert(its[a] == prev_items[a]);
                    } else if b < prev_items.len() {
                        assert(its[b] == prev_items[b]);
                    }
                }
            }
            i = i + 1;
        }
        proof {
            assert(ls.take(i as int) =~= ls);
            assert(fresh.take(i as int) =~= fresh);
        }
    }

    /// Takes a new order for a table. It needs an active day session; every line is
    /// checked against the stock first, and either the whole order is recorded — with
    /// the current prices captured and the stock deducted — or nothing changes.
    pub fn create_order(&mut self, order: CreateOrder, now: u64) -> (r: Result<
        OrderWithItems,
        PosError,
    >)
        requires
            old(self).wf(),
        ensures
            final(self).wf(),
            match r {
                Err(e) => order_refusal(*old(self), order.items@) == Some(e) && *final(self)
                    == *old(self),
                Ok(v) => {
                    &&& order_refusal(*old(self), order.items@) is None
                    &&& v.order.id == old(self).next_order_id
                    &&& v.order.staff_id == order.staff_id
                    &&& v.order.table_number == order.table_number
                    &&& v.order.total == lines_total(old(self).products@, order.items@)
                    &&& v.order.customer_name == order.customer_name
                    &&& v.order.notes == order.notes
                    &&& v.order.status == OrderStatus::Open
                    &&& v.order.created_at == now
                    &&& exists|k: int|
                        0 <= k < old(self).sessions@.len() && #[trigger] old(
                            self,
                        ).sessions@[k].is_active && v.order.session_id == Some(
                            old(self).sessions@[k].id,
                        )
                    &&& v.items@ == new_items(
                        old(self).products@,
                        order.items@,
                        v.order.id,
                        old(self).next_item_id,
                    )
                    &&& final(self).orders@ == old(self).orders@.push(v.order)
                    &&& final(self).items@ == old(self).items@ + v.items@
                    &&& stock_taken(old(self).products@, final(self).products@, order.items@)
                    &&& final(self).next_order_id == old(self).next_order_id + 1
                    &&& final(self).next_item_id == old(self).next_item_id + order.items@.len()
                    &&& final(self).next_product_id == old(self).next_product_id
                    &&& keeps_people(*old(self), *final(self))
                    &&& keeps_sessions(*old(self), *final(self))
                },
            },
    {
        let sk = match self.active_index() {
            Some(k) => k,
            None => {
                return Err(PosError::DayNotStarted);
            },
        };
        let total = match self.check_lines(&order.items) {
            Ok(t) => t,
            Err(e) => {
                return Err(e);
            },
        };
        let n = order.items.len();
        if self.next_order_id == i64::MAX || (self.next_item_id as i128) + (n as i128)
            > i64::MAX as i128 {
            return Err(PosError::IdsExhausted);
        }
        let ghost before = *self;
        let order_id = self.next_order_id;
        self.next_order_id = self.next_order_id + 1;
        self.record_lines(order_id, &order.items);
        let new_order = Order {
            id: order_id,
            staff_id: order.staff_id,
            table_number: order.table_number,
            total,
            customer_name: order.customer_name,
            notes: order.notes,
            status: OrderStatus::Open,
            session_id: Some(self.sessions[sk].id),
            created_at: now,
        };
        proof {
            let os = before.orders@;
            assert forall|i: int| 0 <= i < os.len() implies os[i].id != order_id by {}
            lemma_item_sum_absent_fresh(before.items@, order_id);
        }
        self.orders.push(new_order.clone());
        proof {
            let os = self.orders@;
            let prev = before.orders@;
            assert forall|i: int| 0 <= i < os.len() implies {
                &&& 1 <= #[trigger] os[i].id < self.next_order_id
                &&& os[i].total >= 0
                &&& os[i].status == OrderStatus::Open ==> os[i].total == item_sum(
                    self.items@,
                    os[i].id,
                )
            } by {
                if i < prev.len() {
                    assert(os[i] == prev[i]);
                    assert(os[i].id != order_id);
                    assert(item_sum(self.items@, prev[i].id) == item_sum(before.items@, prev[i].id));
                } else {
                    assert(os[i] == new_order);
                    assert(item_sum(self.items@, order_id) == lines_total(before.products@, order.items@));
                    lemma_item_sum_nonneg(self.items@, order_id);
                }
            }
            assert forall|a: int, b: int|
                0 <= a < os.len() && 0 <= b < os.len() && #[trigger] os[a].id == #[trigger] os[b].id
                    implies a == b by {
                if a < prev.len() {
                    assert(os[a] == prev[a]);
                }
                if b < prev.len() {
                    assert(os[b] == prev[b]);
                }
            }
        }
        let items = self.order_items(order_id);
        proof {
            lemma_items_of_fresh(before.items@, self.items@.subrange(before.items@.len() as int, self.items@.len() as int), order_id);
            assert(self.items@ =~= before.items@ + self.items@.subrange(before.items@.len() as int, self.items@.len() as int));
        }
        Ok(OrderWithItems { order: new_order, items })
    }

    /// The order with id `id` together with its items.
    pub fn get_order(&self, id: i64) -> (r: Result<OrderWithItems, PosError>)
        requires
            self.wf(),
        ensures
            match r {
                Ok(v) => find_order(self.orders@, id) == Some(v.order) && v.items@ == items_of(
                    self.items@,
                    id,
                ),
                Err(e) => find_order(self.orders@, id) is None && e == PosError::OrderNotFound(id),
            },
    {
        match self.order_index(id) {
            Some(k) => {
                proof {
                    lemma_find_order(self.orders@, self.items@, self.next_order_id, k as int);
                }
                Ok(OrderWithItems { order: self.orders[k].clone(), items: self.order_items(id) })
            },
            None => Err(PosError::OrderNotFound(id)),
        }
    }

    /// Adds lines to an open order, with the same all-or-nothing check as a new order;
    /// the order's total grows by the lines' subtotal.
    pub fn add_items_to_order(&mut self, order_id: i64, items: Vec<CreateOrderItem>) -> (r: Result<
        OrderWithItems,
        PosError,
    >)
        requires
            old(self).wf(),
        ensures
            final(self).wf(),
            match r {
                Err(e) => add_refusal(*old(self), order_id, items@) == Some(e) && *final(self)
                    == *old(self),
                Ok(v) => {
                    let o = find_order(old(self).orders@, order_id)->Some_0;
                    &&& add_refusal(*old(self), order_id, items@) is None
                    &&& v.order == with_total(o, o.total + lines_total(old(self).products@, items@))
                    &&& order_replaced(old(self).orders@, final(self).orders@, order_id, v.order)
                    &&& final(self).items@ == old(self).items@ + new_items(
                        old(self).products@,
                        items@,
                        order_id,
                        old(self).next_item_id,
                    )
                    &&& v.items@ == items_of(final(self).items@, order_id)
                    &&& stock_taken(old(self).products@, final(self).products@, items@)
                    &&& final(self).next_order_id == old(self).next_order_id
                    &&& final(self).next_item_id == old(self).next_item_id + items@.len()
                    &&& final(self).next_product_id == old(self).next_product_id
                    &&& keeps_people(*old(self), *final(self))
                    &&& keeps_sessions(*old(self), *final(self))
                },
            },
    {
        let k = match self.order_index(order_id) {
            Some(k) => k,
            None => {
                return Err(PosError::OrderNotFound(order_id));
            },
        };
        proof {
            lemma_find_order(self.orders@, self.items@, self.next_order_id, k as int);
        }
        if self.orders[k].status != OrderStatus::Open {
            return Err(PosError::OrderClosed(order_id));
        }
        let extra = match self.check_lines(&items) {
            Ok(t) => t,
            Err(e) => {
                return Err(e);
            },
        };
        if (self.orders[k].total as i128) + (extra as i128) > i64::MAX as i128 {
            return Err(PosError::AmountOverflow);
        }
        if (self.next_item_id as i128) + (items.len() as i128) > i64::MAX as i128 {
            return Err(PosError::IdsExhausted);
        }
        let ghost before = *self;
        self.record_lines(order_id, &items);
        let mut o = self.orders[k].clone();
        o.total = o.total + extra;
        self.orders.set(k, o.clone());
        proof {
            let os = self.orders@;
            let prev = before.orders@;
            assert forall|i: int| 0 <= i < os.len() implies {
                &&& 1 <= (#[trigger] os[i]).id < self.next_order_id
                &&& os[i].total >= 0
                &&& os[i].status == OrderStatus::Open ==> os[i].total == item_sum(
                    self.items@,
                    os[i].id,
                )
            } by {
                if i != k {
                    assert(os[i] == prev[i]);
                    assert(prev[i].id != order_id);
                    assert(item_sum(self.items@, prev[i].id) == item_sum(before.items@, prev[i].id));
                } else {
                    assert(item_sum(self.items@, order_id) == item_sum(before.items@, order_id)
                        + lines_total(before.products@, items@));
                    lemma_item_sum_nonneg(self.items@, order_id);
                }
            }
            assert forall|a: int, b: int|
                0 <= a < os.len() && 0 <= b < os.len() && #[trigger] os[a].id == #[trigger] os[b].id
                    implies a == b by {
                assert(os[a].id == prev[a].id);
                assert(os[b].id == prev[b].id);
            }
            assert forall|i: int| 0 <= i < prev.len() implies #[trigger] os[i] == if prev[i].id
                == order_id {
                o
            } else {
                prev[i]
            } by {
                if i != k {
                    assert(prev[i].id != prev[k as int].id);
                }
            }
        }
        let its = self.order_items(order_id);
        Ok(OrderWithItems { order: o, items: its })
    }

    /// Settles an open order in one check-and-set: it succeeds only if the order exists
    /// and is still open.
    pub fn mark_order_paid(&mut self, order_id: i64) -> (r: Result<OrderWithItems, PosError>)
        requires
            old(self).wf(),
        ensures
            final(self).wf(),
            match r {
                Err(e) => {
                    &&& e == PosError::NotFoundOrAlreadyPaid(order_id)
                    &&& *final(self) == *old(self)
                    &&& !(find_order(old(self).orders@, order_id) matches Some(o) && o.status
                        == OrderStatus::Open)
                },
                Ok(v) => {
                    let o = find_order(old(self).orders@, order_id)->Some_0;
                    &&& find_order(old(self).orders@, order_id) is Some
                    &&& o.status == OrderStatus::Open
                    &&& v.order == Order { status: OrderStatus::Paid, ..o }
                    &&& order_replaced(old(self).orders@, final(self).orders@, order_id, v.order)
                    &&& v.items@ == items_of(old(self).items@, order_id)
                    &&& final(self).items == old(self).items
                    &&& final(self).next_order_id == old(self).next_order_id
                    &&& final(self).next_item_id == old(self).next_item_id
                    &&& keeps_catalog(*old(self), *final(self))
                    &&& keeps_sessions(*old(self), *final(self))
                },
            },
    {
        let k = match self.order_index(order_id) {
            Some(k) => k,
            None => {
                return Err(PosError::NotFoundOrAlreadyPaid(order_id));
            },
        };
        proof {
            lemma_find_order(self.orders@, self.items@, self.next_order_id, k as int);
        }
        if self.orders[k].status != OrderStatus::Open {
            return Err(PosError::NotFoundOrAlreadyPaid(order_id));
        }
        let ghost prev = self.orders@;
        let mut o = self.orders[k].clone();
        o.status = OrderStatus::Paid;
        self.orders.set(k, o.clone());
        proof {
            let os = self.orders@;
            assert forall|i: int| 0 <= i < os.len() implies {
                &&& 1 <= (#[trigger] os[i]).id < self.next_order_id
                &&& os[i].total >= 0
                &&& os[i].status == OrderStatus::Open ==> os[i].total == item_sum(
                    self.items@,
                    os[i].id,
                )
            } by {
                if i != k {
                    assert(os[i] == prev[i]);
                }
            }
            assert forall|a: int, b: int|
                0 <= a < os.len() && 0 <= b < os.len() && #[trigger] os[a].id == #[trigger] os[b].id
                    implies a == b by {
                assert(os[a].id == prev[a].id);
                assert(os[b].id == prev[b].id);
            }
            assert forall|i: int| 0 <= i < prev.len() implies #[trigger] os[i] == if prev[i].id
                == order_id {
                o
            } else {
                prev[i]
            } by {
                if i != k {
                    assert(prev[i].id != prev[k as int].id);
                }
            }
        }
        let its = self.order_items(order_id);
        Ok(OrderWithItems { order: o, items: its })
    }

    /// Takes one unit off an item of an open order and puts it back into stock. An item
    /// left with no unit is removed; an order left with no item is deleted, and then
    /// the result is `None` rather than a view of the order.
    pub fn decrease_item_quantity(&mut self, item_id: i64) -> (r: Result<
        Option<OrderWithItems>,
        PosError,
    >)
        requires
            old(self).wf(),
        ensures
            final(self).wf(),
            match r {
                Err(e) => decrease_refusal(*old(self), item_id) == Some(e) && *final(self)
                    == *old(self),
                Ok(v) => {
                    let it = find_item(old(self).items@, item_id)->Some_0;
                    let o = find_order(old(self).orders@, it.order_id)->Some_0;
                    &&& decrease_refusal(*old(self), item_id) is None
                    &&& final(self).items@ == items_decreased(
                        old(self).items@,
                        item_pos(old(self).items@, item_id),
                    )
                    &&& stock_shifted(
                        old(self).products@,
                        final(self).products@,
                        it.product_id,
                        1,
                    )
                    &&& final(self).next_order_id == old(self).next_order_id
                    &&& final(self).next_item_id == old(self).next_item_id
                    &&& final(self).next_product_id == old(self).next_product_id
                    &&& keeps_people(*old(self), *final(self))
                    &&& keeps_sessions(*old(self), *final(self))
                    &&& (it.quantity <= 1 ==> find_item(final(self).items@, item_id) is None)
                    &&& match v {
                        None => {
                            &&& !has_items(final(self).items@, it.order_id)
                            &&& final(self).orders@ == old(self).orders@.remove(
                                order_pos(old(self).orders@, it.order_id),
                            )
                            &&& find_order(final(self).orders@, it.order_id) is None
                        },
                        Some(w) => {
                            &&& has_items(final(self).items@, it.order_id)
                            &&& w.order == with_total(o, o.total - it.price_at_sale)
                            &&& order_replaced(
                                old(self).orders@,
                                final(self).orders@,
                                it.order_id,
                                w.order,
                            )
                            &&& w.items@ == items_of(final(self).items@, it.order_id)
                        },
                    }
                },
            },
    {
        let j = match self.item_index(item_id) {
            Some(j) => j,
            None => {
                return Err(PosError::ItemNotFound(item_id));
            },
        };
        let it = self.items[j];
        proof {
            lemma_find_item(self.items@, self.next_item_id, self.next_order_id, j as int);
        }
        let k = match self.order_index(it.order_id) {
            Some(k) => k,
            None => {
                return Err(PosError::OrderNotFound(it.order_id));
            },
        };
        proof {
            lemma_find_order(self.orders@, self.items@, self.next_order_id, k as int);
        }
        if self.orders[k].status != OrderStatus::Open {
            return Err(PosError::OrderClosed(it.order_id));
        }
        match self.product_index(it.product_id) {
            Some(pk) => {
                proof {
                    lemma_find_product(self.products@, self.next_product_id, pk as int);
                }
                if self.products[pk].quantity == i64::MAX {
                    return Err(PosError::AmountOverflow);
                }
            },
            None => {
                proof {
                    assert(find_product(self.products@, it.product_id) is None);
                }
            },
        }
        let ghost before = *self;
        let oid = it.order_id;
        if it.quantity <= 1 {
            self.items.remove(j);
        } else {
            self.items.set(j, OrderItem { quantity: it.quantity - 1, ..it });
        }
        proof {
            let bi = before.items@;
            let ni = self.items@;
            assert(ni == items_decreased(bi, j as int));
            assert forall|x: i64| #[trigger]
                item_sum(ni, x) == item_sum(bi, x) - if x == oid {
                    it.price_at_sale as int
                } else {
                    0
                } by {
                if it.quantity <= 1 {
                    lemma_item_sum_remove(bi, j as int, x);
                } else {
                    let nit = OrderItem { quantity: (it.quantity - 1) as i64, ..it };
                    lemma_item_sum_update(bi, j as int, nit, x);
                    assert(nit.quantity * nit.price_at_sale == it.quantity * it.price_at_sale
                        - it.price_at_sale) by (nonlinear_arith)
                        requires
                            nit.quantity == it.quantity - 1,
                            nit.price_at_sale == it.price_at_sale,
                    ;
                }
            }
            assert forall|a: int| 0 <= a < ni.len() implies {
                &&& (#[trigger] ni[a]).quantity >= 1
                &&& ni[a].price_at_sale >= 0
                &&& 1 <= ni[a].id < self.next_item_id
                &&& 1 <= ni[a].order_id < self.next_order_id
            } by {
                if it.quantity <= 1 {
                    if a < j {
                        assert(ni[a] == bi[a]);
                    } else {
                        assert(ni[a] == bi[a + 1]);
                    }
                } else if a != j {
                    assert(ni[a] == bi[a]);
                }
            }
            assert forall|a: int, b: int|
                0 <= a < ni.len() && 0 <= b < ni.len() && #[trigger] ni[a].id == #[trigger] ni[b].id
                    implies a == b by {
                if it.quantity <= 1 {
                    let a2 = if a < j { a } else { a + 1 };
                    let b2 = if b < j { b } else { b + 1 };
                    assert(ni[a] == bi[a2]);
                    assert(ni[b] == bi[b2]);
                } else {
                    assert(ni[a].id == bi[a].id);
                    assert(ni[b].id == bi[b].id);
                }
            }
            if it.quantity <= 1 {
                assert forall|a: int| 0 <= a < ni.len() implies #[trigger] ni[a].id != item_id by {
                    let a2 = if a < j { a } else { a + 1 };
                    assert(ni[a] == bi[a2]);
                }
            }
        }
        self.restore(it.product_id, 1);
        let mut o = self.orders[k].clone();
        proof {
            lemma_item_sum_nonneg(self.items@, oid);
        }
        o.total = o.total - it.price_at_sale;
        if self.order_has_items(oid) {
            self.orders.set(k, o.clone());
            proof {
                let os = self.orders@;
                let prev = before.orders@;
                assert forall|i: int| 0 <= i < os.len() implies {
                    &&& 1 <= (#[trigger] os[i]).id < self.next_order_id
                    &&& os[i].total >= 0
                    &&& os[i].status == OrderStatus::Open ==> os[i].total == item_sum(
                        self.items@,
                        os[i].id,
                    )
                } by {
                    if i != k {
                        assert(os[i] == prev[i]);
                        assert(prev[i].id != oid);
                    }
                }
                assert forall|a: int, b: int|
                    0 <= a < os.len() && 0 <= b < os.len() && #[trigger] os[a].id
                        == #[trigger] os[b].id implies a == b by {
                    assert(os[a].id == prev[a].id);
                    assert(os[b].id == prev[b].id);
                }
                assert forall|i: int| 0 <= i < prev.len() implies #[trigger] os[i] == if prev[i].id
                    == oid {
                    o
                } else {
                    prev[i]
                } by {
                    if i != k {
                        assert(prev[i].id != prev[k as int].id);
                    }
                }
            }
            let its = self.order_items(oid);
            Ok(Some(OrderWithItems { order: o, items: its }))
        } else {
            self.orders.remove(k);
            proof {
                let os = self.orders@;
                let prev = before.orders@;
                assert forall|i: int| 0 <= i < os.len() implies {
                    &&& 1 <= (#[trigger] os[i]).id < self.next_order_id
                    &&& os[i].total >= 0
                    &&& os[i].status == OrderStatus::Open ==> os[i].total == item_sum(
                        self.items@,
                        os[i].id,
                    )
                } by {
                    let i2 = if i < k { i } else { i + 1 };
                    assert(os[i] == prev[i2]);
                    assert(prev[i2].id != oid);
                }
                assert forall|a: int, b: int|
                    0 <= a < os.len() && 0 <= b < os.len() && #[trigger] os[a].id
                        == #[trigger] os[b].id implies a == b by {
                    let a2 = if a < k { a } else { a + 1 };
                    let b2 = if b < k { b } else { b + 1 };
                    assert(os[a] == prev[a2]);
                    assert(os[b] == prev[b2]);
                }
                assert forall|i: int| 0 <= i < os.len() implies #[trigger] os[i].id != oid by {
                    let i2 = if i < k { i } else { i + 1 };
                    assert(os[i] == prev[i2]);
                }
            }
            Ok(None)
        }
    }

    /// Adds one unit to an item of an open order, taking it out of stock; the order's
    /// total grows by the item's price at sale.
    pub fn increase_item_quantity(&mut self, item_id: i64) -> (r: Result<OrderWithItems, PosError>)
        requires
            old(self).wf(),
        ensures
            final(self).wf(),
            match r {
                Err(e) => increase_refusal(*old(self), item_id) == Some(e) && *final(self)
                    == *old(self),
                Ok(v) => {
                    let it = find_item(old(self).items@, item_id)->Some_0;
                    let o = find_order(old(self).orders@, it.order_id)->Some_0;
                    &&& increase_refusal(*old(self), item_id) is None
                    &&& final(self).items@ == old(self).items@.update(
                        item_pos(old(self).items@, item_id),
                        OrderItem { quantity: (it.quantity + 1) as i64, ..it },
                    )
                    &&& stock_shifted(
                        old(self).products@,
                        final(self).products@,
                        it.product_id,
                        -1,
                    )
                    &&& v.order == with_total(o, o.total + it.price_at_sale)
                    &&& order_replaced(old(self).orders@, final(self).orders@, it.order_id, v.order)
                    &&& v.items@ == items_of(final(self).items@, it.order_id)
                    &&& final(self).next_order_id == old(self).next_order_id
                    &&& final(self).next_item_id == old(self).next_item_id
                    &&& final(self).next_product_id == old(self).next_product_id
                    &&& keeps_people(*old(self), *final(self))
                    &&& keeps_sessions(*old(self), *final(self))
                },
            },
    {
        let j = match self.item_index(item_id) {
            Some(j) => j,
            None => {
                return Err(PosError::ItemNotFound(item_id));
            },
        };
        let it = self.items[j];
        proof {
            lemma_find_item(self.items@, self.next_item_id, self.next_order_id, j as int);
        }
        let k = match self.order_index(it.order_id) {
            Some(k) => k,
            None => {
                return Err(PosError::OrderNotFound(it.order_id));
            },
        };
        proof {
            lemma_find_order(self.orders@, self.items@, self.next_order_id, k as int);
        }
        if self.orders[k].status != OrderStatus::Open {
            return Err(PosError::OrderClosed(it.order_id));
        }
        let pk = match self.product_index(it.product_id) {
            Some(pk) => pk,
            None => {
                return Err(PosError::ProductNotFound(it.product_id));
            },
        };
        proof {
            lemma_find_product(self.products@, self.next_product_id, pk as int);
        }
        let stock = self.products[pk].quantity;
        if stock < 1 {
            return Err(
                PosError::InsufficientStock { product_id: it.product_id, requested: 1, available: stock },
            );
        }
        if it.quantity == i64::MAX || (self.orders[k].total as i128) + (it.price_at_sale as i128)
            > i64::MAX as i128 {
            return Err(PosError::AmountOverflow);
        }
        let ghost before = *self;
        let oid = it.order_id;
        let nit = OrderItem { quantity: it.quantity + 1, ..it };
        self.items.set(j, nit);
        proof {
            let bi = before.items@;
            let ni = self.items@;
            assert forall|x: i64| #[trigger]
                item_sum(ni, x) == item_sum(bi, x) + if x == oid {
                    it.price_at_sale as int
                } else {
                    0
                } by {
                lemma_item_sum_update(bi, j as int, nit, x);
                assert(nit.quantity * nit.price_at_sale == it.quantity * it.price_at_sale
                    + it.price_at_sale) by (nonlinear_arith)
                    requires
                        nit.quantity == it.quantity + 1,
                        nit.price_at_sale == it.price_at_sale,
                ;
            }
            assert forall|a: int| 0 <= a < ni.len() implies {
                &&& (#[trigger] ni[a]).quantity >= 1
                &&& ni[a].price_at_sale >= 0
                &&& 1 <= ni[a].id < self.next_item_id
                &&& 1 <= ni[a].order_id < self.next_order_id
            } by {
                if a != j {
                    assert(ni[a] == bi[a]);
                }
            }
            assert forall|a: int, b: int|
                0 <= a < ni.len() && 0 <= b < ni.len() && #[trigger] ni[a].id == #[trigger] ni[b].id
                    implies a == b by {
                assert(ni[a].id == bi[a].id);
                assert(ni[b].id == bi[b].id);
            }
        }
        self.deduct(it.product_id, 1);
        let mut o = self.orders[k].clone();
        o.total = o.total + it.price_at_sale;
        self.orders.set(k, o.clone());
        proof {
            let os = self.orders@;
            let prev = before.orders@;
            assert forall|i: int| 0 <= i < os.len() implies {
                &&& 1 <= (#[trigger] os[i]).id < self.next_order_id
                &&& os[i].total >= 0
                &&& os[i].status == OrderStatus::Open ==> os[i].total == item_sum(
                    self.items@,
                    os[i].id,
                )
            } by {
                if i != k {
                    assert(os[i] == prev[i]);
                    assert(prev[i].id != oid);
                }
            }
            assert forall|a: int, b: int|
                0 <= a < os.len() && 0 <= b < os.len() && #[trigger] os[a].id == #[trigger] os[b].id
                    implies a == b by {
                assert(os[a].id == prev[a].id);
                assert(os[b].id == prev[b].id);
            }
            assert forall|i: int| 0 <= i < prev.len() implies #[trigger] os[i] == if prev[i].id
                == oid {
                o
            } else {
                prev[i]
            } by {
                if i != k {
                    assert(prev[i].id != prev[k as int].id);
                }
            }
        }
        let its = self.order_items(oid);
        Ok(OrderWithItems { order: o, items: its })
    }

    /// Sets the customer name and the notes of an order.
    pub fn update_order_notes(
        &mut self,
        order_id: i64,
        customer_name: Option<String>,
        notes: Option<String>,
    ) -> (r: Result<OrderWithItems, PosError>)
        requires
            old(self).wf(),
        ensures
            final(self).wf(),
            match r {
                Err(e) => e == PosError::OrderNotFound(order_id) && find_order(
                    old(self).orders@,
                    order_id,
                ) is None && *final(self) == *old(self),
                Ok(v) => {
                    let o = find_order(old(self).orders@, order_id)->Some_0;
                    &&& find_order(old(self).orders@, order_id) is Some
                    &&& v.order == Order { customer_name, notes, ..o }
                    &&& order_replaced(old(self).orders@, final(self).orders@, order_id, v.order)
                    &&& v.items@ == items_of(old(self).items@, order_id)
                    &&& final(self).items == old(self).items
                    &&& final(self).next_order_id == old(self).next_order_id
                    &&& final(self).next_item_id == old(self).next_item_id
                    &&& keeps_catalog(*old(self), *final(self))
                    &&& keeps_sessions(*old(self), *final(self))
                },
            },
    {
        let k = match self.order_index(order_id) {
            Some(k) => k,
            None => {
                return Err(PosError::OrderNotFound(order_id));
            },
        };
        proof {
            lemma_find_order(self.orders@, self.items@, self.next_order_id, k as int);
        }
        let ghost prev = self.orders@;
        let mut o = self.orders[k].clone();
        o.customer_name = customer_name;
        o.notes = notes;
        self.orders.set(k, o.clone());
        proof {
            let os = self.orders@;
            assert forall|i: int| 0 <= i < os.len() implies {
                &&& 1 <= (#[trigger] os[i]).id < self.next_order_id
                &&& os[i].total >= 0
                &&& os[i].status == OrderStatus::Open ==> os[i].total == item_sum(
                    self.items@,
                    os[i].id,
                )
            } by {
                if i != k {
                    assert(os[i] == prev[i]);
                }
            }
            assert forall|a: int, b: int|
                0 <= a < os.len() && 0 <= b < os.len() && #[trigger] os[a].id == #[trigger] os[b].id
                    implies a == b by {
                assert(os[a].id == prev[a].id);
                assert(os[b].id == prev[b].id);
            }
            assert forall|i: int| 0 <= i < prev.len() implies #[trigger] os[i] == if prev[i].id
                == order_id {
                o
            } else {
                prev[i]
            } by {
                if i != k {
                    assert(prev[i].id != prev[k as int].id);
                }
            }
        }
        let its = self.order_items(order_id);
        Ok(OrderWithItems { order: o, items: its })
    }
}

} // verus!
