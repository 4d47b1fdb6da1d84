//! Relative stock adjustments: the only way the logic changes a stock level.
use vstd::prelude::*;

use crate::model::Product;
use crate::store::{products_wf, Store};

verus! {

/// `p` with its stock level set to `q`.
pub open spec fn with_quantity(p: Product, q: int) -> Product {
    Product { quantity: q as i64, ..p }
}

/// The stock of product `id` moved by `delta`, every other product kept.
pub open spec fn stock_shifted(before: Seq<Product>, after: Seq<Product>, id: i64, delta: int) -> bool {
    &&& after.len() == before.len()
    &&& forall|i: int|
        0 <= i < before.len() ==> #[trigger] after[i] == if before[i].id == id {
            with_quantity(before[i], before[i].quantity + delta)
        } else {
            before[i]
        }
}

/// The stock of product `id` moved by `delta`, every other record kept.
pub open spec fn stock_moved(before: Store, after: Store, id: i64, delta: int) -> bool {
    &&& stock_shifted(before.products@, after.products@, id, delta)
    &&& after.categories == before.categories
    &&& after.staff == before.staff
    &&& after.orders == before.orders
    &&& after.items == before.items
    &&& after.sessions == before.sessions
    &&& after.next_category_id == before.next_category_id
    &&& after.next_product_id == before.next_product_id
    &&& after.next_staff_id == before.next_staff_id
    &&& after.next_order_id == before.next_order_id
    &&& after.next_item_id == before.next_item_id
    &&& after.next_session_id == before.next_session_id
}

impl Store {
    /// Sets the stock of the product at position `k`, keeping its other fields.
    fn set_quantity(&mut self, k: usize, q: i64)
        requires
            k < old(self).products@.len(),
        ensures
            final(self).products@ == old(self).products@.update(
                k as int,
                with_quantity(old(self).products@[k as int], q as int),
            ),
            final(self).categories == old(self).categories,
            final(self).staff == old(self).staff,
            final(self).orders == old(self).orders,
            final(self).items == old(self).items,
            final(self).sessions == old(self).sessions,
            final(self).next_category_id == old(self).next_category_id,
            final(self).next_product_id == old(self).next_product_id,
            final(self).next_staff_id == old(self).next_staff_id,
            final(self).next_order_id == old(self).next_order_id,
            final(self).next_item_id == old(self).next_item_id,
            final(self).next_session_id == old(self).next_session_id,
    {
        let mut p = self.products.remove(k);
        p.quantity = q;
        self.products.insert(k, p);
        proof {
            assert(self.products@ =~= old(self).products@.update(
                k as int,
                with_quantity(old(self).products@[k as int], q as int),
            ));
        }
    }

    /// Takes `qty` units of product `product_id` out of stock. The caller has checked
    /// that enough is on hand.
    pub fn deduct(&mut self, product_id: i64, qty: i64)
        requires
            products_wf(old(self).products@, old(self).next_product_id),
            qty >= 0,
            forall|i: int|
                0 <= i < old(self).products@.len() && #[trigger] old(self).products@[i].id
                    == product_id ==> old(self).products@[i].quantity >= qty,
        ensures
            products_wf(final(self).products@, final(self).next_product_id),
            stock_moved(*old(self), *final(self), product_id, -qty),
    {
        match self.product_index(product_id) {
            Some(k) => {
                let q = self.products[k].quantity - qty;
                self.set_quantity(k, q);
                proof {
                    let o = old(self).products@;
                    assert forall|i: int| 0 <= i < o.len() implies #[trigger] self.products@[i]
                        == if o[i].id == product_id {
                        with_quantity(o[i], o[i].quantity - qty)
                    } else {
                        o[i]
                    } by {
                        if i != k && o[i].id == product_id {
                            assert(o[k as int].id == o[i].id);
                        }
                    }
                }
            },
            None => {
                proof {
                    assert(self.products@ =~= old(self).products@);
                }
            },
        }
    }

    /// Puts `qty` units of product `product_id` back into stock; nothing happens when
    /// no such product is recorded.
    pub fn restore(&mut self, product_id: i64, qty: i64)
        requires
            products_wf(old(self).products@, old(self).next_product_id),
            qty >= 0,
            forall|i: int|
                0 <= i < old(self).products@.len() && #[trigger] old(self).products@[i].id
                    == product_id ==> old(self).products@[i].quantity + qty <= i64::MAX,
        ensures
            products_wf(final(self).products@, final(self).next_product_id),
            stock_moved(*old(self), *final(self), product_id, qty as int),
    {
        match self.product_index(product_id) {
            Some(k) => {
                let q = self.products[k].quantity + qty;
                self.set_quantity(k, q);
                proof {
                    let o = old(self).products@;
                    assert forall|i: int| 0 <= i < o.len() implies #[trigger] self.products@[i]
                        == if o[i].id == product_id {
                        with_quantity(o[i], o[i].quantity + qty)
                    } else {
                        o[i]
                    } by {
                        if i != k && o[i].id == product_id {
                            assert(o[k as int].id == o[i].id);
                        }
                    }
                }
            },
            None => {
                proof {
                    assert(self.products@ =~= old(self).products@);
                }
            },
        }
    }
}

} // verus!
