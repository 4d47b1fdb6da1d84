//! The catalogue around the order logic: products, staff and categories.
use vstd::prelude::*;
use vstd::seq_lib::{to_multiset_build, to_multiset_insert};

use crate::ledger::lemma_take_step;
use crate::names::{lemma_name_le_total, lemma_name_le_trans, name_before, name_le};
use crate::model::{Category, CreateProduct, CreateStaff, PosError, Product, Staff, UpdateProduct};
use crate::store::{
    category_key, ids_wf, keeps_orders, keeps_people, keeps_sessions, product_key, staff_key, Store,
};

verus! {

/// `v` is in alphabetical order of names.
pub open spec fn products_by_name(v: Seq<Product>) -> bool {
    forall|a: int, b: int| 0 <= a < b < v.len() ==> name_le((#[trigger] v[a]).name@, (#[trigger] v[b]).name@)
}

/// `v` is in alphabetical order of names.
pub open spec fn staff_by_name(v: Seq<Staff>) -> bool {
    forall|a: int, b: int| 0 <= a < b < v.len() ==> name_le((#[trigger] v[a]).name@, (#[trigger] v[b]).name@)
}

/// `v` is in alphabetical order of names.
pub open spec fn categories_by_name(v: Seq<Category>) -> bool {
    forall|a: int, b: int| 0 <= a < b < v.len() ==> name_le((#[trigger] v[a]).name@, (#[trigger] v[b]).name@)
}

/// `v` is ordered by stock on hand, lowest first.
pub open spec fn by_quantity(v: Seq<Product>) -> bool {
    forall|a: int, b: int| 0 <= a < b < v.len() ==> (#[trigger] v[a]).quantity <= (#[trigger] v[b]).quantity
}

/// The products whose stock is at or below their low-stock threshold, in their order.
pub open spec fn low_stock(ps: Seq<Product>) -> Seq<Product>
    decreases ps.len(),
{
    if ps.len() == 0 {
        Seq::empty()
    } else if ps.last().quantity <= ps.last().low_stock_threshold {
        low_stock(ps.drop_last()).push(ps.last())
    } else {
        low_stock(ps.drop_last())
    }
}

pub open spec fn category_named(cs: Seq<Category>, name: Seq<char>) -> bool {
    exists|k: int| 0 <= k < cs.len() && (#[trigger] cs[k]).name@ == name
}

pub open spec fn staff_named(ss: Seq<Staff>, name: Seq<char>) -> bool {
    exists|k: int| 0 <= k < ss.len() && (#[trigger] ss[k]).name@ == name
}

/// `after` is `before` without the record at some position `k` whose id is `id`, or
/// `before` itself when no record has that id.
pub open spec fn removed_by_id<T>(before: Seq<T>, after: Seq<T>, id_of: spec_fn(T) -> i64, id: i64) -> bool {
    ||| exists|k: int| 0 <= k < before.len() && id_of(#[trigger] before[k]) == id && after == before.remove(k)
    ||| (forall|k: int| 0 <= k < before.len() ==> id_of(#[trigger] before[k]) != id) && after == before
}

proof fn lemma_ids_wf_push<T>(s: Seq<T>, x: T, id_of: spec_fn(T) -> i64, next_id: i64)
    requires
        ids_wf(s, id_of, next_id),
        id_of(x) == next_id,
        1 <= next_id < i64::MAX,
    ensures
        ids_wf(s.push(x), id_of, (next_id + 1) as i64),
{
    let t = s.push(x);
    assert forall|i: int| 0 <= i < t.len() implies 1 <= #[trigger] id_of(t[i]) < next_id + 1 by {
        if i < s.len() {
            assert(t[i] == s[i]);
        }
    }
    assert forall|i: int, j: int|
        0 <= i < t.len() && 0 <= j < t.len() && #[trigger] id_of(t[i]) == #[trigger] id_of(t[j])
            implies i == j by {
        if i < s.len() {
            assert(t[i] == s[i]);
        }
        if j < s.len() {
            assert(t[j] == s[j]);
        }
    }
}

proof fn lemma_ids_wf_remove<T>(s: Seq<T>, k: int, id_of: spec_fn(T) -> i64, next_id: i64)
    requires
        ids_wf(s, id_of, next_id),
        0 <= k < s.len(),
    ensures
        ids_wf(s.remove(k), id_of, next_id),
{
    let t = s.remove(k);
    assert forall|i: int| 0 <= i < t.len() implies 1 <= #[trigger] id_of(t[i]) < next_id by {
        let i2 = if i < k { i } else { i + 1 };
        assert(t[i] == s[i2]);
    }
    assert forall|i: int, j: int|
        0 <= i < t.len() && 0 <= j < t.len() && #[trigger] id_of(t[i]) == #[trigger] id_of(t[j])
            implies i == j by {
        let i2 = if i < k { i } else { i + 1 };
        let j2 = if j < k { j } else { j + 1 };
        assert(t[i] == s[i2]);
        assert(t[j] == s[j2]);
    }
}

impl Store {
    /// Position of the category with id `id`.
    fn category_index(&self, id: i64) -> (r: Option<usize>)
        ensures
            match r {
                Some(k) => k < self.categories@.len() && self.categories@[k as int].id == id,
                None => forall|k: int|
                    0 <= k < self.categories@.len() ==> #[trigger] self.categories@[k].id != id,
            },
    {
        let mut i: usize = 0;
        while i < self.categories.len()
            invariant
                i <= self.categories@.len(),
                forall|k: int| 0 <= k < i ==> #[trigger] self.categories@[k].id != id,
            decreases self.categories@.len() - i,
        {
            if self.categories[i].id == id {
                return Some(i);
            }
            i = i + 1;
        }
        None
    }

    /// Position of the staff member with id `id`.
    fn staff_index(&self, id: i64) -> (r: Option<usize>)
        ensures
            match r {
                Some(k) => k < self.staff@.len() && self.staff@[k as int].id == id,
                None => forall|k: int|
                    0 <= k < self.staff@.len() ==> #[trigger] self.staff@[k].id != id,
            },
    {
        let mut i: usize = 0;
        while i < self.staff.len()
            invariant
                i <= self.staff@.len(),
                forall|k: int| 0 <= k < i ==> #[trigger] self.staff@[k].id != id,
            decreases self.staff@.len() - i,
        {
            if self.staff[i].id == id {
                return Some(i);
            }
            i = i + 1;
        }
        None
    }

    /// Has staff member `id` taken an order?
    fn staff_has_orders(&self, id: i64) -> (r: bool)
        ensures
            r == exists|k: int| 0 <= k < self.orders@.len() && #[trigger] self.orders@[k].staff_id == id,
    {
        let mut i: usize = 0;
        while i < self.orders.len()
            invariant
                i <= self.orders@.len(),
                forall|k: int| 0 <= k < i ==> #[trigger] self.orders@[k].staff_id != id,
            decreases self.orders@.len() - i,
        {
            if self.orders[i].staff_id == id {
                return true;
            }
            i = i + 1;
        }
        false
    }

    /// Is a staff member called `name` already recorded?
    fn staff_name_taken(&self, name: &String) -> (r: bool)
        ensures
            r == staff_named(self.staff@, name@),
    {
        let mut i: usize = 0;
        while i < self.staff.len()
            invariant
                i <= self.staff@.len(),
                forall|k: int| 0 <= k < i ==> (#[trigger] self.staff@[k]).name@ != name@,
            decreases self.staff@.len() - i,
        {
            if self.staff[i].name == *name {
                proof {
                    assert(self.staff@[i as int].name@ == name@);
                }
                return true;
            }
            i = i + 1;
        }
        false
    }

    /// Is a category called `name` already recorded?
    fn category_name_taken(&self, name: &String) -> (r: bool)
        ensures
            r == category_named(self.categories@, name@),
    {
        let mut i: usize = 0;
        while i < self.categories.len()
            invariant
                i <= self.categories@.len(),
                forall|k: int| 0 <= k < i ==> (#[trigger] self.categories@[k]).name@ != name@,
            decreases self.categories@.len() - i,
        {
            if self.categories[i].name == *name {
                proof {
                    assert(self.categories@[i as int].name@ == name@);
                }
                return true;
            }
            i = i + 1;
        }
        false
    }

    /// Every product, by name.
    pub fn get_products(&self) -> (r: Vec<Product>)
        ensures
            products_by_name(r@),
            r@.to_multiset() == self.products@.to_multiset(),
    {
        let ghost xs = self.products@;
        let mut r: Vec<Product> = Vec::new();
        let mut i: usize = 0;
        proof {
            assert(xs.take(0) =~= Seq::<Product>::empty());
        }
        while i < self.products.len()
            invariant
                xs == self.products@,
                i <= xs.len(),
                products_by_name(r@),
                r@.to_multiset() == xs.take(i as int).to_multiset(),
            decreases xs.len() - i,
        {
            let x = self.products[i].clone();
            let mut p: usize = 0;
            while p < r.len() && name_before(&r[p].name, &x.name)
                invariant
                    p <= r@.len(),
                    forall|j: int| 0 <= j < p ==> name_le((#[trigger] r@[j]).name@, x.name@),
                decreases r@.len() - p,
            {
                p = p + 1;
            }
            let ghost prev = r@;
            proof {
                assert forall|j: int| p <= j < prev.len() implies name_le(x.name@, (#[trigger] prev[j]).name@) by {
                    lemma_name_le_total(prev[p as int].name@, x.name@);
                    if j > p {
                        lemma_name_le_trans(x.name@, prev[p as int].name@, prev[j].name@);
                    }
                }
            }
            r.insert(p, x);
            proof {
                let cur = r@;
                assert forall|a: int, b: int| 0 <= a < b < cur.len() implies name_le((#[trigger] cur[a]).name@, (#[trigger] cur[b]).name@) by {
                    if a < p && b < p {
                        assert(cur[a] == prev[a]);
                        assert(cur[b] == prev[b]);
                    } else if a < p && b == p {
                        assert(cur[a] == prev[a]);
                    } else if a < p {
                        assert(cur[a] == prev[a]);
                        assert(cur[b] == prev[b - 1]);
                        lemma_name_le_trans(prev[a].name@, x.name@, prev[b - 1].name@);
                    } else if a == p {
                        assert(cur[b] == prev[b - 1]);
                    } else {
                        assert(cur[a] == prev[a - 1]);
                        assert(cur[b] == prev[b - 1]);
                    }
                }
                to_multiset_insert(prev, p as int, x);
                assert(xs.take(i + 1) =~= xs.take(i as int).push(xs[i as int]));
                to_multiset_build(xs.take(i as int), xs[i as int]);
            }
            i = i + 1;
        }
        proof {
            assert(xs.take(i as int) =~= xs);
        }
        r
    }

    /// The products at or below their low-stock threshold, lowest stock first.
    pub fn get_low_stock(&self) -> (r: Vec<Product>)
        ensures
            by_quantity(r@),
            r@.to_multiset() == low_stock(self.products@).to_multiset(),
    {
        let ghost ps = self.products@;
        let mut r: Vec<Product> = Vec::new();
        let mut i: usize = 0;
        proof {
            assert(ps.take(0) =~= Seq::<Product>::empty());
        }
        while i < self.products.len()
            invariant
                ps == self.products@,
                i <= ps.len(),
                by_quantity(r@),
                r@.to_multiset() == low_stock(ps.take(i as int)).to_multiset(),
            decreases ps.len() - i,
        {
            proof {
                lemma_take_step(ps, i as int);
            }
            if self.products[i].quantity <= self.products[i].low_stock_threshold {
                let q = self.products[i].quantity;
                let mut p: usize = 0;
                while p < r.len() && r[p].quantity <= q
                    invariant
                        p <= r@.len(),
                        forall|j: int| 0 <= j < p ==> (#[trigger] r@[j]).quantity <= q,
                    decreases r@.len() - p,
                {
                    p = p + 1;
                }
                let x = self.products[i].clone();
                let ghost prev = r@;
                proof {
                    assert forall|j: int| p <= j < prev.len() implies (#[trigger] prev[j]).quantity > q by {
                        assert(prev[p as int].quantity > q);
                        if j > p {
                            assert(prev[p as int].quantity <= prev[j].quantity);
                        }
                    }
                }
                r.insert(p, x);
                proof {
                    let cur = r@;
                    assert forall|a: int, b: int| 0 <= a < b < cur.len() implies (#[trigger] cur[a]).quantity <= (#[trigger] cur[b]).quantity by {
                        if a < p && b < p {
                            assert(cur[a] == prev[a]);
                            assert(cur[b] == prev[b]);
                        } else if a < p && b == p {
                            assert(cur[a] == prev[a]);
                        } else if a < p {
                            assert(cur[a] == prev[a]);
                            assert(cur[b] == prev[b - 1]);
                        } else if a == p {
                            assert(cur[b] == prev[b - 1]);
                        } else {
                            assert(cur[a] == prev[a - 1]);
                            assert(cur[b] == prev[b - 1]);
                        }
                    }
                    to_multiset_insert(prev, p as int, x);
                    to_multiset_build(low_stock(ps.take(i as int)), ps[i as int]);
                }
            }
            i = i + 1;
        }
        proof {
            assert(ps.take(i as int) =~= ps);
        }
        r
    }

    /// Adds a product to the catalogue; the low-stock threshold defaults to 5. A negative
    /// price or stock is refused: the till's invariant keeps stock at zero or more, and
    /// prices at zero or more so that order totals and a session's revenue, being sums of
    /// captured prices, never go below zero.
    pub fn create_product(&mut self, product: CreateProduct, now: u64) -> (r: Result<
        Product,
        PosError,
    >)
        requires
            old(self).wf(),
        ensures
            final(self).wf(),
            match r {
                Err(e) => *final(self) == *old(self) && if product.price < 0 {
                    e == PosError::InvalidPrice
                } else if product.quantity < 0 {
                    e == PosError::InvalidStock
                } else {
                    e == PosError::IdsExhausted && old(self).next_product_id == i64::MAX
                },
                Ok(p) => {
                    &&& product.price >= 0 && product.quantity >= 0
                    &&& p == Product {
                        id: old(self).next_product_id,
                        name: product.name,
                        price: product.price,
                        quantity: product.quantity,
                        category_id: product.category_id,
                        low_stock_threshold: match product.low_stock_threshold {
                            Some(t) => t,
                            None => 5,
                        },
                        created_at: now,
                    }
                    &&& final(self).products@ == old(self).products@.push(p)
                    &&& final(self).next_product_id == old(self).next_product_id + 1
                    &&& keeps_people(*old(self), *final(self))
                    &&& keeps_orders(*old(self), *final(self))
                    &&& keeps_sessions(*old(self), *final(self))
                },
            },
    {
        if product.price < 0 {
            return Err(PosError::InvalidPrice);
        }
        if product.quantity < 0 {
            return Err(PosError::InvalidStock);
        }
        if self.next_product_id == i64::MAX {
            return Err(PosError::IdsExhausted);
        }
        let threshold = match product.low_stock_threshold {
            Some(t) => t,
            None => 5,
        };
        let p = Product {
            id: self.next_product_id,
            name: product.name,
            price: product.price,
            quantity: product.quantity,
            category_id: product.category_id,
            low_stock_threshold: threshold,
            created_at: now,
        };
        let ghost prev = self.products@;
        self.products.push(p.clone());
        self.next_product_id = self.next_product_id + 1;
        proof {
            let ps = self.products@;
            assert forall|i: int| 0 <= i < ps.len() implies {
                &&& (#[trigger] ps[i]).quantity >= 0
                &&& ps[i].price >= 0
                &&& 1 <= ps[i].id < self.next_product_id
            } by {
                if i < prev.len() {
                    assert(ps[i] == prev[i]);
                }
            }
            assert forall|i: int, j: int|
                0 <= i < ps.len() && 0 <= j < ps.len() && #[trigger] ps[i].id == #[trigger] ps[j].id
                    implies i == j by {
                if i < prev.len() {
                    assert(ps[i] == prev[i]);
                }
                if j < prev.len() {
                    assert(ps[j] == prev[j]);
                }
            }
        }
        Ok(p)
    }

    /// Edits a product directly, stock level included. Items already sold keep their
    /// captured price. A negative price or stock is refused, as in `create_product`.
    pub fn update_product(&mut self, product: UpdateProduct) -> (r: Result<Product, PosError>)
        requires
            old(self).wf(),
        ensures
            final(self).wf(),
            match r {
                Err(e) => *final(self) == *old(self) && if forall|k: int|
                    0 <= k < old(self).products@.len() ==> #[trigger] old(self).products@[k].id
                        != product.id {
                    e == PosError::ProductNotFound(product.id)
                } else if product.price < 0 {
                    e == PosError::InvalidPrice
                } else {
                    e == PosError::InvalidStock && product.quantity < 0
                },
                Ok(p) => {
                    &&& product.price >= 0 && product.quantity >= 0
                    &&& exists|k: int|
                        0 <= k < old(self).products@.len() && #[trigger] old(self).products@[k].id
                            == product.id && p == Product {
                            id: product.id,
                            name: product.name,
                            price: product.price,
                            quantity: product.quantity,
                            category_id: product.category_id,
                            low_stock_threshold: product.low_stock_threshold,
                            created_at: old(self).products@[k].created_at,
                        } && final(self).products@ == old(self).products@.update(k, p)
                    &&& final(self).next_product_id == old(self).next_product_id
                    &&& keeps_people(*old(self), *final(self))
                    &&& keeps_orders(*old(self), *final(self))
                    &&& keeps_sessions(*old(self), *final(self))
                },
            },
    {
        let k = match self.product_index(product.id) {
            Some(k) => k,
            None => {
                return Err(PosError::ProductNotFound(product.id));
            },
        };
        if product.price < 0 {
            return Err(PosError::InvalidPrice);
        }
        if product.quantity < 0 {
            return Err(PosError::InvalidStock);
        }
        let p = Product {
            id: product.id,
            name: product.name,
            price: product.price,
            quantity: product.quantity,
            category_id: product.category_id,
            low_stock_threshold: product.low_stock_threshold,
            created_at: self.products[k].created_at,
        };
        let ghost prev = self.products@;
        self.products.set(k, p.clone());
        proof {
            let ps = self.products@;
            assert forall|i: int| 0 <= i < ps.len() implies {
                &&& (#[trigger] ps[i]).quantity >= 0
                &&& ps[i].price >= 0
                &&& 1 <= ps[i].id < self.next_product_id
            } by {
                if i != k {
                    assert(ps[i] == prev[i]);
                }
            }
            assert forall|i: int, j: int|
                0 <= i < ps.len() && 0 <= j < ps.len() && #[trigger] ps[i].id == #[trigger] ps[j].id
                    implies i == j by {
                assert(ps[i].id == prev[i].id);
                assert(ps[j].id == prev[j].id);
            }
        }
        Ok(p)
    }

    /// Removes a product from the catalogue, if it is there. Items already sold keep
    /// their captured price.
    pub fn delete_product(&mut self, id: i64)
        requires
            old(self).wf(),
        ensures
            final(self).wf(),
            removed_by_id(old(self).products@, final(self).products@, product_key(), id),
            final(self).next_product_id == old(self).next_product_id,
            keeps_people(*old(self), *final(self)),
            keeps_orders(*old(self), *final(self)),
            keeps_sessions(*old(self), *final(self)),
    {
        match self.product_index(id) {
            Some(k) => {
                let ghost prev = self.products@;
                self.products.remove(k);
                proof {
                    let ps = self.products@;
                    assert forall|i: int| 0 <= i < ps.len() implies {
                        &&& (#[trigger] ps[i]).quantity >= 0
                        &&& ps[i].price >= 0
                        &&& 1 <= ps[i].id < self.next_product_id
                    } by {
                        let i2 = if i < k { i } else { i + 1 };
                        assert(ps[i] == prev[i2]);
                    }
                    assert forall|i: int, j: int|
                        0 <= i < ps.len() && 0 <= j < ps.len() && #[trigger] ps[i].id
                            == #[trigger] ps[j].id implies i == j by {
                        let i2 = if i < k { i } else { i + 1 };
                        let j2 = if j < k { j } else { j + 1 };
                        assert(ps[i] == prev[i2]);
                        assert(ps[j] == prev[j2]);
                    }
                    assert(product_key()(prev[k as int]) == id);
                }
            },
            None => {},
        }
    }

    /// Every staff member, by name.
    pub fn get_staff(&self) -> (r: Vec<Staff>)
        ensures
            staff_by_name(r@),
            r@.to_multiset() == self.staff@.to_multiset(),
    {
        let ghost xs = self.staff@;
        let mut r: Vec<Staff> = Vec::new();
        let mut i: usize = 0;
        proof {
            assert(xs.take(0) =~= Seq::<Staff>::empty());
        }
        while i < self.staff.len()
            invariant
                xs == self.staff@,
                i <= xs.len(),
                staff_by_name(r@),
                r@.to_multiset() == xs.take(i as int).to_multiset(),
            decreases xs.len() - i,
        {
            let x = self.staff[i].clone();
            let mut p: usize = 0;
            while p < r.len() && name_before(&r[p].name, &x.name)
                invariant
                    p <= r@.len(),
                    forall|j: int| 0 <= j < p ==> name_le((#[trigger] r@[j]).name@, x.name@),
                decreases r@.len() - p,
            {
                p = p + 1;
            }
            let ghost prev = r@;
            proof {
                assert forall|j: int| p <= j < prev.len() implies name_le(x.name@, (#[trigger] prev[j]).name@) by {
                    lemma_name_le_total(prev[p as int].name@, x.name@);
                    if j > p {
                        lemma_name_le_trans(x.name@, prev[p as int].name@, prev[j].name@);
                    }
                }
            }
            r.insert(p, x);
            proof {
                let cur = r@;
                assert forall|a: int, b: int| 0 <= a < b < cur.len() implies name_le((#[trigger] cur[a]).name@, (#[trigger] cur[b]).name@) by {
                    if a < p && b < p {
                        assert(cur[a] == prev[a]);
                        assert(cur[b] == prev[b]);
                    } else if a < p && b == p {
                        assert(cur[a] == prev[a]);
                    } else if a < p {
                        assert(cur[a] == prev[a]);
                        assert(cur[b] == prev[b - 1]);
                        lemma_name_le_trans(prev[a].name@, x.name@, prev[b - 1].name@);
                    } else if a == p {
                        assert(cur[b] == prev[b - 1]);
                    } else {
                        assert(cur[a] == prev[a - 1]);
                        assert(cur[b] == prev[b - 1]);
                    }
                }
                to_multiset_insert(prev, p as int, x);
                assert(xs.take(i + 1) =~= xs.take(i as int).push(xs[i as int]));
                to_multiset_build(xs.take(i as int), xs[i as int]);
            }
            i = i + 1;
        }
        proof {
            assert(xs.take(i as int) =~= xs);
        }
        r
    }

    /// Adds a staff member; names are unique.
    pub fn create_staff(&mut self, staff: CreateStaff, now: u64) -> (r: Result<Staff, PosError>)
        requires
            old(self).wf(),
        ensures
            final(self).wf(),
            match r {
                Err(e) => *final(self) == *old(self) && if staff_named(
                    old(self).staff@,
                    staff.name@,
                ) {
                    e == PosError::DuplicateName
                } else {
                    e == PosError::IdsExhausted && old(self).next_staff_id == i64::MAX
                },
                Ok(s) => {
                    &&& !staff_named(old(self).staff@, staff.name@)
                    &&& s == Staff {
                        id: old(self).next_staff_id,
                        name: staff.name,
                        pin: staff.pin,
                        created_at: now,
                    }
                    &&& final(self).staff@ == old(self).staff@.push(s)
                    &&& final(self).next_staff_id == old(self).next_staff_id + 1
                    &&& final(self).categories == old(self).categories
                    &&& final(self).next_category_id == old(self).next_category_id
                    &&& final(self).products == old(self).products
                    &&& final(self).next_product_id == old(self).next_product_id
                    &&& keeps_orders(*old(self), *final(self))
                    &&& keeps_sessions(*old(self), *final(self))
                },
            },
    {
        if self.staff_name_taken(&staff.name) {
            return Err(PosError::DuplicateName);
        }
        if self.next_staff_id == i64::MAX {
            return Err(PosError::IdsExhausted);
        }
        let s = Staff { id: self.next_staff_id, name: staff.name, pin: staff.pin, created_at: now };
        proof {
            lemma_ids_wf_push(self.staff@, s, staff_key(), self.next_staff_id);
        }
        self.staff.push(s.clone());
        self.next_staff_id = self.next_staff_id + 1;
        Ok(s)
    }

    /// Removes a staff member, refused while any order was taken by them.
    pub fn delete_staff(&mut self, id: i64) -> (r: Result<(), PosError>)
        requires
            old(self).wf(),
        ensures
            final(self).wf(),
            match r {
                Err(e) => *final(self) == *old(self) && e == PosError::StaffHasOrders(id) && exists|
                    k: int,
                | 0 <= k < old(self).orders@.len() && #[trigger] old(self).orders@[k].staff_id
                    == id,
                Ok(()) => {
                    &&& forall|k: int|
                        0 <= k < old(self).orders@.len() ==> #[trigger] old(self).orders@[k].staff_id
                            != id
                    &&& removed_by_id(old(self).staff@, final(self).staff@, staff_key(), id)
                    &&& final(self).next_staff_id == old(self).next_staff_id
                    &&& final(self).categories == old(self).categories
                    &&& final(self).next_category_id == old(self).next_category_id
                    &&& final(self).products == old(self).products
                    &&& final(self).next_product_id == old(self).next_product_id
                    &&& keeps_orders(*old(self), *final(self))
                    &&& keeps_sessions(*old(self), *final(self))
                },
            },
    {
        if self.staff_has_orders(id) {
            return Err(PosError::StaffHasOrders(id));
        }
        match self.staff_index(id) {
            Some(k) => {
                proof {
                    lemma_ids_wf_remove(self.staff@, k as int, staff_key(), self.next_staff_id);
                    assert(staff_key()(self.staff@[k as int]) == id);
                }
                self.staff.remove(k);
                proof {
                    assert(self.staff@ == old(self).staff@.remove(k as int));
                    assert(removed_by_id(old(self).staff@, self.staff@, staff_key(), id));
                }
            },
            None => {},
        }
        Ok(())
    }

    /// Checks a staff member's PIN; one without a PIN is always let in.
    pub fn verify_staff_pin(&self, id: i64, pin: String) -> (r: Result<bool, PosError>)
        ensures
            match r {
                Err(e) => e == PosError::StaffNotFound(id) && forall|k: int|
                    0 <= k < self.staff@.len() ==> #[trigger] self.staff@[k].id != id,
                Ok(b) => exists|k: int|
                    0 <= k < self.staff@.len() && #[trigger] self.staff@[k].id == id && b
                        == match self.staff@[k].pin {
                        Some(p) => p@ == pin@,
                        None => true,
                    },
            },
    {
        match self.staff_index(id) {
            Some(k) => {
                let ok = match &self.staff[k].pin {
                    Some(p) => *p == pin,
                    None => true,
                };
                Ok(ok)
            },
            None => Err(PosError::StaffNotFound(id)),
        }
    }

    /// Every category, by name.
    pub fn get_categories(&self) -> (r: Vec<Category>)
        ensures
            categories_by_name(r@),
            r@.to_multiset() == self.categories@.to_multiset(),
    {
        let ghost xs = self.categories@;
        let mut r: Vec<Category> = Vec::new();
        let mut i: usize = 0;
        proof {
            assert(xs.take(0) =~= Seq::<Category>::empty());
        }
        while i < self.categories.len()
            invariant
                xs == self.categories@,
                i <= xs.len(),
                categories_by_name(r@),
                r@.to_multiset() == xs.take(i as int).to_multiset(),
            decreases xs.len() - i,
        {
            let x = self.categories[i].clone();
            let mut p: usize = 0;
            while p < r.len() && name_before(&r[p].name, &x.name)
                invariant
                    p <= r@.len(),
                    forall|j: int| 0 <= j < p ==> name_le((#[trigger] r@[j]).name@, x.name@),
                decreases r@.len() - p,
            {
                p = p + 1;
            }
            let ghost prev = r@;
            proof {
                assert forall|j: int| p <= j < prev.len() implies name_le(x.name@, (#[trigger] prev[j]).name@) by {
                    lemma_name_le_total(prev[p as int].name@, x.name@);
                    if j > p {
                        lemma_name_le_trans(x.name@, prev[p as int].name@, prev[j].name@);
                    }
                }
            }
            r.insert(p, x);
            proof {
                let cur = r@;
                assert forall|a: int, b: int| 0 <= a < b < cur.len() implies name_le((#[trigger] cur[a]).name@, (#[trigger] cur[b]).name@) by {
                    if a < p && b < p {
                        assert(cur[a] == prev[a]);
                        assert(cur[b] == prev[b]);
                    } else if a < p && b == p {
                        assert(cur[a] == prev[a]);
                    } else if a < p {
                        assert(cur[a] == prev[a]);
                        assert(cur[b] == prev[b - 1]);
                        lemma_name_le_trans(prev[a].name@, x.name@, prev[b - 1].name@);
                    } else if a == p {
                        assert(cur[b] == prev[b - 1]);
                    } else {
                        assert(cur[a] == prev[a - 1]);
                        assert(cur[b] == prev[b - 1]);
                    }
                }
                to_multiset_insert(prev, p as int, x);
                assert(xs.take(i + 1) =~= xs.take(i as int).push(xs[i as int]));
                to_multiset_build(xs.take(i as int), xs[i as int]);
            }
            i = i + 1;
        }
        proof {
            assert(xs.take(i as int) =~= xs);
        }
        r
    }

    /// Adds a category; names are unique.
    pub fn create_category(&mut self, name: String) -> (r: Result<Category, PosError>)
        requires
            old(self).wf(),
        ensures
            final(self).wf(),
            match r {
                Err(e) => *final(self) == *old(self) && if category_named(
                    old(self).categories@,
                    name@,
                ) {
                    e == PosError::DuplicateName
                } else {
                    e == PosError::IdsExhausted && old(self).next_category_id == i64::MAX
                },
                Ok(c) => {
                    &&& !category_named(old(self).categories@, name@)
                    &&& c == Category { id: old(self).next_category_id, name }
                    &&& final(self).categories@ == old(self).categories@.push(c)
                    &&& final(self).next_category_id == old(self).next_category_id + 1
                    &&& final(self).staff == old(self).staff
                    &&& final(self).next_staff_id == old(self).next_staff_id
                    &&& final(self).products == old(self).products
                    &&& final(self).next_product_id == old(self).next_product_id
                    &&& keeps_orders(*old(self), *final(self))
                    &&& keeps_sessions(*old(self), *final(self))
                },
            },
    {
        if self.category_name_taken(&name) {
            return Err(PosError::DuplicateName);
        }
        if self.next_category_id == i64::MAX {
            return Err(PosError::IdsExhausted);
        }
        let c = Category { id: self.next_category_id, name };
        proof {
            lemma_ids_wf_push(self.categories@, c, category_key(), self.next_category_id);
        }
        self.categories.push(c.clone());
        self.next_category_id = self.next_category_id + 1;
        Ok(c)
    }

    /// Removes a category, if it is there; its products keep no category.
    pub fn delete_category(&mut self, id: i64)
        requires
            old(self).wf(),
        ensures
            final(self).wf(),
            removed_by_id(old(self).categories@, final(self).categories@, category_key(), id),
            final(self).products@.len() == old(self).products@.len(),
            forall|i: int|
                0 <= i < old(self).products@.len() ==> #[trigger] final(self).products@[i] == if old(
                    self,
                ).products@[i].category_id == Some(id) {
                    Product { category_id: None, ..old(self).products@[i] }
                } else {
                    old(self).products@[i]
                },
            final(self).next_category_id == old(self).next_category_id,
            final(self).staff == old(self).staff,
            final(self).next_staff_id == old(self).next_staff_id,
            final(self).next_product_id == old(self).next_product_id,
            keeps_orders(*old(self), *final(self)),
            keeps_sessions(*old(self), *final(self)),
    {
        let ghost before = *self;
        let mut i: usize = 0;
        while i < self.products.len()
            invariant
                i <= self.products@.len(),
                before.wf(),
                self.products@.len() == before.products@.len(),
                forall|k: int|
                    0 <= k < self.products@.len() ==> #[trigger] self.products@[k] == if k < i
                        && before.products@[k].category_id == Some(id) {
                        Product { category_id: None, ..before.products@[k] }
                    } else {
                        before.products@[k]
                    },
                self.categories == before.categories,
                self.staff == before.staff,
                self.orders == before.orders,
                self.items == before.items,
                self.sessions == before.sessions,
                self.next_category_id == before.next_category_id,
                self.next_product_id == before.next_product_id,
                self.next_staff_id == before.next_staff_id,
                self.next_order_id == before.next_order_id,
                self.next_item_id == before.next_item_id,
                self.next_session_id == before.next_session_id,
            decreases self.products@.len() - i,
        {
            if self.products[i].category_id == Some(id) {
                let mut p = self.products[i].clone();
                p.category_id = None;
                self.products.set(i, p);
            }
            i = i + 1;
        }
        proof {
            let ps = self.products@;
            let prev = before.products@;
            assert forall|a: int| 0 <= a < ps.len() implies {
                &&& (#[trigger] ps[a]).quantity >= 0
                &&& ps[a].price >= 0
                &&& 1 <= ps[a].id < self.next_product_id
            } by {
                assert(ps[a].quantity == prev[a].quantity && ps[a].id == prev[a].id);
            }
            assert forall|a: int, b: int|
                0 <= a < ps.len() && 0 <= b < ps.len() && #[trigger] ps[a].id == #[trigger] ps[b].id
                    implies a == b by {
                assert(ps[a].id == prev[a].id);
                assert(ps[b].id == prev[b].id);
            }
        }
        match self.category_index(id) {
            Some(k) => {
                proof {
                    lemma_ids_wf_remove(self.categories@, k as int, category_key(), self.next_category_id);
                    assert(category_key()(self.categories@[k as int]) == id);
                }
                self.categories.remove(k);
                proof {
                    assert(self.categories@ == old(self).categories@.remove(k as int));
                    assert(removed_by_id(old(self).categories@, self.categories@, category_key(), id));
                }
            },
            None => {},
        }
    }
}

} // verus!
