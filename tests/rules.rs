use pub_inventory::{
    current_time, CreateOrder, CreateOrderItem, CreateProduct, CreateStaff, OrderStatus,
    OrderWithItems, PosError, Store, UpdateProduct, SECONDS_PER_DAY,
};

const DAY: u64 = 19737;
const NOW: u64 = DAY * SECONDS_PER_DAY + 18 * 3600;

fn add_product(s: &mut Store, name: &str, price: i64, quantity: i64) -> i64 {
    s.create_product(
        CreateProduct {
            name: name.to_string(),
            price,
            quantity,
            category_id: None,
            low_stock_threshold: None,
        },
        NOW,
    )
    .unwrap()
    .id
}

fn take(s: &mut Store, table: i32, lines: &[(i64, i32)]) -> Result<OrderWithItems, PosError> {
    let items = lines
        .iter()
        .map(|&(product_id, quantity)| CreateOrderItem { product_id, quantity })
        .collect();
    s.create_order(
        CreateOrder { staff_id: 1, table_number: table, customer_name: None, notes: None, items },
        NOW,
    )
}

fn open_session() -> Store {
    let mut s = Store::new();
    s.create_staff(CreateStaff { name: "Ana".to_string(), pin: None }, NOW).unwrap();
    s.start_day(1, NOW).unwrap();
    s
}

fn item_sum(s: &Store, order_id: i64) -> i64 {
    s.items
        .iter()
        .filter(|i| i.order_id == order_id)
        .map(|i| i.quantity * i.price_at_sale)
        .sum()
}

fn assert_consistent(s: &Store) {
    assert!(s.products.iter().all(|p| p.quantity >= 0));
    for o in s.orders.iter().filter(|o| o.status == OrderStatus::Open) {
        assert_eq!(o.total, item_sum(s, o.id));
    }
    assert!(s.sessions.iter().filter(|d| d.is_active).count() <= 1);
}

#[test]
fn exact_stock_then_nothing_left() {
    let mut s = open_session();
    let p = add_product(&mut s, "Stout", 450, 3);
    assert!(take(&mut s, 1, &[(p, 3)]).is_ok());
    assert_eq!(s.products[0].quantity, 0);
    assert_eq!(
        take(&mut s, 2, &[(p, 1)]).err(),
        Some(PosError::InsufficientStock { product_id: p, requested: 1, available: 0 })
    );
    assert_eq!(s.orders.len(), 1);
}

#[test]
fn day_with_one_paid_table() {
    let mut s = Store::new();
    s.create_staff(CreateStaff { name: "Ana".to_string(), pin: None }, NOW).unwrap();
    s.start_day(1, NOW).unwrap();
    let p = add_product(&mut s, "Platter", 2500, 10);
    let v = take(&mut s, 5, &[(p, 1)]).unwrap();
    assert_eq!(v.order.total, 2500);
    s.mark_order_paid(v.order.id).unwrap();
    let d = s.close_day(NOW + 60).unwrap();
    assert_eq!(d.total_revenue, Some(2500));
    assert_eq!(d.total_orders, Some(1));
    assert!(!d.is_active);
    assert_eq!(d.closed_at, Some(NOW + 60));
}

#[test]
fn close_refused_leaves_everything_as_it_was() {
    let mut s = open_session();
    let p = add_product(&mut s, "Lager", 500, 10);
    let v = take(&mut s, 1, &[(p, 2)]).unwrap();
    assert_eq!(s.close_day(NOW).err(), Some(PosError::OpenOrdersRemain(1)));
    assert!(s.is_day_active());
    let again = s.get_order(v.order.id).unwrap();
    assert_eq!(again.order.status, OrderStatus::Open);
    assert_eq!(again.order.total, 1000);
    assert_eq!(again.items.len(), 1);
}

#[test]
fn second_start_refused_without_new_session() {
    let mut s = open_session();
    assert_eq!(s.start_day(1, NOW + 5).err(), Some(PosError::SessionAlreadyActive));
    assert_eq!(s.sessions.len(), 1);
}

#[test]
fn invariants_hold_through_a_busy_session() {
    let mut s = open_session();
    let a = add_product(&mut s, "Lager", 500, 4);
    let b = add_product(&mut s, "Cider", 650, 2);
    let v = take(&mut s, 1, &[(a, 2), (b, 1)]).unwrap();
    assert_consistent(&s);
    s.add_items_to_order(v.order.id, vec![CreateOrderItem { product_id: a, quantity: 2 }]).unwrap();
    assert_consistent(&s);
    let cider = v.items[1].id;
    s.increase_item_quantity(cider).unwrap();
    assert_consistent(&s);
    assert_eq!(
        s.increase_item_quantity(cider).err(),
        Some(PosError::InsufficientStock { product_id: b, requested: 1, available: 0 })
    );
    s.decrease_item_quantity(v.items[0].id).unwrap();
    assert_consistent(&s);
    let w = take(&mut s, 2, &[(a, 1)]).unwrap();
    s.mark_order_paid(w.order.id).unwrap();
    assert_consistent(&s);
    assert_eq!(s.products[0].quantity, 0);
    assert_eq!(s.get_order(v.order.id).unwrap().order.total, 3 * 500 + 2 * 650);
}

#[test]
fn last_unit_of_last_item_deletes_the_order() {
    let mut s = open_session();
    let a = add_product(&mut s, "Lager", 500, 10);
    let b = add_product(&mut s, "Cider", 650, 10);
    let v = take(&mut s, 1, &[(a, 1), (b, 2)]).unwrap();
    let order_id = v.order.id;
    let kept = s.decrease_item_quantity(v.items[0].id).unwrap().unwrap();
    assert_eq!(kept.items.len(), 1);
    assert_eq!(kept.order.total, 1300);
    assert!(s.items.iter().all(|i| i.id != v.items[0].id));
    let kept = s.decrease_item_quantity(v.items[1].id).unwrap().unwrap();
    assert_eq!(kept.items[0].quantity, 1);
    assert!(s.decrease_item_quantity(v.items[1].id).unwrap().is_none());
    assert_eq!(s.get_order(order_id).err(), Some(PosError::OrderNotFound(order_id)));
    assert_eq!(s.products[0].quantity, 10);
    assert_eq!(s.products[1].quantity, 10);
}

#[test]
fn two_lines_of_one_product_share_its_stock() {
    let mut s = open_session();
    let p = add_product(&mut s, "Stout", 450, 3);
    assert_eq!(
        take(&mut s, 1, &[(p, 2), (p, 2)]).err(),
        Some(PosError::InsufficientStock { product_id: p, requested: 2, available: 1 })
    );
    assert_eq!(s.products[0].quantity, 3);
    assert!(s.orders.is_empty());
}

#[test]
fn whole_order_refused_when_one_line_fails() {
    let mut s = open_session();
    let p = add_product(&mut s, "Stout", 450, 3);
    assert_eq!(take(&mut s, 1, &[(p, 1), (99, 1)]).err(), Some(PosError::ProductNotFound(99)));
    assert_eq!(
        take(&mut s, 1, &[(p, 0)]).err(),
        Some(PosError::InvalidQuantity { product_id: p, quantity: 0 })
    );
    assert_eq!(s.products[0].quantity, 3);
    assert!(s.items.is_empty());
}

#[test]
fn orders_need_a_started_day() {
    let mut s = Store::new();
    let p = add_product(&mut s, "Stout", 450, 3);
    assert_eq!(take(&mut s, 1, &[(p, 1)]).err(), Some(PosError::DayNotStarted));
}

#[test]
fn price_is_captured_at_sale() {
    let mut s = open_session();
    let p = add_product(&mut s, "Stout", 450, 10);
    let v = take(&mut s, 1, &[(p, 2)]).unwrap();
    s.update_product(UpdateProduct {
        id: p,
        name: "Stout".to_string(),
        price: 900,
        quantity: 8,
        category_id: None,
        low_stock_threshold: 5,
    })
    .unwrap();
    let again = s.increase_item_quantity(v.items[0].id).unwrap();
    assert_eq!(again.items[0].price_at_sale, 450);
    assert_eq!(again.order.total, 1350);
}

#[test]
fn settled_orders_refuse_changes() {
    let mut s = open_session();
    let p = add_product(&mut s, "Stout", 450, 10);
    let v = take(&mut s, 1, &[(p, 2)]).unwrap();
    s.mark_order_paid(v.order.id).unwrap();
    assert_eq!(s.mark_order_paid(v.order.id).err(), Some(PosError::NotFoundOrAlreadyPaid(v.order.id)));
    assert_eq!(s.mark_order_paid(77).err(), Some(PosError::NotFoundOrAlreadyPaid(77)));
    assert_eq!(s.decrease_item_quantity(v.items[0].id).err(), Some(PosError::OrderClosed(v.order.id)));
    assert_eq!(s.increase_item_quantity(v.items[0].id).err(), Some(PosError::OrderClosed(v.order.id)));
    assert_eq!(s.decrease_item_quantity(404).err(), Some(PosError::ItemNotFound(404)));
    assert_eq!(s.add_items_to_order(404, vec![]).err(), Some(PosError::OrderNotFound(404)));
}

#[test]
fn catalogue_rules() {
    let mut s = Store::new();
    let bad_price = CreateProduct { name: "X".to_string(), price: -1, quantity: 1, category_id: None, low_stock_threshold: None };
    assert_eq!(s.create_product(bad_price, NOW).err(), Some(PosError::InvalidPrice));
    let bad_stock = CreateProduct { name: "X".to_string(), price: 1, quantity: -1, category_id: None, low_stock_threshold: None };
    assert_eq!(s.create_product(bad_stock, NOW).err(), Some(PosError::InvalidStock));
    let p = add_product(&mut s, "Stout", 450, 10);
    assert_eq!(s.products[0].low_stock_threshold, 5);
    let c = s.create_category("Beer".to_string()).unwrap();
    s.update_product(UpdateProduct { id: p, name: "Stout".to_string(), price: 450, quantity: 10, category_id: Some(c.id), low_stock_threshold: 5 })
        .unwrap();
    s.delete_category(c.id);
    assert!(s.get_categories().is_empty());
    assert_eq!(s.products[0].category_id, None);
    s.delete_product(p);
    assert!(s.get_products().is_empty());
}

#[test]
fn staff_with_orders_stay() {
    let mut s = open_session();
    let p = add_product(&mut s, "Stout", 450, 10);
    take(&mut s, 1, &[(p, 1)]).unwrap();
    assert_eq!(s.delete_staff(1).err(), Some(PosError::StaffHasOrders(1)));
    s.create_staff(CreateStaff { name: "Bo".to_string(), pin: None }, NOW).unwrap();
    assert!(s.delete_staff(2).is_ok());
    assert_eq!(s.get_staff().len(), 1);
}

#[test]
fn snapshot_holds_the_closed_session() {
    let mut s = open_session();
    let p = add_product(&mut s, "Stout", 450, 10);
    let v = take(&mut s, 3, &[(p, 2)]).unwrap();
    s.mark_order_paid(v.order.id).unwrap();
    let d = s.close_day(NOW + 30).unwrap();
    let snap = s.session_snapshot(d.id).unwrap();
    assert_eq!(snap.session_id, d.id);
    assert_eq!(snap.total_revenue, Some(900));
    assert_eq!(snap.total_orders, Some(1));
    assert_eq!(snap.closed_at, Some(NOW + 30));
    assert_eq!(snap.orders.len(), 1);
    assert_eq!(snap.orders[0].items.len(), 1);
    assert!(s.session_snapshot(99).is_none());
}

#[test]
fn sales_history_is_newest_first_and_limited() {
    let mut s = Store::new();
    s.create_staff(CreateStaff { name: "Ana".to_string(), pin: None }, NOW).unwrap();
    let p = add_product(&mut s, "Stout", 450, 100);
    for day in 0..3u64 {
        s.start_day(1, NOW + day * SECONDS_PER_DAY).unwrap();
        let v = take(&mut s, 1, &[(p, 1)]).unwrap();
        s.mark_order_paid(v.order.id).unwrap();
        s.close_day(NOW + day * SECONDS_PER_DAY + 60).unwrap();
    }
    let history = s.get_sales_history(Some(2));
    assert_eq!(history.len(), 2);
    assert_eq!(history[0].id, 3);
    assert_eq!(history[1].id, 2);
}

#[test]
fn summary_without_active_session_is_empty() {
    let s = Store::new();
    let d = s.get_day_summary(None, DAY).unwrap();
    assert_eq!(d.date, Some(DAY));
    assert_eq!(d.total_orders, 0);
    assert_eq!(d.total_revenue, 0);
}

#[test]
fn session_date_is_the_day_it_started() {
    let mut s = Store::new();
    let d = s.start_day(7, NOW).unwrap();
    assert_eq!(d.date, Some(DAY));
    assert_eq!(d.started_by, 7);
    assert_eq!(d.started_at, NOW);
    assert_eq!(d.total_revenue, None);
}

#[test]
fn clock_reads_the_present() {
    assert!(current_time() > 1_600_000_000);
}

#[test]
fn open_orders_come_by_table() {
    let mut s = open_session();
    let p = add_product(&mut s, "Stout", 450, 10);
    take(&mut s, 10, &[(p, 1)]).unwrap();
    take(&mut s, 1, &[(p, 1)]).unwrap();
    take(&mut s, 5, &[(p, 1)]).unwrap();
    let paid = take(&mut s, 3, &[(p, 1)]).unwrap();
    s.mark_order_paid(paid.order.id).unwrap();
    let tables: Vec<i32> = s.get_open_orders().iter().map(|v| v.order.table_number).collect();
    assert_eq!(tables, vec![1, 5, 10]);
}

fn take_at(s: &mut Store, table: i32, lines: &[(i64, i32)], at: u64) -> OrderWithItems {
    let items = lines
        .iter()
        .map(|&(product_id, quantity)| CreateOrderItem { product_id, quantity })
        .collect();
    s.create_order(
        CreateOrder { staff_id: 1, table_number: table, customer_name: None, notes: None, items },
        at,
    )
    .unwrap()
}

#[test]
fn listings_put_the_newest_first() {
    let mut s = open_session();
    let p = add_product(&mut s, "Stout", 450, 10);
    let late = take_at(&mut s, 1, &[(p, 1)], NOW + 600).order.id;
    let early = take_at(&mut s, 2, &[(p, 2)], NOW).order.id;
    let ids: Vec<i64> = s.get_orders_by_date_range(DAY, DAY).iter().map(|v| v.order.id).collect();
    assert_eq!(ids, vec![late, early]);
    let summary = s.get_day_summary(None, DAY).unwrap();
    assert_eq!(summary.orders[0].order.id, late);
    assert_eq!(summary.total_revenue, 1350);
    assert_eq!(summary.total_orders, 2);
    assert!(s.get_orders_by_date_range(DAY + 1, DAY + 3).is_empty());
    s.mark_order_paid(early).unwrap();
    let today: Vec<i64> = s.get_today_orders(DAY).iter().map(|v| v.order.id).collect();
    assert_eq!(today, vec![early, late]);
}

#[test]
fn history_and_low_stock_are_sorted() {
    let mut s = Store::new();
    s.create_staff(CreateStaff { name: "Ana".to_string(), pin: None }, NOW).unwrap();
    let p = add_product(&mut s, "Stout", 450, 100);
    add_product(&mut s, "Cider", 650, 2);
    add_product(&mut s, "Porter", 500, 1);
    let low: Vec<i64> = s.get_low_stock().iter().map(|x| x.quantity).collect();
    assert_eq!(low, vec![1, 2]);
    s.start_day(1, NOW).unwrap();
    let v = take_at(&mut s, 1, &[(p, 1)], NOW);
    s.mark_order_paid(v.order.id).unwrap();
    s.close_day(NOW + 9000).unwrap();
    s.start_day(1, NOW + 10000).unwrap();
    let v = take_at(&mut s, 1, &[(p, 1)], NOW + 10000);
    s.mark_order_paid(v.order.id).unwrap();
    s.close_day(NOW + 20000).unwrap();
    let history: Vec<i64> = s.get_sales_history(None).iter().map(|d| d.id).collect();
    assert_eq!(history, vec![2, 1]);
    assert!(s.get_sales_history(Some(0)).is_empty());
}

#[test]
fn empty_request_records_an_empty_tab() {
    let mut s = open_session();
    let v = take(&mut s, 4, &[]).unwrap();
    assert_eq!(v.order.total, 0);
    assert!(v.items.is_empty());
}

#[test]
fn catalogue_lists_by_name() {
    let mut s = Store::new();
    add_product(&mut s, "Stout", 450, 10);
    add_product(&mut s, "Cider", 650, 10);
    add_product(&mut s, "Ale", 500, 10);
    let names: Vec<String> = s.get_products().into_iter().map(|p| p.name).collect();
    assert_eq!(names, vec!["Ale", "Cider", "Stout"]);
    s.create_staff(CreateStaff { name: "John".to_string(), pin: None }, NOW).unwrap();
    s.create_staff(CreateStaff { name: "Jane".to_string(), pin: None }, NOW).unwrap();
    s.create_staff(CreateStaff { name: "Jan".to_string(), pin: None }, NOW).unwrap();
    let staff: Vec<String> = s.get_staff().into_iter().map(|st| st.name).collect();
    assert_eq!(staff, vec!["Jan", "Jane", "John"]);
    s.create_category("Wine".to_string()).unwrap();
    s.create_category("Beer".to_string()).unwrap();
    let cats: Vec<String> = s.get_categories().into_iter().map(|c| c.name).collect();
    assert_eq!(cats, vec!["Beer", "Wine"]);
}

#[test]
fn snapshot_lists_the_earliest_first() {
    let mut s = open_session();
    let p = add_product(&mut s, "Stout", 450, 10);
    let late = take_at(&mut s, 1, &[(p, 1)], NOW + 600).order.id;
    let early = take_at(&mut s, 2, &[(p, 1)], NOW).order.id;
    s.mark_order_paid(late).unwrap();
    s.mark_order_paid(early).unwrap();
    let d = s.close_day(NOW + 900).unwrap();
    let ids: Vec<i64> = s.session_snapshot(d.id).unwrap().orders.iter().map(|v| v.order.id).collect();
    assert_eq!(ids, vec![early, late]);
}
