//! Records kept by the till: catalogue entries, orders, their items and day sessions.
//!
//! Money is held in integer cents and moments in whole seconds of local wall-clock
//! time; a calendar date is the number of whole days since the epoch.
use vstd::prelude::*;

verus! {

/// Seconds in one calendar day.
pub const SECONDS_PER_DAY: u64 = 86400;

/// The calendar day (days since the epoch) that a moment falls on.
pub open spec fn day_of(t: u64) -> u64 {
    t / SECONDS_PER_DAY
}

pub struct Category {
    pub id: i64,
    pub name: String,
}

pub struct Staff {
    pub id: i64,
    pub name: String,
    pub pin: Option<String>,
    pub created_at: u64,
}

pub struct CreateStaff {
    pub name: String,
    pub pin: Option<String>,
}

/// A sellable product. `price` is in cents; `quantity` is the stock on hand.
pub struct Product {
    pub id: i64,
    pub name: String,
    pub price: i64,
    pub quantity: i64,
    pub category_id: Option<i64>,
    pub low_stock_threshold: i64,
    pub created_at: u64,
}

pub struct CreateProduct {
    pub name: String,
    pub price: i64,
    pub quantity: i64,
    pub category_id: Option<i64>,
    pub low_stock_threshold: Option<i64>,
}

pub struct UpdateProduct {
    pub id: i64,
    pub name: String,
    pub price: i64,
    pub quantity: i64,
    pub category_id: Option<i64>,
    pub low_stock_threshold: i64,
}

#[derive(Clone, Copy, Debug, PartialEq, Eq, Structural)]
pub enum OrderStatus {
    Open,
    Paid,
}

/// A table's tab. `total` is in cents.
pub struct Order {
    pub id: i64,
    pub staff_id: i64,
    pub table_number: i32,
    pub total: i64,
    pub customer_name: Option<String>,
    pub notes: Option<String>,
    pub status: OrderStatus,
    pub session_id: Option<i64>,
    pub created_at: u64,
}

/// One line of an order; `price_at_sale` is the unit price in cents captured when
/// the line was created.
#[derive(Clone, Copy, Debug, PartialEq, Eq, Structural)]
pub struct OrderItem {
    pub id: i64,
    pub order_id: i64,
    pub product_id: i64,
    pub quantity: i64,
    pub price_at_sale: i64,
}

#[derive(Clone, Copy, Debug, PartialEq, Eq, Structural)]
pub struct CreateOrderItem {
    pub product_id: i64,
    pub quantity: i32,
}

pub struct CreateOrder {
    pub staff_id: i64,
    pub table_number: i32,
    pub customer_name: Option<String>,
    pub notes: Option<String>,
    pub items: Vec<CreateOrderItem>,
}

pub struct OrderWithItems {
    pub order: Order,
    pub items: Vec<OrderItem>,
}

/// A business day session. `date` is a day number; the totals are frozen at close.
#[derive(Clone, Copy, Debug, PartialEq, Eq, Structural)]
pub struct DaySession {
    pub id: i64,
    pub date: Option<u64>,
    pub started_by: i64,
    pub started_at: u64,
    pub closed_at: Option<u64>,
    pub is_active: bool,
    pub total_revenue: Option<i64>,
    pub total_orders: Option<u64>,
}

/// The orders of one session with their revenue (Σ total, in cents) and count.
pub struct DaySummary {
    pub date: Option<u64>,
    pub total_revenue: i64,
    pub total_orders: u64,
    pub orders: Vec<OrderWithItems>,
}

/// Everything recorded about a closed session, ready to be written out as a backup.
pub struct SessionSnapshot {
    pub session_id: i64,
    pub date: Option<u64>,
    pub session_started_at: u64,
    pub closed_at: Option<u64>,
    pub total_revenue: Option<i64>,
    pub total_orders: Option<u64>,
    pub orders: Vec<OrderWithItems>,
}

/// Why an operation on the till was refused.
#[derive(Clone, Copy, Debug, PartialEq, Eq, Structural)]
pub enum PosError {
    /// No day session is active, so no order can be taken.
    DayNotStarted,
    SessionAlreadyActive,
    NoActiveSession,
    /// The active session has no orders at all.
    EmptySession,
    /// This many orders of the active session are still open.
    OpenOrdersRemain(u64),
    ProductNotFound(i64),
    /// A requested quantity below one.
    InvalidQuantity { product_id: i64, quantity: i64 },
    InsufficientStock { product_id: i64, requested: i64, available: i64 },
    OrderNotFound(i64),
    /// The order is already paid and its items can no longer change.
    OrderClosed(i64),
    ItemNotFound(i64),
    NotFoundOrAlreadyPaid(i64),
    /// A negative price.
    InvalidPrice,
    /// A negative stock level.
    InvalidStock,
    /// The name is already taken.
    DuplicateName,
    StaffNotFound(i64),
    /// The staff member has taken orders and cannot be removed.
    StaffHasOrders(i64),
    /// A closed session already covers this day.
    ClosedSessionExists(u64),
    /// No order without a session was taken on this day.
    NoOrdersForDate(u64),
    /// An amount or a count does not fit its integer type.
    AmountOverflow,
    /// No fresh identifier is left.
    IdsExhausted,
}

/// Copies an optional text exactly.
pub fn copy_text(t: &Option<String>) -> (r: Option<String>)
    ensures
        r == *t,
{
    match t {
        Some(s) => Some(s.clone()),
        None => None,
    }
}

impl Clone for Order {
    fn clone(&self) -> (r: Self)
        ensures
            r == *self,
    {
        Order {
            id: self.id,
            staff_id: self.staff_id,
            table_number: self.table_number,
            total: self.total,
            customer_name: copy_text(&self.customer_name),
            notes: copy_text(&self.notes),
            status: self.status,
            session_id: self.session_id,
            created_at: self.created_at,
        }
    }
}

impl Clone for Product {
    fn clone(&self) -> (r: Self)
        ensures
            r == *self,
    {
        Product {
            id: self.id,
            name: self.name.clone(),
            price: self.price,
            quantity: self.quantity,
            category_id: self.category_id,
            low_stock_threshold: self.low_stock_threshold,
            created_at: self.created_at,
        }
    }
}

impl Clone for Staff {
    fn clone(&self) -> (r: Self)
        ensures
            r == *self,
    {
        Staff {
            id: self.id,
            name: self.name.clone(),
            pin: copy_text(&self.pin),
            created_at: self.created_at,
        }
    }
}

impl Clone for Category {
    fn clone(&self) -> (r: Self)
        ensures
            r == *self,
    {
        Category { id: self.id, name: self.name.clone() }
    }
}

} // verus!
