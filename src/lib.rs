//! A point-of-sale till: stock, table orders and day sessions, with the
//! invariants that keep them consistent proved for every operation.
pub mod catalog;
pub mod clock;
pub mod inventory;
pub mod laws;
pub mod ledger;
pub mod model;
pub mod names;
pub mod session;
pub mod store;

pub use clock::current_time;
pub use model::{
    Category, CreateOrder, CreateOrderItem, CreateProduct, CreateStaff, DaySession, DaySummary, Order,
    OrderItem, OrderStatus, OrderWithItems, PosError, Product, SessionSnapshot, Staff,
    UpdateProduct, SECONDS_PER_DAY,
};
pub use store::Store;
