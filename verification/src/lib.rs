//! A verified seat-allocation engine: a fixed venue layout, a seat inventory
//! with a Free/Held/Booked lifecycle, a multi-phase search that turns a
//! requested quantity and scope into ranked candidate seat groupings, and a
//! per-client session state machine that holds, books and releases seats.

pub mod layout;
pub mod store;
pub mod finder;
pub mod session;
pub mod protocol;
