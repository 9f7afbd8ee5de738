//! The two todo page components: the pure list rendering and the detail
//! page with its fetch state machine.

pub mod detail;
pub mod list;
