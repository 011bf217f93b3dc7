//! A personal chronological event log: partial-precision calendar dates, a
//! tolerant textual date grammar, events with free-text descriptions, and a
//! store that keeps events sorted by date and answers range and substring
//! queries.

pub mod date;
pub mod event;
pub mod text;
pub mod worldline;

pub use date::Date;
pub use date::WlError;
pub use event::Event;
pub use worldline::WorldLine;
