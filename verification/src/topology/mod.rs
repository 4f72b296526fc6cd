//! The parties, their links, and the all-gather over them.

pub mod bootstrap;
pub mod gather;
pub mod participant;
pub mod schedule;
pub mod tree;

pub use bootstrap::{BootstrapError, ConnectRetry, LinkTable};
pub use participant::{trim_end, Address, ParseError, Participant};
pub use schedule::{Exchange, Segment, Window};
pub use tree::Tree;
