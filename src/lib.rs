pub mod bin;
pub mod guarantees;
pub mod layout;
pub mod model;
pub mod util;

pub use bin::Allocator;
pub use layout::{AllocErr, Layout};
