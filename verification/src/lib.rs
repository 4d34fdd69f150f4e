use vstd::prelude::*;

pub mod app;
pub mod node;
pub mod reactive;
pub mod template;

// The most commonly used types
pub use app::App;
pub use node::VNode;
pub use reactive::{computed, effect, signal, Computed, Effect, Signal};

verus! {

} // verus!
