use vstd::prelude::*;

pub mod computed;
pub mod context;
pub mod effect;
pub mod signal;

pub use computed::{computed, Computed};
pub use context::ReactiveContext;
pub use effect::{effect, Effect};
pub use signal::{signal, Signal};

verus! {

} // verus!
