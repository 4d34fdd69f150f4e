use vstd::prelude::*;

use super::context::{state_after_run_effect, EffectId, ReactiveContext};

verus! {

/// An effect (like Vue 3's `watchEffect()`): a registered closure that the
/// host runs under tracking, and re-runs whenever a tracked signal changes.
pub struct Effect {
    effect_id: EffectId,
}

impl Effect {
    /// The effect's identifier.
    pub closed spec fn spec_id(&self) -> EffectId {
        self.effect_id
    }

    /// Register a new effect. The host keeps its closure under the returned
    /// effect's identifier and runs it at once under
    /// [`ReactiveContext::track_effect`] to establish its dependencies.
    pub fn new(ctx: &mut ReactiveContext) -> (e: Effect)
        requires
            old(ctx)@.effect_count < usize::MAX,
        ensures
            e.spec_id() == old(ctx)@.effect_count,
            final(ctx)@ == state_after_run_effect(old(ctx)@),
    {
        let effect_id = ctx.run_effect();
        Effect { effect_id }
    }

    /// Get the effect ID.
    pub fn id(&self) -> (id: EffectId)
        ensures
            id == self.spec_id(),
    {
        self.effect_id
    }
}

/// Create a new effect (convenience function).
pub fn effect(ctx: &mut ReactiveContext) -> (e: Effect)
    requires
        old(ctx)@.effect_count < usize::MAX,
    ensures
        e.spec_id() == old(ctx)@.effect_count,
        final(ctx)@ == state_after_run_effect(old(ctx)@),
{
    Effect::new(ctx)
}

} // verus!
