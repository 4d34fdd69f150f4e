use vstd::prelude::*;

use super::context::{inputs, state_after_run_effect, state_after_track_signals, EffectId, ReactiveContext};

verus! {

/// A computed value (like Vue 3's `computed()`): a cached result of the
/// host's computation, marked dirty until it is first refreshed, and kept
/// current by a registered effect that recomputes it when its dependencies
/// change.
pub struct Computed<T> {
    value: T,
    dirty: bool,
    effect_id: EffectId,
}

impl<T> Computed<T> {
    /// The cached value.
    pub closed spec fn spec_value(&self) -> T {
        self.value
    }

    /// Whether the cached value must be recomputed before use.
    pub closed spec fn spec_dirty(&self) -> bool {
        self.dirty
    }

    /// The identifier of the effect that recomputes the value.
    pub closed spec fn spec_effect_id(&self) -> EffectId {
        self.effect_id
    }

    /// Create a computed value whose computation first gave `initial`. It
    /// registers the recomputing effect (which the host runs at once under
    /// tracking to establish the dependencies) and starts dirty.
    pub fn new(initial: T, ctx: &mut ReactiveContext) -> (c: Computed<T>)
        requires
            old(ctx)@.effect_count < usize::MAX,
        ensures
            c.spec_value() == initial,
            c.spec_dirty(),
            c.spec_effect_id() == old(ctx)@.effect_count,
            final(ctx)@ == state_after_run_effect(old(ctx)@),
    {
        let effect_id = ctx.run_effect();
        Computed { value: initial, dirty: true, effect_id }
    }

    /// Get the computed value, making the current effect depend on the
    /// signals the computation read (its recomputing effect's last tracked
    /// run). Returns `None` when the value is dirty: the host then recomputes
    /// it and stores it with [`Computed::refresh`].
    pub fn get<'a>(&'a self, ctx: &mut ReactiveContext) -> (v: Option<&'a T>)
        ensures
            v is None <==> self.spec_dirty(),
            v matches Some(x) ==> *x == self.spec_value(),
            final(ctx)@ == state_after_track_signals(old(ctx)@, inputs(old(ctx)@, self.spec_effect_id())),
    {
        ctx.track_inputs_of(self.effect_id);
        if self.dirty {
            None
        } else {
            Some(&self.value)
        }
    }

    /// Store a freshly computed value; the value is no longer dirty.
    pub fn refresh(&mut self, value: T)
        ensures
            final(self).spec_value() == value,
            !final(self).spec_dirty(),
            final(self).spec_effect_id() == old(self).spec_effect_id(),
    {
        self.value = value;
        self.dirty = false;
    }

    /// The identifier of the effect that recomputes the value.
    pub fn effect_id(&self) -> (id: EffectId)
        ensures
            id == self.spec_effect_id(),
    {
        self.effect_id
    }
}

/// Create a new computed value (convenience function).
pub fn computed<T>(initial: T, ctx: &mut ReactiveContext) -> (c: Computed<T>)
    requires
        old(ctx)@.effect_count < usize::MAX,
    ensures
        c.spec_value() == initial,
        c.spec_dirty(),
        c.spec_effect_id() == old(ctx)@.effect_count,
        final(ctx)@ == state_after_run_effect(old(ctx)@),
{
    Computed::new(initial, ctx)
}

} // verus!
