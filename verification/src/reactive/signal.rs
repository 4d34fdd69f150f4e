use vstd::prelude::*;

use super::context::{
    next_signal_id, state_after_track_signal, triggered, ContextState, EffectId, ReactiveContext,
};

verus! {

/// A reactive value (like Vue 3's `ref()`).
/// Wraps a value and reports the effects to notify when the value changes.
pub struct Signal<T> {
    value: T,
    id: usize,
}

impl<T> Signal<T> {
    /// The current value.
    pub closed spec fn spec_value(&self) -> T {
        self.value
    }

    /// The signal's identifier, used for dependency tracking.
    pub closed spec fn spec_id(&self) -> usize {
        self.id
    }

    /// The signal once `v` is written to it.
    pub closed spec fn written(self, v: T) -> Signal<T> {
        Signal { value: v, id: self.id }
    }

    /// Create a new signal with the given initial value; it receives the
    /// context's next signal identifier.
    pub fn new(value: T, ctx: &mut ReactiveContext) -> (s: Signal<T>)
        ensures
            s.spec_value() == value,
            s.spec_id() == old(ctx)@.next_signal,
            final(ctx)@ == (ContextState { next_signal: next_signal_id(old(ctx)@.next_signal), ..old(ctx)@ }),
            old(ctx)@.next_signal < usize::MAX ==> s.spec_id() < final(ctx)@.next_signal,
    {
        let id = ctx.new_signal_id();
        Signal { value, id }
    }

    /// Get the current value. Registers the current effect as a dependency.
    pub fn get<'a>(&'a self, ctx: &mut ReactiveContext) -> (v: &'a T)
        ensures
            *v == self.spec_value(),
            final(ctx)@ == state_after_track_signal(old(ctx)@, self.spec_id()),
    {
        ctx.track_signal(self.id);
        &self.value
    }

    /// Set a new value; returns the dependent effects to re-run.
    pub fn set(&mut self, new_value: T, ctx: &ReactiveContext) -> (effects: Vec<EffectId>)
        ensures
            *final(self) == old(self).written(new_value),
            final(self).spec_value() == new_value,
            final(self).spec_id() == old(self).spec_id(),
            effects@ == triggered(ctx@, old(self).spec_id()),
    {
        self.value = new_value;
        ctx.trigger_effects(self.id)
    }

    /// Update the value from the current one using a closure; returns the
    /// dependent effects to re-run.
    pub fn update<F: FnOnce(&T) -> T>(&mut self, f: F, ctx: &ReactiveContext) -> (effects: Vec<EffectId>)
        requires
            f.requires((&old(self).spec_value(),)),
        ensures
            f.ensures((&old(self).spec_value(),), final(self).spec_value()),
            *final(self) == old(self).written(final(self).spec_value()),
            final(self).spec_id() == old(self).spec_id(),
            effects@ == triggered(ctx@, old(self).spec_id()),
    {
        let new_value = f(&self.value);
        self.value = new_value;
        ctx.trigger_effects(self.id)
    }

    /// Get the signal ID (used for dependency tracking).
    pub fn id(&self) -> (id: usize)
        ensures
            id == self.spec_id(),
    {
        self.id
    }
}

impl<T: Clone> Signal<T> {
    /// Get a cloned copy of the value. Registers the current effect as a dependency.
    pub fn get_clone(&self, ctx: &mut ReactiveContext) -> (v: T)
        ensures
            cloned(self.spec_value(), v),
            final(ctx)@ == state_after_track_signal(old(ctx)@, self.spec_id()),
    {
        self.get(ctx).clone()
    }

    /// Create a signal from another one's current value, tracking the other
    /// as a dependency.
    pub fn from_ref(signal: &Signal<T>, ctx: &mut ReactiveContext) -> (s: Signal<T>)
        ensures
            cloned(signal.spec_value(), s.spec_value()),
            s.spec_id() == old(ctx)@.next_signal,
            signal.spec_id() < old(ctx)@.next_signal ==> s.spec_id() != signal.spec_id(),
            final(ctx)@ == ({
                let t = state_after_track_signal(old(ctx)@, signal.spec_id());
                ContextState { next_signal: next_signal_id(t.next_signal), ..t }
            }),
    {
        let val = signal.get_clone(ctx);
        Signal::new(val, ctx)
    }
}

/// A read gives back what the last write wrote: writing `v` makes `v` the
/// value, keeps the signal's identifier, and a later write replaces an
/// earlier one.
pub proof fn lemma_read_after_write<T>(s: Signal<T>, v: T, w: T)
    ensures
        s.written(v).spec_value() == v,
        s.written(v).spec_id() == s.spec_id(),
        s.written(v).written(w) == s.written(w),
{
}

/// Signal identifiers are fresh: while the context's counter has not
/// wrapped, a signal it named earlier (its identifier is below the counter)
/// differs from the one it names next, and stays below the counter after.
pub proof fn lemma_signal_ids_fresh<T>(earlier: Signal<T>, s: ContextState)
    requires
        earlier.spec_id() < s.next_signal,
        s.next_signal < usize::MAX,
    ensures
        earlier.spec_id() != s.next_signal,
        earlier.spec_id() < next_signal_id(s.next_signal),
        s.next_signal < next_signal_id(s.next_signal),
{
}

/// Create a new signal (convenience function).
pub fn signal<T>(value: T, ctx: &mut ReactiveContext) -> (s: Signal<T>)
    ensures
        s.spec_value() == value,
        s.spec_id() == old(ctx)@.next_signal,
        final(ctx)@ == (ContextState { next_signal: next_signal_id(old(ctx)@.next_signal), ..old(ctx)@ }),
        old(ctx)@.next_signal < usize::MAX ==> s.spec_id() < final(ctx)@.next_signal,
{
    Signal::new(value, ctx)
}

} // verus!
