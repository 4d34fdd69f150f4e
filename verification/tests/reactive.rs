use rue_core::reactive::{computed, effect, signal, Computed, Effect, ReactiveContext, Signal};

#[test]
fn signals_are_numbered_in_order() {
    let mut ctx = ReactiveContext::new();
    let a = signal(1, &mut ctx);
    let b = Signal::new("two", &mut ctx);
    let c = signal(3.5f64, &mut ctx);
    assert_eq!(a.id(), 0);
    assert_eq!(b.id(), 1);
    assert_eq!(c.id(), 2);
}

#[test]
fn effects_are_numbered_in_order() {
    let mut ctx = ReactiveContext::new();
    let e0 = effect(&mut ctx);
    let e1 = Effect::new(&mut ctx);
    let e2 = ctx.run_effect();
    assert_eq!(e0.id(), 0);
    assert_eq!(e1.id(), 1);
    assert_eq!(e2, 2);
}

#[test]
fn read_then_write_reads_back_the_write() {
    let mut ctx = ReactiveContext::new();
    let mut s = signal(1, &mut ctx);
    assert_eq!(*s.get(&mut ctx), 1);
    s.set(5, &ctx);
    assert_eq!(*s.get(&mut ctx), 5);
    assert_eq!(s.get_clone(&mut ctx), 5);
}

#[test]
fn update_applies_the_closure_to_the_current_value() {
    let mut ctx = ReactiveContext::new();
    let mut s = signal(20, &mut ctx);
    s.update(|v: &i32| v + 1, &ctx);
    assert_eq!(*s.get(&mut ctx), 21);
}

#[test]
fn a_read_inside_a_tracked_run_makes_a_dependency() {
    let mut ctx = ReactiveContext::new();
    let mut count = signal(0, &mut ctx);
    let other = signal(0, &mut ctx);
    let e = effect(&mut ctx);
    let prev = ctx.track_effect(e.id());
    assert_eq!(prev, None);
    assert_eq!(ctx.current_effect(), Some(e.id()));
    let _ = count.get(&mut ctx);
    ctx.finish_tracking(prev);
    assert_eq!(ctx.current_effect(), None);

    assert_eq!(ctx.get_dependent_effects(count.id()), vec![e.id()]);
    assert_eq!(ctx.get_dependent_effects(other.id()), Vec::<usize>::new());
    // Setting the signal reports the effect to re-run.
    assert_eq!(count.set(1, &ctx), vec![e.id()]);
    assert_eq!(ctx.trigger_effects(other.id()), Vec::<usize>::new());
}

#[test]
fn reads_outside_any_effect_are_not_tracked() {
    let mut ctx = ReactiveContext::new();
    let mut s = signal(0, &mut ctx);
    let _e = effect(&mut ctx);
    let _ = s.get(&mut ctx);
    assert_eq!(s.set(1, &ctx), Vec::<usize>::new());
}

#[test]
fn a_rerun_forgets_the_previous_dependencies() {
    let mut ctx = ReactiveContext::new();
    let a = signal(0, &mut ctx);
    let b = signal(0, &mut ctx);
    let e = effect(&mut ctx);
    let prev = ctx.track_effect(e.id());
    let _ = a.get(&mut ctx);
    ctx.finish_tracking(prev);
    assert_eq!(ctx.trigger_effects(a.id()), vec![e.id()]);

    // The second run reads only `b`.
    let prev = ctx.track_effect(e.id());
    let _ = b.get(&mut ctx);
    ctx.finish_tracking(prev);
    assert_eq!(ctx.trigger_effects(a.id()), Vec::<usize>::new());
    assert_eq!(ctx.trigger_effects(b.id()), vec![e.id()]);
}

#[test]
fn repeated_reads_are_recorded_once() {
    let mut ctx = ReactiveContext::new();
    let s = signal(0, &mut ctx);
    let e = effect(&mut ctx);
    let prev = ctx.track_effect(e.id());
    let _ = s.get(&mut ctx);
    let _ = s.get(&mut ctx);
    ctx.track_signal(s.id());
    ctx.finish_tracking(prev);
    assert_eq!(ctx.get_dependent_effects(s.id()), vec![e.id()]);
}

#[test]
fn nested_runs_restore_the_outer_effect() {
    let mut ctx = ReactiveContext::new();
    let a = signal(0, &mut ctx);
    let b = signal(0, &mut ctx);
    let outer = effect(&mut ctx);
    let inner = effect(&mut ctx);
    let p0 = ctx.track_effect(outer.id());
    let _ = a.get(&mut ctx);
    let p1 = ctx.track_effect(inner.id());
    assert_eq!(p1, Some(outer.id()));
    let _ = b.get(&mut ctx);
    ctx.finish_tracking(p1);
    assert_eq!(ctx.current_effect(), Some(outer.id()));
    let _ = b.get(&mut ctx);
    ctx.finish_tracking(p0);
    assert_eq!(ctx.trigger_effects(a.id()), vec![outer.id()]);
    assert_eq!(ctx.trigger_effects(b.id()), vec![outer.id(), inner.id()]);
}

#[test]
fn only_registered_effects_are_triggered() {
    let mut ctx = ReactiveContext::new();
    let s = signal(0, &mut ctx);
    let e = effect(&mut ctx);
    // A tracked run under an identifier that was never registered.
    let prev = ctx.track_effect(5);
    let _ = s.get(&mut ctx);
    ctx.finish_tracking(prev);
    let prev = ctx.track_effect(e.id());
    let _ = s.get(&mut ctx);
    ctx.finish_tracking(prev);
    assert_eq!(ctx.get_dependent_effects(s.id()), vec![0, 5]);
    assert_eq!(ctx.trigger_effects(s.id()), vec![0]);
}

#[test]
fn from_ref_copies_and_tracks() {
    let mut ctx = ReactiveContext::new();
    let src = signal(String::from("hello"), &mut ctx);
    let e = effect(&mut ctx);
    let prev = ctx.track_effect(e.id());
    let copy = Signal::from_ref(&src, &mut ctx);
    ctx.finish_tracking(prev);
    assert_eq!(copy.get_clone(&mut ctx), "hello");
    assert_eq!(copy.id(), 1);
    assert_eq!(ctx.trigger_effects(src.id()), vec![e.id()]);
}

#[test]
fn computed_is_dirty_until_refreshed() {
    let mut ctx = ReactiveContext::new();
    let _ = effect(&mut ctx);
    let mut c: Computed<i32> = computed(10, &mut ctx);
    assert_eq!(c.effect_id(), 1);
    assert_eq!(c.get(&mut ctx), None);
    c.refresh(11);
    assert_eq!(c.get(&mut ctx), Some(&11));
    let c2 = Computed::new(0u8, &mut ctx);
    assert_eq!(c2.effect_id(), 2);
}

#[test]
fn reading_a_computed_value_depends_on_its_inputs() {
    let mut ctx = ReactiveContext::new();
    let mut input = signal(1, &mut ctx);
    let reader = effect(&mut ctx);
    let mut c = computed(2, &mut ctx);
    // The computation reads `input` under tracking.
    let prev = ctx.track_effect(c.effect_id());
    let _ = input.get(&mut ctx);
    ctx.finish_tracking(prev);
    c.refresh(2);
    // The reader reads the computed value.
    let prev = ctx.track_effect(reader.id());
    assert_eq!(c.get(&mut ctx), Some(&2));
    ctx.finish_tracking(prev);
    assert_eq!(ctx.get_dependent_effects(input.id()), vec![reader.id(), c.effect_id()]);
    assert_eq!(input.set(5, &ctx), vec![reader.id(), c.effect_id()]);
}

#[test]
fn signal_ids_come_from_the_context() {
    let mut ctx = ReactiveContext::new();
    assert_eq!(ctx.new_signal_id(), 0);
    assert_eq!(ctx.new_signal_id(), 1);
    let s = signal((), &mut ctx);
    assert_eq!(s.id(), 2);
}
